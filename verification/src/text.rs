//! Character-level text helpers: whitespace trimming, line splitting, string
//! comparison and decimal rendering.
use vstd::prelude::*;
use vstd::string::*;
use vstd::utf8::*;

verus! {

/// The characters with the Unicode `White_Space` property.
pub open spec fn is_space(c: char) -> bool {
    let u = c as u32;
    ||| 0x09 <= u <= 0x0d
    ||| u == 0x20
    ||| u == 0x85
    ||| u == 0xa0
    ||| u == 0x1680
    ||| 0x2000 <= u <= 0x200a
    ||| u == 0x2028
    ||| u == 0x2029
    ||| u == 0x202f
    ||| u == 0x205f
    ||| u == 0x3000
}

/// `char::is_whitespace` of std: whether the character has the Unicode
/// `White_Space` property.
pub assume_specification[ char::is_whitespace ](c: char) -> (r: bool)
    ensures
        r == is_space(c),
;

/// `String::push` of std: appends one character.
pub assume_specification[ String::push ](s: &mut String, c: char)
    ensures
        final(s)@ == old(s)@.push(c),
;

/// `s` without its leading whitespace.
pub open spec fn trim_start(s: Seq<char>) -> Seq<char>
    decreases s.len(),
{
    if s.len() > 0 && is_space(s[0]) {
        trim_start(s.drop_first())
    } else {
        s
    }
}

/// `s` without its trailing whitespace.
pub open spec fn trim_end(s: Seq<char>) -> Seq<char>
    decreases s.len(),
{
    if s.len() > 0 && is_space(s.last()) {
        trim_end(s.drop_last())
    } else {
        s
    }
}

/// `s` without its leading and trailing whitespace.
pub open spec fn trimmed(s: Seq<char>) -> Seq<char> {
    trim_end(trim_start(s))
}

/// The characters of `s`, one by one.
pub fn chars_of(s: &str) -> (r: Vec<char>)
    ensures
        r@ == s@,
{
    let mut out: Vec<char> = Vec::new();
    for c in it: s.chars()
        invariant
            out@ == it.seq().take(it.index()),
            it.seq() == s@,
    {
        out.push(c);
        assert(out@ =~= it.seq().take(it.index() + 1));
    }
    assert(out@ =~= s@);
    out
}

/// A string holding exactly these characters.
pub fn string_of(chars: &[char]) -> (r: String)
    ensures
        r@ == chars@,
{
    let mut out = String::new();
    for i in 0..chars.len()
        invariant
            out@ == chars@.take(i as int),
    {
        out.push(chars[i]);
        assert(out@ =~= chars@.take(i + 1));
    }
    assert(out@ =~= chars@);
    out
}

/// Whether two strings hold the same characters.
pub fn str_eq(a: &str, b: &str) -> (r: bool)
    ensures
        r == (a@ == b@),
{
    let x = a.as_bytes();
    let y = b.as_bytes();
    proof {
        encode_utf8_decode_utf8(a@);
        encode_utf8_decode_utf8(b@);
    }
    if x.len() != y.len() {
        return false;
    }
    for i in 0..x.len()
        invariant
            x.len() == y.len(),
            x@ == a.spec_bytes(),
            y@ == b.spec_bytes(),
            x@.take(i as int) =~= y@.take(i as int),
    {
        if x[i] != y[i] {
            assert(x@[i as int] != y@[i as int]);
            return false;
        }
        assert(x@.take(i + 1) =~= y@.take(i + 1)) by {
            assert(x@.take(i + 1) =~= x@.take(i as int).push(x@[i as int]));
            assert(y@.take(i + 1) =~= y@.take(i as int).push(y@[i as int]));
        }
    }
    assert(x@.take(x@.len() as int) =~= x@);
    assert(y@.take(y@.len() as int) =~= y@);
    true
}

/// Whether `s[from..to]` holds exactly the characters of `word`.
pub fn range_is(s: &Vec<char>, from: usize, to: usize, word: &str) -> (r: bool)
    requires
        from <= to <= s@.len(),
    ensures
        r == (s@.subrange(from as int, to as int) == word@),
{
    let w = chars_of(word);
    if w.len() != to - from {
        return false;
    }
    for i in 0..w.len()
        invariant
            from <= to <= s@.len(),
            w@ == word@,
            w@.len() == to - from,
            forall|j: int| 0 <= j < i ==> #[trigger] w@[j] == s@[from + j],
    {
        if w[i] != s[from + i] {
            assert(s@.subrange(from as int, to as int)[i as int] != word@[i as int]);
            return false;
        }
    }
    assert(s@.subrange(from as int, to as int) =~= word@);
    true
}

proof fn lemma_trim_start_from(s: Seq<char>, k: int)
    requires
        0 <= k <= s.len(),
        forall|j: int| 0 <= j < k ==> is_space(#[trigger] s[j]),
    ensures
        trim_start(s) == trim_start(s.skip(k)),
    decreases k,
{
    if k > 0 {
        assert(is_space(s[0]));
        let t = s.drop_first();
        assert forall|j: int| 0 <= j < k - 1 implies is_space(#[trigger] t[j]) by {
            assert(t[j] == s[j + 1]);
        }
        lemma_trim_start_from(t, k - 1);
        assert(t.skip(k - 1) =~= s.skip(k));
    } else {
        assert(s.skip(0) =~= s);
    }
}

proof fn lemma_trim_end_to(s: Seq<char>, k: int)
    requires
        0 <= k <= s.len(),
        forall|j: int| k <= j < s.len() ==> is_space(#[trigger] s[j]),
    ensures
        trim_end(s) == trim_end(s.take(k)),
    decreases s.len() - k,
{
    if k < s.len() {
        assert(is_space(s[s.len() - 1]));
        let t = s.drop_last();
        assert forall|j: int| k <= j < t.len() implies is_space(#[trigger] t[j]) by {
            assert(t[j] == s[j]);
        }
        lemma_trim_end_to(t, k);
        assert(t.take(k) =~= s.take(k));
    } else {
        assert(s.take(k) =~= s);
    }
}

/// The bounds of `s[from..to]` once its surrounding whitespace is dropped.
pub fn trim_range(s: &Vec<char>, from: usize, to: usize) -> (r: (usize, usize))
    requires
        from <= to <= s@.len(),
    ensures
        from <= r.0 <= r.1 <= to,
        s@.subrange(r.0 as int, r.1 as int) == trimmed(s@.subrange(from as int, to as int)),
{
    let ghost whole = s@.subrange(from as int, to as int);
    let mut lo: usize = from;
    while lo < to && s[lo].is_whitespace()
        invariant
            from <= lo <= to <= s@.len(),
            whole == s@.subrange(from as int, to as int),
            forall|j: int| 0 <= j < lo - from ==> is_space(#[trigger] whole[j]),
        decreases to - lo,
    {
        assert(whole[lo - from] == s@[lo as int]);
        lo = lo + 1;
    }
    proof {
        lemma_trim_start_from(whole, lo - from);
        assert(whole.skip(lo - from) =~= s@.subrange(lo as int, to as int));
    }
    let ghost front = s@.subrange(lo as int, to as int);
    assert(trim_start(whole) == front) by {
        if lo < to {
            assert(front[0] == s@[lo as int]);
        }
    }
    let mut hi: usize = to;
    while hi > lo && s[hi - 1].is_whitespace()
        invariant
            from <= lo <= hi <= to <= s@.len(),
            front == s@.subrange(lo as int, to as int),
            forall|j: int| hi - lo <= j < front.len() ==> is_space(#[trigger] front[j]),
        decreases hi,
    {
        assert(front[hi - 1 - lo] == s@[hi - 1]);
        hi = hi - 1;
    }
    proof {
        lemma_trim_end_to(front, hi - lo);
        let back = s@.subrange(lo as int, hi as int);
        assert(front.take(hi - lo) =~= back);
        if hi > lo {
            assert(back.last() == s@[hi - 1]);
        }
    }
    (lo, hi)
}

/// The decimal digits of `n`, most significant first.
pub open spec fn decimal(n: nat) -> Seq<char>
    decreases n,
{
    if n < 10 {
        seq![(48 + n) as char]
    } else {
        decimal(n / 10).push((48 + n % 10) as char)
    }
}

/// Appends the decimal digits of `n`.
pub fn push_decimal(out: &mut String, n: u128)
    ensures
        final(out)@ == old(out)@ + decimal(n as nat),
    decreases n,
{
    if n < 10 {
        out.push((48 + n as u8) as char);
        assert(out@ =~= old(out)@ + decimal(n as nat));
    } else {
        push_decimal(out, n / 10);
        out.push((48 + (n % 10) as u8) as char);
        assert(out@ =~= old(out)@ + decimal(n as nat));
    }
}

/// Appends `s`.
pub fn push_text(out: &mut String, s: &str)
    ensures
        final(out)@ == old(out)@ + s@,
{
    out.append(s);
}

/// The UTF-8 bytes of a string.
pub fn bytes_of(s: &String) -> (r: Vec<u8>)
    ensures
        r@ == encode_utf8(s@),
{
    s.as_str().as_bytes_vec()
}

/// A relative path below a directory.
pub open spec fn joined(dir: Seq<char>, below: Seq<char>) -> Seq<char> {
    if dir.len() == 0 || dir.last() == '/' {
        dir + below
    } else {
        dir.push('/') + below
    }
}

/// The path of `below`, which is relative, in `dir`.
pub fn join_path(dir: &str, below: &str) -> (r: String)
    ensures
        r@ == joined(dir@, below@),
{
    let chars = chars_of(dir);
    let mut out = string_of(&chars);
    if chars.len() > 0 && chars[chars.len() - 1] != '/' {
        out.push('/');
    }
    push_text(&mut out, below);
    out
}

/// Whether `s` begins with `prefix`.
pub open spec fn begins(s: Seq<char>, prefix: Seq<char>) -> bool {
    prefix.len() <= s.len() && s.take(prefix.len() as int) == prefix
}

/// Whether `s` ends with `suffix`.
pub open spec fn ends(s: Seq<char>, suffix: Seq<char>) -> bool {
    suffix.len() <= s.len() && s.skip(s.len() - suffix.len()) == suffix
}

/// Whether `s` begins with `prefix`.
pub fn starts_with(s: &str, prefix: &str) -> (r: bool)
    ensures
        r == begins(s@, prefix@),
{
    let chars = chars_of(s);
    let n: usize = chars_of(prefix).len();
    if n > chars.len() {
        return false;
    }
    assert(s@.take(n as int) =~= chars@.subrange(0, n as int));
    range_is(&chars, 0, n, prefix)
}

/// Whether `s` ends with `suffix`.
pub fn ends_with(s: &str, suffix: &str) -> (r: bool)
    ensures
        r == ends(s@, suffix@),
{
    let chars = chars_of(s);
    let n: usize = chars_of(suffix).len();
    if n > chars.len() {
        return false;
    }
    let from: usize = chars.len() - n;
    assert(s@.skip(from as int) =~= chars@.subrange(from as int, chars@.len() as int));
    range_is(&chars, from, chars.len(), suffix)
}

/// The first place of `c` in `s` from `from` on, or the length of `s`.
pub open spec fn place_of(s: Seq<char>, c: char, from: int) -> int
    decreases s.len() - from,
{
    if from < 0 || from >= s.len() {
        s.len() as int
    } else if s[from] == c {
        from
    } else {
        place_of(s, c, from + 1)
    }
}

pub proof fn lemma_place_of(s: Seq<char>, c: char, from: int)
    requires
        0 <= from <= s.len(),
    ensures
        from <= place_of(s, c, from) <= s.len(),
        place_of(s, c, from) < s.len() ==> s[place_of(s, c, from)] == c,
        forall|i: int| from <= i < place_of(s, c, from) ==> s[i] != c,
    decreases s.len() - from,
{
    if from < s.len() && s[from] != c {
        lemma_place_of(s, c, from + 1);
    }
}

/// The first place of `c` in `s` from `from` on, or the length of `s`.
pub fn find_char(s: &Vec<char>, c: char, from: usize) -> (r: usize)
    requires
        from <= s@.len(),
    ensures
        r == place_of(s@, c, from as int),
        from <= r <= s@.len(),
{
    let mut i: usize = from;
    proof {
        lemma_place_of(s@, c, from as int);
    }
    while i < s.len() && s[i] != c
        invariant
            from <= i <= s@.len(),
            place_of(s@, c, i as int) == place_of(s@, c, from as int),
        decreases s@.len() - i,
    {
        i = i + 1;
    }
    i
}

/// Whether a character is a decimal digit.
pub open spec fn is_digit(c: char) -> bool {
    '0' <= c <= '9'
}

/// The number that decimal digits stand for.
pub open spec fn digits_value(s: Seq<char>) -> int
    decreases s.len(),
{
    if s.len() == 0 {
        0
    } else {
        digits_value(s.drop_last()) * 10 + (s.last() as int - '0' as int)
    }
}

/// A number without its sign: a plus may stand before it.
pub open spec fn unsigned_part(s: Seq<char>) -> Seq<char> {
    if s.len() > 0 && s[0] == '+' {
        s.drop_first()
    } else {
        s
    }
}

/// The number that a text stands for: decimal digits, at least one, with a
/// plus before them or not, whose value fits in 32 bits.
pub open spec fn read_number(s: Seq<char>) -> Option<u32> {
    let d = unsigned_part(s);
    if d.len() > 0 && (forall|i: int| 0 <= i < d.len() ==> is_digit(#[trigger] d[i]))
        && digits_value(d) <= u32::MAX {
        Some(digits_value(d) as u32)
    } else {
        None
    }
}

proof fn lemma_digits_grow(s: Seq<char>, n: int)
    requires
        0 <= n <= s.len(),
        forall|i: int| 0 <= i < s.len() ==> is_digit(#[trigger] s[i]),
    ensures
        0 <= digits_value(s.take(n)) <= digits_value(s),
    decreases s.len(),
{
    if n < s.len() {
        let t = s.drop_last();
        assert forall|i: int| 0 <= i < t.len() implies is_digit(#[trigger] t[i]) by {
            assert(t[i] == s[i]);
        }
        lemma_digits_grow(t, n);
        assert(t.take(n) =~= s.take(n));
        assert(is_digit(s[s.len() - 1]));
    } else {
        assert(s.take(n) =~= s);
        if n > 0 {
            let t = s.drop_last();
            assert forall|i: int| 0 <= i < t.len() implies is_digit(#[trigger] t[i]) by {
                assert(t[i] == s[i]);
            }
            lemma_digits_grow(t, 0);
            assert(t.take(0) =~= Seq::empty());
            assert(is_digit(s[s.len() - 1]));
        }
    }
}

/// The number that a text stands for.
pub fn parse_number(s: &str) -> (r: Option<u32>)
    ensures
        r == read_number(s@),
{
    let chars = chars_of(s);
    let from: usize = if chars.len() > 0 && chars[0] == '+' {
        1
    } else {
        0
    };
    let ghost d = unsigned_part(s@);
    assert(d =~= s@.skip(from as int));
    if chars.len() == from {
        return None;
    }
    for i in from..chars.len()
        invariant
            chars@ == s@,
            from <= 1,
            d == s@.skip(from as int),
            d == unsigned_part(s@),
            forall|k: int| from <= k < i ==> is_digit(#[trigger] chars@[k]),
    {
        let c = chars[i];
        if !('0' <= c && c <= '9') {
            assert(d[i - from] == c);
            return None;
        }
    }
    assert forall|k: int| 0 <= k < d.len() implies is_digit(#[trigger] d[k]) by {
        assert(d[k] == chars@[from + k]);
    }
    let mut value: u64 = 0;
    for i in from..chars.len()
        invariant
            chars@ == s@,
            from <= 1,
            d == s@.skip(from as int),
            d == unsigned_part(s@),
            forall|k: int| 0 <= k < d.len() ==> is_digit(#[trigger] d[k]),
            value == digits_value(d.take(i - from)),
            value <= u32::MAX,
    {
        let c = chars[i];
        assert(d[i - from] == c);
        assert(d.take(i - from + 1).drop_last() =~= d.take(i - from));
        assert(d.take(i - from + 1).last() == c);
        value = value * 10 + (c as u32 as u64 - 48);
        if value > 0xffff_ffff {
            proof {
                lemma_digits_grow(d, i - from + 1);
            }
            return None;
        }
    }
    assert(d.take(d.len() as int) =~= d);
    Some(value as u32)
}

/// A copy of the text.
pub fn copied(s: &str) -> (r: String)
    ensures
        r@ == s@,
{
    string_of(&chars_of(s))
}

/// The decimal digits of a number read as that number. They are digits, and
/// only zero begins with one.
pub proof fn law_decimal_reads_back(n: nat)
    ensures
        digits_value(decimal(n)) == n,
        decimal(n).len() > 0,
        forall|i: int| 0 <= i < decimal(n).len() ==> '0' <= #[trigger] decimal(n)[i] <= '9',
        decimal(n)[0] == '0' <==> n == 0,
    decreases n,
{
    if n < 10 {
        assert(decimal(n).drop_last() =~= Seq::empty());
        assert(digits_value(Seq::<char>::empty()) == 0);
    } else {
        law_decimal_reads_back(n / 10);
        assert(decimal(n).drop_last() =~= decimal(n / 10));
        assert(decimal(n)[0] == decimal(n / 10)[0]);
    }
}

/// One more digit makes a number ten times as large, and that digit more.
pub proof fn law_digits_count_in_tens(s: Seq<char>, c: char)
    ensures
        digits_value(s.push(c)) == 10 * digits_value(s) + (c as int - '0' as int),
        digits_value(Seq::empty()) == 0,
{
    assert(s.push(c).drop_last() =~= s);
}

/// A number that is written out is read as itself, with a plus before it too.
/// One too large for 32 bits is not read, nor is a text without a digit or with
/// anything but digits.
pub proof fn law_written_number_is_read(n: nat, s: Seq<char>, i: int)
    ensures
        n <= u32::MAX ==> read_number(decimal(n)) == Some(n as u32),
        n <= u32::MAX ==> read_number(seq!['+'] + decimal(n)) == Some(n as u32),
        n > u32::MAX ==> read_number(decimal(n)) is None,
        read_number(Seq::empty()) is None,
        read_number(seq!['+']) is None,
        0 < i < s.len() && !('0' <= s[i] <= '9') ==> read_number(s) is None,
        s.len() > 0 && s[0] != '+' && !('0' <= s[0] <= '9') ==> read_number(s) is None,
{
    law_decimal_reads_back(n);
    let d = decimal(n);
    assert(d[0] != '+');
    assert(unsigned_part(d) == d);
    assert(unsigned_part(seq!['+'] + d) =~= d);
    assert(unsigned_part(seq!['+']) =~= Seq::empty());
    if 0 < i < s.len() && !is_digit(s[i]) {
        let u = unsigned_part(s);
        if s[0] == '+' {
            assert(u[i - 1] == s[i]);
        } else {
            assert(u[i] == s[i]);
        }
    }
    if s.len() > 0 && s[0] != '+' && !is_digit(s[0]) {
        assert(unsigned_part(s)[0] == s[0]);
    }
}

/// A path below a directory: a slash comes between the two, unless the
/// directory ends in one or is not named at all.
pub proof fn law_joined_path(dir: Seq<char>, below: Seq<char>)
    ensures
        dir.len() == 0 ==> joined(dir, below) == below,
        dir.len() > 0 && dir.last() == '/' ==> joined(dir, below) == dir + below,
        dir.len() > 0 && dir.last() != '/' ==> joined(dir, below) == dir + seq!['/'] + below,
{
    assert(dir.push('/') =~= dir + seq!['/']);
    if dir.len() == 0 {
        assert(dir + below =~= below);
    }
}

/// A text begins with its first part and ends with its last.
pub proof fn law_beginning_and_end(a: Seq<char>, b: Seq<char>)
    ensures
        begins(a + b, a),
        ends(a + b, b),
        begins(a, b) && begins(b, a) ==> a == b,
        a.len() < b.len() ==> !begins(a, b) && !ends(a, b),
{
    assert((a + b).take(a.len() as int) =~= a);
    assert((a + b).skip(a.len() as int) =~= b);
    if begins(a, b) && begins(b, a) {
        assert(a.take(b.len() as int) =~= a);
    }
}

/// What a text begins or ends with is what stands there, character by
/// character.
pub proof fn law_beginning_and_end_stand_there(s: Seq<char>, part: Seq<char>, i: int)
    requires
        0 <= i < part.len(),
    ensures
        begins(s, part) ==> s[i] == part[i],
        ends(s, part) ==> s[s.len() - part.len() + i] == part[i],
{
    if begins(s, part) {
        assert(s.take(part.len() as int)[i] == s[i]);
    }
    if ends(s, part) {
        assert(s.skip(s.len() - part.len())[i] == s[s.len() - part.len() + i]);
    }
}

/// A character is found at its first place from where the search begins, and
/// otherwise at the end.
pub proof fn law_first_place(s: Seq<char>, c: char, from: int, i: int)
    requires
        0 <= from <= s.len(),
    ensures
        from <= place_of(s, c, from) <= s.len(),
        place_of(s, c, from) < s.len() ==> s[place_of(s, c, from)] == c,
        from <= i < s.len() && s[i] == c ==> place_of(s, c, from) <= i,
{
    lemma_place_of(s, c, from);
}

proof fn lemma_trim_start(s: Seq<char>)
    ensures
        ({
            let t = trim_start(s);
            &&& t.len() <= s.len()
            &&& t == s.skip(s.len() - t.len())
            &&& t.len() > 0 ==> !is_space(t[0])
            &&& forall|i: int| 0 <= i < s.len() - t.len() ==> is_space(#[trigger] s[i])
        }),
    decreases s.len(),
{
    if s.len() > 0 && is_space(s[0]) {
        let r = s.drop_first();
        lemma_trim_start(r);
        let t = trim_start(r);
        assert(r.skip(r.len() - t.len()) =~= s.skip(s.len() - t.len()));
        assert forall|i: int| 0 <= i < s.len() - t.len() implies is_space(#[trigger] s[i]) by {
            if i > 0 {
                assert(r[i - 1] == s[i]);
            }
        }
    } else {
        assert(s.skip(0) =~= s);
    }
}

proof fn lemma_trim_end(s: Seq<char>)
    ensures
        ({
            let t = trim_end(s);
            &&& t.len() <= s.len()
            &&& t == s.take(t.len() as int)
            &&& t.len() > 0 ==> !is_space(t.last())
            &&& forall|i: int| t.len() <= i < s.len() ==> is_space(#[trigger] s[i])
        }),
    decreases s.len(),
{
    if s.len() > 0 && is_space(s.last()) {
        let r = s.drop_last();
        lemma_trim_end(r);
        let t = trim_end(r);
        assert(r.take(t.len() as int) =~= s.take(t.len() as int));
        assert forall|i: int| t.len() <= i < s.len() implies is_space(#[trigger] s[i]) by {
            if i < r.len() {
                assert(r[i] == s[i]);
            }
        }
    } else {
        assert(s.take(s.len() as int) =~= s);
    }
}

/// A trimmed text is a stretch of the text that neither begins nor ends with
/// whitespace, and everything around it is whitespace.
pub proof fn law_trimmed_text(s: Seq<char>)
    ensures
        ({
            let t = trimmed(s);
            &&& t.len() > 0 ==> !is_space(t[0]) && !is_space(t.last())
            &&& exists|a: int|
                0 <= a && a + t.len() <= s.len() && t == #[trigger] s.subrange(a, a + t.len()) && (
                forall|i: int| 0 <= i < a || a + t.len() <= i < s.len() ==> is_space(#[trigger] s[i]))
        }),
{
    lemma_trim_start(s);
    let b = trim_start(s);
    lemma_trim_end(b);
    let t = trimmed(s);
    let a = s.len() - b.len();
    assert(t =~= s.subrange(a, a + t.len()));
    if t.len() > 0 {
        assert(t[0] == b[0]);
    }
    assert forall|i: int| 0 <= i < a || a + t.len() <= i < s.len() implies is_space(
        #[trigger] s[i],
    ) by {
        if i >= a {
            assert(b[i - a] == s[i]);
        }
    }
}

} // verus!
