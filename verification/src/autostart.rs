//! Autostart entries: which of them to launch, and with what arguments.
use vstd::prelude::*;
use vstd::string::*;

use crate::assoc::{AssocMap, MapKey};
use crate::config::{below_config, in_config_dir};
use crate::text::{
    chars_of, copied, ends, ends_with, find_char, is_space, join_path, joined, law_joined_path,
    lemma_place_of, place_of, range_is, str_eq, string_of, trim_range, trimmed,
};

verus! {

/// A key of a desktop entry.
#[derive(Debug)]
pub struct FieldName(pub String);

impl MapKey for FieldName {
    type Key = Seq<char>;

    open spec fn key(&self) -> Seq<char> {
        self.0@
    }

    fn same(&self, other: &Self) -> (r: bool) {
        str_eq(self.0.as_str(), other.0.as_str())
    }
}

/// The fields of a desktop entry, by their keys.
pub type Fields = AssocMap<FieldName, String>;

/// What a field map holds.
pub open spec fn field_views(fields: Fields) -> Map<Seq<char>, Seq<char>> {
    fields@.map_values(|s: String| s@)
}

/// Whether a line is empty or a comment, and says nothing.
pub open spec fn says_nothing(line: Seq<char>) -> bool {
    line.len() == 0 || line[0] == '#'
}

/// Whether a line opens a section.
pub open spec fn is_header(line: Seq<char>) -> bool {
    line.len() >= 2 && line[0] == '[' && line.last() == ']'
}

/// Whether the entry's own section is open after a line.
pub open spec fn open_after(line: Seq<char>, was_open: bool) -> bool {
    if says_nothing(line) || !is_header(line) {
        was_open
    } else {
        line.subrange(1, line.len() - 1) == "Desktop Entry"@
    }
}

/// Whether a line sets a field.
pub open spec fn sets_field(line: Seq<char>, was_open: bool) -> bool {
    !says_nothing(line) && !is_header(line) && was_open && place_of(line, '=', 0) < line.len()
}

/// The fields after a line: it sets the field named before its first `=` to
/// what follows, both without the spaces around them.
pub open spec fn fields_after(
    line: Seq<char>,
    was_open: bool,
    fields: Map<Seq<char>, Seq<char>>,
) -> Map<Seq<char>, Seq<char>> {
    if sets_field(line, was_open) {
        let at = place_of(line, '=', 0);
        fields.insert(trimmed(line.take(at)), trimmed(line.skip(at + 1)))
    } else {
        fields
    }
}

/// The fields that a text sets from `from` on, line by line.
pub open spec fn fields_from(
    text: Seq<char>,
    from: int,
    was_open: bool,
    fields: Map<Seq<char>, Seq<char>>,
) -> Map<Seq<char>, Seq<char>>
    decreases text.len() - from,
{
    if from < 0 || from > text.len() {
        fields
    } else {
        let end = place_of(text, '\n', from);
        let line = trimmed(text.subrange(from, end));
        let after = fields_after(line, was_open, fields);
        if end < from || end >= text.len() {
            after
        } else {
            fields_from(text, end + 1, open_after(line, was_open), after)
        }
    }
}

/// The fields of a text's `[Desktop Entry]` section. Of several settings of
/// one field the last counts.
pub open spec fn desktop_fields(text: Seq<char>) -> Map<Seq<char>, Seq<char>> {
    fields_from(text, 0, false, Map::empty())
}

fn slice_string(chars: &Vec<char>, from: usize, to: usize) -> (r: String)
    requires
        from <= to <= chars@.len(),
    ensures
        r@ == chars@.subrange(from as int, to as int),
{
    let mut out: Vec<char> = Vec::new();
    for i in from..to
        invariant
            from <= to <= chars@.len(),
            out@ == chars@.subrange(from as int, i as int),
    {
        out.push(chars[i]);
        assert(out@ =~= chars@.subrange(from as int, i + 1));
    }
    string_of(&out)
}

/// Reads the fields of a desktop entry: the `Key=Value` lines of its
/// `[Desktop Entry]` section. Blank lines and comments are skipped.
pub fn parse_desktop_entry(contents: &str) -> (r: Fields)
    ensures
        field_views(r) == desktop_fields(contents@),
{
    let chars = chars_of(contents);
    let mut fields: Fields = AssocMap::new();
    let mut in_entry = false;
    let mut from: usize = 0;
    assert(field_views(fields) =~= Map::empty());
    loop
        invariant
            chars@ == contents@,
            from <= chars@.len(),
            fields_from(chars@, from as int, in_entry, field_views(fields)) == desktop_fields(
                contents@,
            ),
        decreases chars@.len() - from,
    {
        let end: usize = find_char(&chars, '\n', from);
        let (lo, hi) = trim_range(&chars, from, end);
        let ghost line = trimmed(chars@.subrange(from as int, end as int));
        let ghost before = field_views(fields);
        assert(line =~= chars@.subrange(lo as int, hi as int));
        let ghost was_open = in_entry;
        if lo < hi && chars[lo] != '#' {
            assert(line[0] == chars@[lo as int]);
            assert(line.last() == chars@[hi - 1]);
            if hi - lo >= 2 && chars[lo] == '[' && chars[hi - 1] == ']' {
                assert(line.subrange(1, line.len() - 1) =~= chars@.subrange(lo + 1, hi - 1));
                in_entry = range_is(&chars, lo + 1, hi - 1, "Desktop Entry");
            } else if in_entry {
                let at: usize = find_char(&chars, '=', lo);
                proof {
                    lemma_place_within(chars@, '=', lo as int, hi as int);
                }
                if at < hi {
                    let (key_lo, key_hi) = trim_range(&chars, lo, at);
                    let (value_lo, value_hi) = trim_range(&chars, at + 1, hi);
                    let key = slice_string(&chars, key_lo, key_hi);
                    let value = slice_string(&chars, value_lo, value_hi);
                    assert(line.take(at - lo) =~= chars@.subrange(lo as int, at as int));
                    assert(line.skip(at - lo + 1) =~= chars@.subrange(at + 1, hi as int));
                    fields.insert(FieldName(key), value);
                    assert(field_views(fields) =~= before.insert(key@, value@));
                }
            }
        }
        assert(field_views(fields) == fields_after(line, was_open, before));
        assert(in_entry == open_after(line, was_open));
        if end >= chars.len() {
            return fields;
        }
        from = end + 1;
    }
}

/// Searching a line of a text finds what searching the text finds, up to the
/// end of the line.
proof fn lemma_place_within(text: Seq<char>, c: char, from: int, to: int)
    requires
        0 <= from <= to <= text.len(),
    ensures
        ({
            let line = text.subrange(from, to);
            &&& place_of(text, c, from) < to ==> place_of(line, c, 0) == place_of(text, c, from)
                - from
            &&& place_of(text, c, from) >= to ==> place_of(line, c, 0) == line.len()
        }),
{
    let line = text.subrange(from, to);
    lemma_place_of(text, c, from);
    lemma_place_of(line, c, 0);
    let p = place_of(text, c, from);
    let q = place_of(line, c, 0);
    if p < to {
        assert(line[p - from] == c);
        if q < line.len() {
            assert(text[from + q] == c);
        }
    } else {
        if q < line.len() {
            assert(text[from + q] == c);
        }
    }
}

/// Whether a character after a `%` is a field code.
pub open spec fn is_field_code(c: char) -> bool {
    c == 'f' || c == 'F' || c == 'u' || c == 'U' || c == 'd' || c == 'D' || c == 'n' || c == 'N'
        || c == 'i' || c == 'c' || c == 'k' || c == 'v' || c == 'm'
}

/// The words of a command line from `at` on, `word` being what the current
/// word holds so far. Quotes keep spaces in a word, a backslash in quotes
/// keeps the next character as it is, `%%` is a percent sign, and field codes
/// are dropped.
pub open spec fn words_from(s: Seq<char>, at: int, word: Seq<char>, quoted: bool) -> Seq<Seq<char>>
    decreases s.len() - at,
{
    if at < 0 || at >= s.len() {
        if word.len() > 0 {
            seq![word]
        } else {
            Seq::empty()
        }
    } else if s[at] == '"' {
        words_from(s, at + 1, word, !quoted)
    } else if s[at] == '\\' && quoted {
        if at + 1 < s.len() {
            words_from(s, at + 2, word.push(s[at + 1]), quoted)
        } else {
            words_from(s, at + 1, word, quoted)
        }
    } else if s[at] == '%' {
        if at + 1 >= s.len() {
            words_from(s, at + 1, word.push('%'), quoted)
        } else if s[at + 1] == '%' {
            words_from(s, at + 2, word.push('%'), quoted)
        } else if is_field_code(s[at + 1]) {
            words_from(s, at + 2, word, quoted)
        } else {
            words_from(s, at + 2, word.push('%').push(s[at + 1]), quoted)
        }
    } else if is_space(s[at]) && !quoted {
        if word.len() > 0 {
            seq![word] + words_from(s, at + 1, Seq::empty(), quoted)
        } else {
            words_from(s, at + 1, word, quoted)
        }
    } else {
        words_from(s, at + 1, word.push(s[at]), quoted)
    }
}

/// The words of a command line.
pub open spec fn exec_words(s: Seq<char>) -> Seq<Seq<char>> {
    words_from(s, 0, Seq::empty(), false)
}

/// What a list of strings holds.
pub open spec fn string_views(strings: Seq<String>) -> Seq<Seq<char>> {
    Seq::new(strings.len(), |i: int| strings[i]@)
}

fn field_code(c: char) -> (r: bool)
    ensures
        r == is_field_code(c),
{
    c == 'f' || c == 'F' || c == 'u' || c == 'U' || c == 'd' || c == 'D' || c == 'n' || c == 'N'
        || c == 'i' || c == 'c' || c == 'k' || c == 'v' || c == 'm'
}

/// Splits a command line into words; `None` if it has none.
pub fn parse_exec(exec: &str) -> (r: Option<Vec<String>>)
    ensures
        r is Some <==> exec_words(exec@).len() > 0,
        r matches Some(words) ==> string_views(words@) == exec_words(exec@),
{
    let s = chars_of(exec);
    let mut words: Vec<String> = Vec::new();
    let mut current: Vec<char> = Vec::new();
    let mut quoted = false;
    let mut at: usize = 0;
    assert(string_views(words@) =~= Seq::empty());
    assert(current@ =~= Seq::empty());
    assert(string_views(words@) + words_from(s@, 0, current@, quoted) =~= exec_words(exec@));
    while at < s.len()
        invariant
            s@ == exec@,
            at <= s@.len(),
            string_views(words@) + words_from(s@, at as int, current@, quoted) == exec_words(exec@),
        decreases s@.len() - at,
    {
        let c = s[at];
        let ghost before = current@;
        if c == '"' {
            quoted = !quoted;
            at = at + 1;
        } else if c == '\\' && quoted {
            if at + 1 < s.len() {
                current.push(s[at + 1]);
                at = at + 2;
            } else {
                at = at + 1;
            }
        } else if c == '%' {
            if at + 1 >= s.len() {
                current.push('%');
                at = at + 1;
            } else if s[at + 1] == '%' {
                current.push('%');
                at = at + 2;
            } else if field_code(s[at + 1]) {
                at = at + 2;
            } else {
                current.push('%');
                current.push(s[at + 1]);
                at = at + 2;
            }
        } else if c.is_whitespace() && !quoted {
            if current.len() > 0 {
                let word = string_of(&current);
                let ghost earlier = words@;
                words.push(word);
                proof {
                    let rest = words_from(s@, at + 1, Seq::empty(), quoted);
                    assert(string_views(words@) =~= string_views(earlier).push(before));
                    assert(string_views(words@) + rest =~= string_views(earlier) + (seq![before]
                        + rest));
                }
                current = Vec::new();
                assert(current@ =~= Seq::empty());
            }
            at = at + 1;
        } else {
            current.push(c);
            at = at + 1;
        }
    }
    if current.len() > 0 {
        let word = string_of(&current);
        let ghost earlier = words@;
        words.push(word);
        assert(string_views(words@) =~= string_views(earlier) + seq![current@]);
    }
    assert(string_views(words@) =~= exec_words(exec@));
    if words.len() > 0 {
        Some(words)
    } else {
        None
    }
}

/// No word of a command line is empty.
pub proof fn law_no_word_is_empty(s: Seq<char>, at: int, word: Seq<char>, quoted: bool, i: int)
    requires
        0 <= i < words_from(s, at, word, quoted).len(),
    ensures
        words_from(s, at, word, quoted)[i].len() > 0,
    decreases s.len() - at,
{
    if 0 <= at < s.len() {
        if s[at] == '"' {
            law_no_word_is_empty(s, at + 1, word, !quoted, i);
        } else if s[at] == '\\' && quoted {
            if at + 1 < s.len() {
                law_no_word_is_empty(s, at + 2, word.push(s[at + 1]), quoted, i);
            } else {
                law_no_word_is_empty(s, at + 1, word, quoted, i);
            }
        } else if s[at] == '%' {
            if at + 1 >= s.len() {
                law_no_word_is_empty(s, at + 1, word.push('%'), quoted, i);
            } else if s[at + 1] == '%' {
                law_no_word_is_empty(s, at + 2, word.push('%'), quoted, i);
            } else if is_field_code(s[at + 1]) {
                law_no_word_is_empty(s, at + 2, word, quoted, i);
            } else {
                law_no_word_is_empty(s, at + 2, word.push('%').push(s[at + 1]), quoted, i);
            }
        } else if is_space(s[at]) && !quoted {
            if word.len() > 0 {
                if i > 0 {
                    law_no_word_is_empty(s, at + 1, Seq::empty(), quoted, i - 1);
                }
            } else {
                law_no_word_is_empty(s, at + 1, word, quoted, i);
            }
        } else {
            law_no_word_is_empty(s, at + 1, word.push(s[at]), quoted, i);
        }
    }
}

/// Whether a character stands for itself outside quotes.
pub open spec fn is_plain(c: char) -> bool {
    c != '"' && c != '%' && !is_space(c)
}

/// Some words with a space after each.
pub open spec fn spaced(words: Seq<Seq<char>>) -> Seq<char>
    decreases words.len(),
{
    if words.len() == 0 {
        Seq::empty()
    } else {
        words[0] + seq![' '] + spaced(words.drop_first())
    }
}

/// Plain words come out of a command line as they went in.
pub proof fn law_plain_words_come_back(words: Seq<Seq<char>>)
    requires
        forall|i: int|
            0 <= i < words.len() ==> (#[trigger] words[i]).len() > 0 && forall|k: int|
                0 <= k < words[i].len() ==> is_plain(words[i][k]),
    ensures
        exec_words(spaced(words)) == words,
{
    lemma_spaced_words(words, Seq::empty());
    assert(Seq::<char>::empty() + spaced(words) =~= spaced(words));
}

proof fn lemma_spaced_words(words: Seq<Seq<char>>, before: Seq<char>)
    requires
        forall|i: int|
            0 <= i < words.len() ==> (#[trigger] words[i]).len() > 0 && forall|k: int|
                0 <= k < words[i].len() ==> is_plain(words[i][k]),
    ensures
        words_from(before + spaced(words), before.len() as int, Seq::empty(), false) == words,
    decreases words.len(),
{
    let s = before + spaced(words);
    let at = before.len() as int;
    if words.len() > 0 {
        let rest = words.drop_first();
        assert forall|i: int| 0 <= i < rest.len() implies (#[trigger] rest[i]).len() > 0 && forall|
            k: int,
        |
            0 <= k < rest[i].len() ==> is_plain(rest[i][k]) by {
            assert(rest[i] == words[i + 1]);
        }
        let w = words[0];
        let passed = before + w + seq![' '];
        assert(s =~= passed + spaced(rest));
        assert forall|k: int| 0 <= k < w.len() implies s[at + k] == w[k] && is_plain(w[k]) by {}
        lemma_plain_word(s, at, w, 0);
        assert(w.take(0) =~= Seq::empty());
        assert(s[at + w.len()] == ' ');
        lemma_spaced_words(rest, passed);
        assert(words =~= seq![w] + rest);
    } else {
        assert(words =~= Seq::empty());
    }
}

proof fn lemma_plain_word(s: Seq<char>, at: int, w: Seq<char>, k: int)
    requires
        0 <= at,
        0 <= k <= w.len(),
        at + w.len() < s.len(),
        forall|j: int| 0 <= j < w.len() ==> s[at + j] == #[trigger] w[j] && is_plain(w[j]),
    ensures
        words_from(s, at + k, w.take(k), false) == words_from(s, at + w.len(), w, false),
    decreases w.len() - k,
{
    if k < w.len() {
        assert(s[at + k] == w[k] && is_plain(w[k]));
        assert(w.take(k + 1) =~= w.take(k).push(w[k]));
        lemma_plain_word(s, at, w, k + 1);
    } else {
        assert(w.take(k) =~= w);
    }
}

/// The program whose presence an entry asks for.
pub open spec fn asked_for(fields: Map<Seq<char>, Seq<char>>) -> Option<Seq<char>> {
    if fields.contains_key("TryExec"@) {
        Some(fields["TryExec"@])
    } else {
        None
    }
}

/// Whether an entry is to be launched: it is an application, is not hidden, is
/// not meant for certain desktops only, and the program it asks for, if any,
/// was found.
pub open spec fn launches(fields: Map<Seq<char>, Seq<char>>, found: bool) -> bool {
    &&& fields.contains_key("Type"@) && fields["Type"@] == "Application"@
    &&& !(fields.contains_key("Hidden"@) && fields["Hidden"@] == "true"@)
    &&& !fields.contains_key("OnlyShowIn"@)
    &&& asked_for(fields) is Some ==> found
    &&& fields.contains_key("Exec"@)
}

fn field<'a>(fields: &'a Fields, name: &str) -> (r: Option<&'a String>)
    ensures
        r is Some <==> field_views(*fields).contains_key(name@),
        r matches Some(value) ==> field_views(*fields)[name@] == value@,
{
    let key = FieldName(copied(name));
    let r = fields.get(&key);
    assert(field_views(*fields).contains_key(name@) == fields@.contains_key(name@));
    r
}

/// The program whose presence an entry asks for.
pub fn try_exec<'a>(fields: &'a Fields) -> (r: Option<&'a String>)
    ensures
        r is Some <==> asked_for(field_views(*fields)) is Some,
        r matches Some(program) ==> asked_for(field_views(*fields)) == Some(program@),
{
    field(fields, "TryExec")
}

/// The command line of an entry that is to be launched; `None` for one that is
/// not, or whose command line is empty. `found` says whether the program that
/// the entry asks for is there.
pub fn resolve_entry(fields: &Fields, found: bool) -> (r: Option<Vec<String>>)
    ensures
        ({
            let views = field_views(*fields);
            &&& r is Some <==> launches(views, found) && exec_words(views["Exec"@]).len() > 0
            &&& r matches Some(argv) ==> string_views(argv@) == exec_words(views["Exec"@])
        }),
{
    match field(fields, "Type") {
        Some(kind) => {
            if !str_eq(kind.as_str(), "Application") {
                return None;
            }
        },
        None => {
            return None;
        },
    }
    if let Some(hidden) = field(fields, "Hidden") {
        if str_eq(hidden.as_str(), "true") {
            return None;
        }
    }
    if field(fields, "OnlyShowIn").is_some() {
        return None;
    }
    if try_exec(fields).is_some() && !found {
        return None;
    }
    match field(fields, "Exec") {
        Some(exec) => parse_exec(exec.as_str()),
        None => None,
    }
}

/// Whether a file name is a desktop entry's.
pub open spec fn is_entry_name(name: Seq<char>) -> bool {
    name.len() > 8 && ends(name, ".desktop"@)
}

/// Whether entry `i` of a list of file names is read: it is a desktop entry,
/// and none before it has the same name.
pub open spec fn is_read(names: Seq<String>, i: int) -> bool {
    is_entry_name(names[i]@) && forall|k: int| 0 <= k < i ==> (#[trigger] names[k])@ != names[i]@
}

/// Which files of the autostart directories to read. `names` holds the names
/// of the user's files first, then the system's: a name met again is skipped,
/// so that the user's entry stands in for the system's.
pub fn select_entries(names: &Vec<String>) -> (r: Vec<bool>)
    ensures
        r@ == Seq::new(names@.len(), |i: int| is_read(names@, i)),
{
    let mut take: Vec<bool> = Vec::new();
    for i in 0..names.len()
        invariant
            take@ == Seq::new(i as nat, |k: int| is_read(names@, k)),
    {
        let mut wanted = chars_of(names[i].as_str()).len() > 8 && ends_with(
            names[i].as_str(),
            ".desktop",
        );
        for k in 0..i
            invariant
                i < names@.len(),
                wanted ==> is_entry_name(names@[i as int]@),
                wanted ==> forall|j: int| 0 <= j < k ==> (#[trigger] names@[j])@ != names@[i as int]@,
                !wanted ==> !is_read(names@, i as int),
        {
            if str_eq(names[k].as_str(), names[i].as_str()) {
                assert(names@[k as int]@ == names@[i as int]@);
                wanted = false;
            }
        }
        take.push(wanted);
        assert(take@ =~= Seq::new((i + 1) as nat, |k: int| is_read(names@, k)));
    }
    take
}

/// Of the entries with one name, exactly the first is read.
pub proof fn law_first_of_a_name_is_read(names: Seq<String>, i: int)
    requires
        0 <= i < names.len(),
        is_entry_name(names[i]@),
    ensures
        exists|k: int| 0 <= k <= i && names[k]@ == names[i]@ && #[trigger] is_read(names, k),
        forall|j: int, k: int|
            0 <= j < k < names.len() && #[trigger] is_read(names, j) && names[j]@ == names[k]@
                ==> !#[trigger] is_read(names, k),
    decreases i,
{
    if exists|k: int| 0 <= k < i && (#[trigger] names[k])@ == names[i]@ {
        let k = choose|k: int| 0 <= k < i && (#[trigger] names[k])@ == names[i]@;
        law_first_of_a_name_is_read(names, k);
    } else {
        assert(is_read(names, i));
    }
}

/// The user's autostart directory, given the values of `$XDG_CONFIG_HOME` and
/// `$HOME`.
pub fn user_autostart_dir(xdg_config_home: &Option<String>, home: &Option<String>) -> (r: Option<
    String,
>)
    ensures
        r is Some <==> below_config(
            *xdg_config_home,
            *home,
            "autostart"@,
            ".config/autostart"@,
        ) is Some,
        r matches Some(path) ==> below_config(
            *xdg_config_home,
            *home,
            "autostart"@,
            ".config/autostart"@,
        ) == Some(path@),
{
    in_config_dir(xdg_config_home, home, "autostart", ".config/autostart")
}

/// Where a program may be: itself if it is a path, else in each directory of
/// the search path, in order.
pub open spec fn program_places(program: Seq<char>, dirs: Seq<String>) -> Seq<Seq<char>> {
    if place_of(program, '/', 0) < program.len() {
        seq![program]
    } else {
        Seq::new(dirs.len(), |i: int| joined(dirs[i]@, program))
    }
}

/// The paths at which to look for a program, first to last: the first one that
/// is a file is it. `dirs` is the search path.
pub fn which(program: &str, dirs: &Vec<String>) -> (r: Vec<String>)
    ensures
        string_views(r@) == program_places(program@, dirs@),
{
    let chars = chars_of(program);
    let mut places: Vec<String> = Vec::new();
    if find_char(&chars, '/', 0) < chars.len() {
        places.push(string_of(&chars));
        assert(string_views(places@) =~= seq![program@]);
        return places;
    }
    for i in 0..dirs.len()
        invariant
            string_views(places@) == Seq::new(i as nat, |k: int| joined(dirs@[k]@, program@)),
    {
        let ghost before = places@;
        places.push(join_path(dirs[i].as_str(), program));
        assert(string_views(places@) =~= string_views(before).push(
            joined(dirs@[i as int]@, program@),
        ));
        assert(string_views(places@) =~= Seq::new(
            (i + 1) as nat,
            |k: int| joined(dirs@[k]@, program@),
        ));
    }
    assert(string_views(places@) =~= program_places(program@, dirs@));
    places
}

/// A line without its surrounding spaces: an empty one and a comment change
/// nothing. One in square brackets opens the section that it names, and the
/// entry's own is `Desktop Entry`. In that section, a line sets the field before
/// its first `=` to what follows, both without the spaces around them. Any other
/// line changes nothing.
pub proof fn law_what_a_line_says(
    name: Seq<char>,
    value: Seq<char>,
    was_open: bool,
    fields: Map<Seq<char>, Seq<char>>,
)
    ensures
        open_after(Seq::empty(), was_open) == was_open,
        fields_after(Seq::empty(), was_open, fields) == fields,
        open_after(seq!['#'] + name, was_open) == was_open,
        fields_after(seq!['#'] + name, was_open, fields) == fields,
        open_after(seq!['['] + name + seq![']'], was_open) == (name == seq![
            'D',
            'e',
            's',
            'k',
            't',
            'o',
            'p',
            ' ',
            'E',
            'n',
            't',
            'r',
            'y',
        ]),
        fields_after(seq!['['] + name + seq![']'], was_open, fields) == fields,
        !name.contains('=') ==> fields_after(name, was_open, fields) == fields,
        ({
            let line = name + seq!['='] + value;
            let sets = was_open && line[0] != '#' && !(line[0] == '[' && line.last() == ']');
            &&& !name.contains('=') && sets ==> {
                &&& fields_after(line, was_open, fields) == fields.insert(
                    trimmed(name),
                    trimmed(value),
                )
                &&& open_after(line, was_open) == was_open
            }
            &&& !was_open ==> fields_after(line, was_open, fields) == fields
        }),
{
    reveal_strlit("Desktop Entry");
    let header = seq!['['] + name + seq![']'];
    assert(header.subrange(1, header.len() - 1) =~= name);
    assert("Desktop Entry"@ =~= seq![
        'D',
        'e',
        's',
        'k',
        't',
        'o',
        'p',
        ' ',
        'E',
        'n',
        't',
        'r',
        'y',
    ]);
    let line = name + seq!['='] + value;
    lemma_place_of(line, '=', 0);
    lemma_place_of(name, '=', 0);
    if !name.contains('=') {
        let at = place_of(line, '=', 0);
        assert(line[name.len() as int] == '=');
        if at < name.len() {
            assert(line[at] == name[at]);
            assert(name.contains(name[at]));
        }
        assert(line.take(at) =~= name);
        assert(line.skip(at + 1) =~= value);
        let p = place_of(name, '=', 0);
        if p < name.len() {
            assert(name.contains(name[p]));
        }
    }
}

proof fn lemma_fields_behind(
    before: Seq<char>,
    rest: Seq<char>,
    from: int,
    was_open: bool,
    fields: Map<Seq<char>, Seq<char>>,
)
    requires
        0 <= from <= rest.len(),
    ensures
        fields_from(before + rest, before.len() + from, was_open, fields) == fields_from(
            rest,
            from,
            was_open,
            fields,
        ),
    decreases rest.len() - from,
{
    let text = before + rest;
    let n = before.len() as int;
    lemma_place_of(text, '\n', n + from);
    lemma_place_of(rest, '\n', from);
    let a = place_of(text, '\n', n + from);
    let b = place_of(rest, '\n', from);
    if b < rest.len() {
        assert(text[n + b] == rest[b]);
    }
    if a < text.len() {
        assert(text[a] == rest[a - n]);
    }
    assert(a == n + b);
    assert(text.subrange(n + from, a) =~= rest.subrange(from, b));
    if b < rest.len() {
        let line = trimmed(rest.subrange(from, b));
        lemma_fields_behind(
            before,
            rest,
            b + 1,
            open_after(line, was_open),
            fields_after(line, was_open, fields),
        );
    }
}

/// A desktop entry is read line by line, each without the spaces around it, and
/// what one line opens or sets holds for the lines after it. At first no section
/// is open and nothing is set.
pub proof fn law_lines_are_read_in_turn(
    line: Seq<char>,
    rest: Seq<char>,
    was_open: bool,
    fields: Map<Seq<char>, Seq<char>>,
)
    requires
        !line.contains('\n'),
    ensures
        fields_from(line + seq!['\n'] + rest, 0, was_open, fields) == fields_from(
            rest,
            0,
            open_after(trimmed(line), was_open),
            fields_after(trimmed(line), was_open, fields),
        ),
        fields_from(line, 0, was_open, fields) == fields_after(trimmed(line), was_open, fields),
        desktop_fields(rest) == fields_from(rest, 0, false, Map::empty()),
{
    let before = line + seq!['\n'];
    let text = before + rest;
    lemma_place_of(text, '\n', 0);
    lemma_place_of(line, '\n', 0);
    let a = place_of(text, '\n', 0);
    assert(text[line.len() as int] == '\n');
    if a < line.len() {
        assert(line.contains(line[a]));
    }
    assert(text.subrange(0, a) =~= line);
    let b = place_of(line, '\n', 0);
    if b < line.len() {
        assert(line.contains(line[b]));
    }
    assert(line.subrange(0, b) =~= line);
    lemma_fields_behind(
        before,
        rest,
        0,
        open_after(trimmed(line), was_open),
        fields_after(trimmed(line), was_open, fields),
    );
}

proof fn lemma_words_behind(
    before: Seq<char>,
    rest: Seq<char>,
    at: int,
    word: Seq<char>,
    quoted: bool,
)
    requires
        0 <= at,
    ensures
        words_from(before + rest, before.len() + at, word, quoted) == words_from(
            rest,
            at,
            word,
            quoted,
        ),
    decreases rest.len() - at,
{
    let s = before + rest;
    let n = before.len() as int;
    if at < rest.len() {
        let c = rest[at];
        assert(s[n + at] == c);
        if at + 1 < rest.len() {
            assert(s[n + at + 1] == rest[at + 1]);
            let next = rest[at + 1];
            lemma_words_behind(before, rest, at + 2, word.push(next), quoted);
            lemma_words_behind(before, rest, at + 2, word, quoted);
            lemma_words_behind(before, rest, at + 2, word.push('%').push(next), quoted);
            lemma_words_behind(before, rest, at + 2, word.push('%'), quoted);
        }
        lemma_words_behind(before, rest, at + 1, word, !quoted);
        lemma_words_behind(before, rest, at + 1, word, quoted);
        lemma_words_behind(before, rest, at + 1, word.push('%'), quoted);
        lemma_words_behind(before, rest, at + 1, word.push(c), quoted);
        lemma_words_behind(before, rest, at + 1, Seq::empty(), quoted);
    }
}

/// A word as it is written between quotes: a percent sign twice, and a backslash
/// before each quote and each backslash.
pub open spec fn escaped(word: Seq<char>) -> Seq<char>
    decreases word.len(),
{
    if word.len() == 0 {
        Seq::empty()
    } else {
        let c = word[0];
        (if c == '%' {
            seq!['%', '%']
        } else if c == '"' || c == '\\' {
            seq!['\\', c]
        } else {
            seq![c]
        }) + escaped(word.drop_first())
    }
}

proof fn lemma_escaped_word(before: Seq<char>, word: Seq<char>, rest: Seq<char>, held: Seq<char>)
    ensures
        words_from(before + escaped(word) + rest, before.len() as int, held, true) == words_from(
            before + escaped(word) + rest,
            (before + escaped(word)).len() as int,
            held + word,
            true,
        ),
    decreases word.len(),
{
    let s = before + escaped(word) + rest;
    let n = before.len() as int;
    if word.len() == 0 {
        assert(held + word =~= held);
    } else {
        let c = word[0];
        let tail = word.drop_first();
        let first = if c == '%' {
            seq!['%', '%']
        } else if c == '"' || c == '\\' {
            seq!['\\', c]
        } else {
            seq![c]
        };
        let passed = before + first;
        assert(s =~= passed + escaped(tail) + rest);
        assert(s[n] == first[0]);
        if first.len() == 2 {
            assert(s[n + 1] == first[1]);
        }
        lemma_escaped_word(passed, tail, rest, held.push(c));
        assert(held.push(c) + tail =~= held + word);
        assert((passed + escaped(tail)).len() == (before + escaped(word)).len());
        assert(words_from(s, n, held, true) == words_from(
            s,
            passed.len() as int,
            held.push(c),
            true,
        ));
    }
}

/// Any word at all can be written between quotes, and comes back as it is, with
/// the words of what follows after it.
pub proof fn law_quoted_word_comes_back(word: Seq<char>, rest: Seq<char>)
    requires
        word.len() > 0,
    ensures
        exec_words(seq!['"'] + escaped(word) + seq!['"', ' '] + rest) == seq![word] + exec_words(
            rest,
        ),
{
    let open = seq!['"'];
    let close = seq!['"', ' '] + rest;
    let s = open + escaped(word) + seq!['"', ' '] + rest;
    assert(s =~= open + escaped(word) + close);
    assert(s[0] == '"');
    let empty = Seq::<char>::empty();
    lemma_escaped_word(open, word, close, empty);
    assert(empty + word =~= word);
    let end = (open + escaped(word)).len() as int;
    assert(s[end] == '"');
    assert(s[end + 1] == ' ');
    let passed = open + escaped(word) + seq!['"', ' '];
    lemma_words_behind(passed, rest, 0, empty, false);
    assert(passed.len() == end + 2);
    assert(words_from(s, end, word, true) == words_from(s, end + 1, word, false));
    assert(words_from(s, end + 1, word, false) == seq![word] + words_from(
        s,
        end + 2,
        empty,
        false,
    ));
}

/// Within a command line, a percent sign with the letter of a field code might
/// as well not be there. With any other character, or at the very end, it stays.
pub proof fn law_field_codes_are_dropped(
    before: Seq<char>,
    code: char,
    rest: Seq<char>,
    word: Seq<char>,
    quoted: bool,
)
    ensures
        ({
            let at = before.len() as int;
            let words = words_from(before + seq!['%', code] + rest, at, word, quoted);
            let dropped = seq![
                'f',
                'F',
                'u',
                'U',
                'd',
                'D',
                'n',
                'N',
                'i',
                'c',
                'k',
                'v',
                'm',
            ].contains(code);
            &&& dropped ==> words == words_from(before + rest, at, word, quoted)
            &&& code == '%' ==> words == words_from(before + rest, at, word.push('%'), quoted)
            &&& !dropped && code != '%' ==> words == words_from(
                before + rest,
                at,
                word + seq!['%', code],
                quoted,
            )
            &&& words_from(before + seq!['%'], at, word, quoted) == seq![word.push('%')]
        }),
{
    let at = before.len() as int;
    let s = before + seq!['%', code] + rest;
    let passed = before + seq!['%', code];
    assert(s[at] == '%' && s[at + 1] == code);
    let codes = seq!['f', 'F', 'u', 'U', 'd', 'D', 'n', 'N', 'i', 'c', 'k', 'v', 'm'];
    assert(is_field_code(code) <==> codes.contains(code)) by {
        assert(codes[0] == 'f' && codes[1] == 'F' && codes[2] == 'u' && codes[3] == 'U' && codes[4]
            == 'd' && codes[5] == 'D' && codes[6] == 'n' && codes[7] == 'N' && codes[8] == 'i'
            && codes[9] == 'c' && codes[10] == 'k' && codes[11] == 'v' && codes[12] == 'm');
    }
    assert(word + seq!['%', code] =~= word.push('%').push(code));
    lemma_words_behind(passed, rest, 0, word, quoted);
    lemma_words_behind(before, rest, 0, word, quoted);
    lemma_words_behind(passed, rest, 0, word.push('%'), quoted);
    lemma_words_behind(before, rest, 0, word.push('%'), quoted);
    lemma_words_behind(passed, rest, 0, word.push('%').push(code), quoted);
    lemma_words_behind(before, rest, 0, word.push('%').push(code), quoted);
    let ending = before + seq!['%'];
    assert(ending[at] == '%');
    assert(words_from(ending, at, word, quoted) == words_from(
        ending,
        at + 1,
        word.push('%'),
        quoted,
    ));
}

/// An application with a command line is launched. It is not once it is hidden,
/// or shown on certain desktops only, or is no application, or has no command
/// line; and if it asks for a program, only if that was found. Nothing else
/// matters.
pub proof fn law_what_is_launched(
    fields: Map<Seq<char>, Seq<char>>,
    found: bool,
    name: Seq<char>,
    value: Seq<char>,
)
    ensures
        launches(
            Map::<Seq<char>, Seq<char>>::empty().insert("Type"@, "Application"@).insert(
                "Exec"@,
                value,
            ),
            found,
        ),
        !launches(fields.insert("Hidden"@, "true"@), found),
        value != "true"@ ==> launches(fields.insert("Hidden"@, value), found) == launches(
            fields.remove("Hidden"@),
            found,
        ),
        !launches(fields.insert("OnlyShowIn"@, value), found),
        !launches(fields.remove("Type"@), found),
        value != "Application"@ ==> !launches(fields.insert("Type"@, value), found),
        !launches(fields.remove("Exec"@), found),
        launches(fields.insert("TryExec"@, value), found) == (found && launches(
            fields.remove("TryExec"@),
            found,
        )),
        launches(fields.remove("TryExec"@), found) == launches(fields.remove("TryExec"@), !found),
        name != "Type"@ && name != "Hidden"@ && name != "OnlyShowIn"@ && name != "TryExec"@ && name
            != "Exec"@ ==> launches(fields.insert(name, value), found) == launches(fields, found),
{
    reveal_strlit("Type");
    reveal_strlit("Hidden");
    reveal_strlit("OnlyShowIn");
    reveal_strlit("TryExec");
    reveal_strlit("Exec");
    assert("Type"@[0] == 'T' && "Hidden"@[0] == 'H' && "OnlyShowIn"@[0] == 'O' && "TryExec"@[0]
        == 'T' && "Exec"@[0] == 'E');
    assert("Type"@.len() == 4 && "TryExec"@.len() == 7);
}

/// A desktop entry's file has a name before `.desktop`.
pub proof fn law_names_of_entries(stem: Seq<char>, name: Seq<char>)
    ensures
        ({
            let ending = seq!['.', 'd', 'e', 's', 'k', 't', 'o', 'p'];
            &&& is_entry_name(stem + ending) <==> stem.len() > 0
            &&& is_entry_name(name) ==> name.skip(name.len() - 8) == ending
        }),
{
    reveal_strlit(".desktop");
    let ending = seq!['.', 'd', 'e', 's', 'k', 't', 'o', 'p'];
    assert(".desktop"@ =~= ending);
    let whole = stem + ending;
    assert(whole.skip(whole.len() - 8) =~= ending);
}

/// A program with a slash in its name is looked for there alone, and any other
/// in each directory of the search path in turn.
pub proof fn law_where_a_program_may_be(program: Seq<char>, dirs: Seq<String>, i: int)
    ensures
        program.contains('/') ==> program_places(program, dirs) == seq![program],
        !program.contains('/') ==> {
            &&& program_places(program, dirs).len() == dirs.len()
            &&& 0 <= i < dirs.len() && dirs[i]@.len() > 0 && dirs[i]@.last() != '/'
                ==> program_places(program, dirs)[i] == dirs[i]@ + seq!['/'] + program
        },
{
    lemma_place_of(program, '/', 0);
    let at = place_of(program, '/', 0);
    if at < program.len() {
        assert(program.contains(program[at]));
    }
    if 0 <= i < dirs.len() {
        law_joined_path(dirs[i]@, program);
    }
}

} // verus!
