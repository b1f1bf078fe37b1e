//! The pointer's image: frames out of a cursor theme, and a built-in arrow for
//! when there is no theme.
use vstd::prelude::*;
use vstd::string::*;

use crate::text::{parse_number, read_number};

verus! {

/// One image of a cursor.
#[derive(Debug)]
pub struct CursorImage {
    /// The nominal size.
    pub size: u32,
    pub width: u32,
    pub height: u32,
    pub xhot: u32,
    pub yhot: u32,
    /// How long to show it, in milliseconds.
    pub delay: u32,
    pub pixels_rgba: Vec<u8>,
}

/// The contents of a [`CursorImage`].
pub ghost struct ImageView {
    pub size: int,
    pub width: int,
    pub height: int,
    pub xhot: int,
    pub yhot: int,
    pub delay: int,
    pub pixels_rgba: Seq<u8>,
}

impl View for CursorImage {
    type V = ImageView;

    open spec fn view(&self) -> ImageView {
        ImageView {
            size: self.size as int,
            width: self.width as int,
            height: self.height as int,
            xhot: self.xhot as int,
            yhot: self.yhot as int,
            delay: self.delay as int,
            pixels_rgba: self.pixels_rgba@,
        }
    }
}

/// What a list of images holds.
pub open spec fn image_views(images: Seq<CursorImage>) -> Seq<ImageView> {
    Seq::new(images.len(), |i: int| images[i]@)
}

/// Whether an image has a size that a cursor file allows, its hot spot in it,
/// and four bytes for each of its pixels.
pub open spec fn well_sized(image: ImageView) -> bool {
    &&& 1 <= image.width <= 0x7fff
    &&& 1 <= image.height <= 0x7fff
    &&& 0 <= image.xhot <= image.width
    &&& 0 <= image.yhot <= image.height
    &&& image.pixels_rgba.len() == 4 * image.width * image.height
}

/// The images in a cursor file; `None` if it is not one.
pub uninterp spec fn xcursor_images(data: Seq<u8>) -> Option<Seq<ImageView>>;

/// `parse_xcursor` of xcursor: the images in a cursor file, without their
/// second copy in another byte order. A file is refused if one of its images
/// has no pixels, too many or too few of them, or its hot spot outside.
#[verifier::external_body]
fn parse_images(data: &[u8]) -> (r: Option<Vec<CursorImage>>)
    ensures
        r is Some <==> xcursor_images(data@) is Some,
        r matches Some(images) ==> xcursor_images(data@) == Some(image_views(images@)),
        r matches Some(images) ==> forall|i: int|
            0 <= i < images@.len() ==> well_sized((#[trigger] images@[i])@),
{
    let convert = |i: xcursor::parser::Image| CursorImage {
        size: i.size,
        width: i.width,
        height: i.height,
        xhot: i.xhot,
        yhot: i.yhot,
        delay: i.delay,
        pixels_rgba: i.pixels_rgba,
    };
    xcursor::parser::parse_xcursor(data).map(|images| images.into_iter().map(convert).collect())
}

/// The side of the built-in arrow.
pub const FALLBACK_SIZE: u32 = 24;

/// How far the built-in arrow reaches to the right in row `y`.
pub open spec fn arrow_reach(y: int) -> int {
    if y * 2 / 3 + 2 < 22 {
        y * 2 / 3 + 2
    } else {
        22
    }
}

/// The gray and alpha of the built-in arrow at a pixel: a white body with a
/// black outline on its left, top and right, and nothing outside it.
pub open spec fn arrow_pixel(x: int, y: int) -> (u8, u8) {
    if x > arrow_reach(y) {
        (0, 0)
    } else if x == 0 || y == 0 || x == arrow_reach(y) {
        (0, 255)
    } else {
        (255, 255)
    }
}

/// The bytes of the built-in arrow.
pub open spec fn arrow_bytes() -> Seq<u8> {
    Seq::new(
        2304,
        |i: int|
            {
                let (gray, alpha) = arrow_pixel(i / 4 % 24, i / 4 / 24);
                if i % 4 == 3 {
                    alpha
                } else {
                    gray
                }
            },
    )
}

/// The built-in arrow.
pub open spec fn arrow() -> ImageView {
    ImageView {
        size: 24,
        width: 24,
        height: 24,
        xhot: 0,
        yhot: 0,
        delay: 1,
        pixels_rgba: arrow_bytes(),
    }
}

/// A small arrow, for when no cursor theme can be loaded.
pub fn fallback_image() -> (r: CursorImage)
    ensures
        r@ == arrow(),
{
    let mut pixels: Vec<u8> = Vec::new();
    for p in 0u32..576
        invariant
            pixels@ == arrow_bytes().take(p * 4),
    {
        let x: u32 = p % 24;
        let y: u32 = p / 24;
        let body_width: u32 = if y * 2 / 3 + 2 < FALLBACK_SIZE - 2 {
            y * 2 / 3 + 2
        } else {
            FALLBACK_SIZE - 2
        };
        let gray: u8 = if x > body_width || x == 0 || y == 0 || x == body_width {
            0
        } else {
            255
        };
        let alpha: u8 = if x > body_width {
            0
        } else {
            255
        };
        assert(arrow_pixel(x as int, y as int) == (gray, alpha));
        pixels.push(gray);
        pixels.push(gray);
        pixels.push(gray);
        pixels.push(alpha);
        assert(pixels@ =~= arrow_bytes().take((p + 1) * 4)) by {
            let i = p * 4;
            assert(i / 4 == p && (i + 1) / 4 == p && (i + 2) / 4 == p && (i + 3) / 4 == p);
            assert(arrow_bytes()[i] == gray);
            assert(arrow_bytes()[i + 1] == gray);
            assert(arrow_bytes()[i + 2] == gray);
            assert(arrow_bytes()[i + 3] == alpha);
        }
    }
    assert(pixels@ =~= arrow_bytes());
    CursorImage {
        size: FALLBACK_SIZE,
        width: FALLBACK_SIZE,
        height: FALLBACK_SIZE,
        xhot: 0,
        yhot: 0,
        delay: 1,
        pixels_rgba: pixels,
    }
}

/// A 32-bit word read as a signed number.
pub open spec fn signed(x: u32) -> int {
    if x < 0x8000_0000 {
        x as int
    } else {
        x - 0x1_0000_0000
    }
}

/// How far an image's nominal size is from the wanted one.
pub open spec fn distance(size: u32, image: CursorImage) -> int {
    let d = signed(size) - signed(image.size);
    if d < 0 {
        -d
    } else {
        d
    }
}

/// Whether every distance can be computed in 32 bits.
pub open spec fn sizes_fit(size: u32, images: Seq<CursorImage>) -> bool {
    forall|i: int| 0 <= i < images.len() ==> distance(size, #[trigger] images[i]) <= i32::MAX
}

/// Whether image `i` is the first of those nearest to the wanted size.
pub open spec fn is_nearest(size: u32, images: Seq<CursorImage>, i: int) -> bool {
    &&& 0 <= i < images.len()
    &&& forall|k: int|
        0 <= k < images.len() ==> distance(size, images[i]) <= distance(size, #[trigger] images[k])
    &&& forall|k: int|
        0 <= k < i ==> distance(size, images[i]) < distance(size, #[trigger] images[k])
}

/// The first of the images nearest to the wanted size.
pub open spec fn nearest(size: u32, images: Seq<CursorImage>) -> int {
    choose|i: int| is_nearest(size, images, i)
}

/// Those of the first `n` images that have the dimensions of image `i`.
pub open spec fn alike(images: Seq<CursorImage>, i: int, n: int) -> Seq<int>
    decreases n,
{
    if n <= 0 {
        Seq::empty()
    } else {
        let before = alike(images, i, n - 1);
        let image = images[n - 1];
        if image.width == images[i].width && image.height == images[i].height {
            before.push(n - 1)
        } else {
            before
        }
    }
}

/// The images to show at a size: all that have the dimensions of the nearest
/// one, in order.
pub open spec fn candidates(size: u32, images: Seq<CursorImage>) -> Seq<int> {
    if images.len() == 0 {
        Seq::empty()
    } else {
        alike(images, nearest(size, images), images.len() as int)
    }
}

/// What a list of indices holds.
pub open spec fn index_views(indices: Seq<usize>) -> Seq<int> {
    Seq::new(indices.len(), |i: int| indices[i] as int)
}

fn to_signed(x: u32) -> (r: i64)
    ensures
        r == signed(x),
{
    if x < 0x8000_0000 {
        x as i64
    } else {
        x as i64 - 0x1_0000_0000
    }
}

fn distance_to(size: u32, image: &CursorImage) -> (r: i64)
    ensures
        r == distance(size, *image),
{
    let d: i64 = to_signed(size) - to_signed(image.size);
    if d < 0 {
        -d
    } else {
        d
    }
}

/// The images to show at a size, by their indices: all that have the
/// dimensions of the nearest one.
pub fn nearest_images(size: u32, images: &Vec<CursorImage>) -> (r: Vec<usize>)
    requires
        sizes_fit(size, images@),
    ensures
        index_views(r@) == candidates(size, images@),
{
    let mut out: Vec<usize> = Vec::new();
    assert(index_views(out@) =~= Seq::empty());
    if images.len() == 0 {
        return out;
    }
    let mut best: usize = 0;
    let mut best_distance: i64 = distance_to(size, &images[0]);
    for i in 1..images.len()
        invariant
            best < i,
            i <= images@.len(),
            best_distance == distance(size, images@[best as int]),
            forall|k: int|
                0 <= k < i ==> distance(size, images@[best as int]) <= distance(
                    size,
                    #[trigger] images@[k],
                ),
            forall|k: int|
                0 <= k < best ==> distance(size, images@[best as int]) < distance(
                    size,
                    #[trigger] images@[k],
                ),
    {
        let d: i64 = distance_to(size, &images[i]);
        if d < best_distance {
            best = i;
            best_distance = d;
        }
    }
    proof {
        assert(is_nearest(size, images@, best as int));
        let n = nearest(size, images@);
        assert(is_nearest(size, images@, n));
        if n < best {
            assert(distance(size, images@[best as int]) < distance(size, images@[n]));
        }
        if best < n {
            assert(distance(size, images@[n]) < distance(size, images@[best as int]));
        }
        assert(n == best);
    }
    let width: u32 = images[best].width;
    let height: u32 = images[best].height;
    for i in 0..images.len()
        invariant
            best < images@.len(),
            width == images@[best as int].width,
            height == images@[best as int].height,
            index_views(out@) == alike(images@, best as int, i as int),
    {
        let ghost before = out@;
        if images[i].width == width && images[i].height == height {
            out.push(i);
            assert(index_views(out@) =~= index_views(before).push(i as int));
        }
    }
    out
}

/// How long the first `n` of some images are shown in all.
pub open spec fn shown_for(images: Seq<CursorImage>, shown: Seq<int>, n: int) -> int
    decreases n,
{
    if n <= 0 {
        0
    } else {
        shown_for(images, shown, n - 1) + images[shown[n - 1]].delay
    }
}

/// The place of the image that is shown at a time: the first whose end lies
/// beyond it.
pub open spec fn place_at(images: Seq<CursorImage>, shown: Seq<int>, time: int, from: int) -> int
    decreases shown.len() - from,
{
    if from < 0 || from >= shown.len() || time < shown_for(images, shown, from + 1) {
        from
    } else {
        place_at(images, shown, time, from + 1)
    }
}

/// The image to show at a time: the images take turns, each for its delay,
/// over and over; the first, if none has a delay.
pub open spec fn frame_at(images: Seq<CursorImage>, size: u32, millis: int) -> Option<int> {
    let shown = candidates(size, images);
    let total = shown_for(images, shown, shown.len() as int);
    if shown.len() == 0 {
        None
    } else if total == 0 {
        Some(shown[0])
    } else {
        Some(shown[place_at(images, shown, millis % total, 0)])
    }
}

/// The frame shown after a full round is the same again.
pub proof fn law_frames_repeat(images: Seq<CursorImage>, size: u32, millis: int)
    requires
        0 <= millis,
    ensures
        ({
            let shown = candidates(size, images);
            let total = shown_for(images, shown, shown.len() as int);
            frame_at(images, size, millis + total) == frame_at(images, size, millis)
        }),
{
    let shown = candidates(size, images);
    let total = shown_for(images, shown, shown.len() as int);
    lemma_shown_for_grows(images, shown, 0, shown.len() as int);
    if total > 0 {
        vstd::arithmetic::div_mod::lemma_mod_add_multiples_vanish(millis, total);
        assert(millis + total == total + millis);
    }
}

/// A cursor with an image shows one of its images at every time and every size,
/// and all the images it shows at a size have the same dimensions.
pub proof fn law_some_image_is_shown(images: Seq<CursorImage>, size: u32, millis: int)
    requires
        images.len() > 0,
    ensures
        frame_at(images, size, millis) is Some,
        ({
            let i = frame_at(images, size, millis)->0;
            let n = nearest(size, images);
            &&& 0 <= i < images.len()
            &&& images[i].width == images[n].width
            &&& images[i].height == images[n].height
        }),
{
    let shown = candidates(size, images);
    let n = nearest(size, images);
    lemma_nearest_exists(size, images, images.len() as int);
    lemma_alike_range(images, n, images.len() as int);
    lemma_alike_dimensions(images, n, images.len() as int);
    let total = shown_for(images, shown, shown.len() as int);
    lemma_shown_for_grows(images, shown, 0, shown.len() as int);
    if total > 0 {
        lemma_place_at(images, shown, millis % total, 0);
    }
}

proof fn lemma_alike_dimensions(images: Seq<CursorImage>, i: int, n: int)
    ensures
        forall|k: int|
            0 <= k < alike(images, i, n).len() ==> images[#[trigger] alike(images, i, n)[k]].width
                == images[i].width && images[alike(images, i, n)[k]].height == images[i].height,
    decreases n,
{
    if n > 0 {
        lemma_alike_dimensions(images, i, n - 1);
        let before = alike(images, i, n - 1);
        let all = alike(images, i, n);
        assert forall|k: int| 0 <= k < all.len() implies images[#[trigger] all[k]].width
            == images[i].width && images[all[k]].height == images[i].height by {
            if k < before.len() {
                assert(all[k] == before[k]);
            }
        }
    }
}

/// An image is shown exactly while the time lies in its window.
pub proof fn law_frame_window(images: Seq<CursorImage>, shown: Seq<int>, time: int)
    requires
        0 <= time < shown_for(images, shown, shown.len() as int),
    ensures
        ({
            let p = place_at(images, shown, time, 0);
            &&& 0 <= p < shown.len()
            &&& shown_for(images, shown, p) <= time
            &&& time < shown_for(images, shown, p) + images[shown[p]].delay
        }),
{
    lemma_place_at(images, shown, time, 0);
}

proof fn lemma_place_at(images: Seq<CursorImage>, shown: Seq<int>, time: int, from: int)
    requires
        0 <= from < shown.len(),
        shown_for(images, shown, from) <= time < shown_for(images, shown, shown.len() as int),
    ensures
        ({
            let p = place_at(images, shown, time, from);
            &&& from <= p < shown.len()
            &&& shown_for(images, shown, p) <= time < shown_for(images, shown, p + 1)
        }),
    decreases shown.len() - from,
{
    if time >= shown_for(images, shown, from + 1) {
        lemma_place_at(images, shown, time, from + 1);
    }
}

proof fn lemma_shown_for_grows(images: Seq<CursorImage>, shown: Seq<int>, m: int, n: int)
    requires
        0 <= m <= n,
    ensures
        0 <= shown_for(images, shown, m) <= shown_for(images, shown, n),
    decreases n,
{
    if n > 0 {
        if m < n {
            lemma_shown_for_grows(images, shown, m, n - 1);
        } else {
            lemma_shown_for_grows(images, shown, m - 1, n - 1);
        }
    }
}

proof fn lemma_alike_range(images: Seq<CursorImage>, i: int, n: int)
    requires
        0 <= n <= images.len(),
    ensures
        forall|k: int|
            0 <= k < alike(images, i, n).len() ==> 0 <= #[trigger] alike(images, i, n)[k] < n,
        0 <= i < n ==> alike(images, i, n).len() > 0,
    decreases n,
{
    if n > 0 {
        lemma_alike_range(images, i, n - 1);
        let before = alike(images, i, n - 1);
        assert forall|k: int| 0 <= k < alike(images, i, n).len() implies 0 <= #[trigger] alike(
            images,
            i,
            n,
        )[k] < n by {
            if k < before.len() {
                assert(0 <= before[k] < n - 1);
            }
        }
    }
}

/// The image to show at a time, by its index; `None` if there are no images.
pub fn frame(millis: u32, size: u32, images: &Vec<CursorImage>) -> (r: Option<usize>)
    requires
        sizes_fit(size, images@),
        shown_for(images@, candidates(size, images@), candidates(size, images@).len() as int)
            <= u32::MAX,
    ensures
        match frame_at(images@, size, millis as int) {
            None => r is None,
            Some(i) => r is Some && r->0 == i,
        },
        r is Some <==> images@.len() > 0,
        r matches Some(i) ==> i < images@.len(),
{
    let shown = nearest_images(size, images);
    let ghost cs = candidates(size, images@);
    proof {
        if images@.len() > 0 {
            assert(index_views(shown@).len() == shown@.len());
            lemma_nearest_exists(size, images@, images@.len() as int);
            lemma_alike_range(images@, nearest(size, images@), images@.len() as int);
        }
        assert forall|k: int| 0 <= k < shown@.len() implies (#[trigger] shown@[k])
            < images@.len() && shown@[k] == cs[k] by {
            assert(index_views(shown@)[k] == shown@[k]);
        }
        assert(shown@.len() == cs.len());
    }
    if shown.len() == 0 {
        return None;
    }
    let mut total: u32 = 0;
    for k in 0..shown.len()
        invariant
            shown@.len() == cs.len(),
            forall|k: int|
                0 <= k < shown@.len() ==> (#[trigger] shown@[k]) < images@.len() && shown@[k] == cs[k],
            shown_for(images@, cs, cs.len() as int) <= u32::MAX,
            total == shown_for(images@, cs, k as int),
    {
        proof {
            lemma_shown_for_grows(images@, cs, k + 1, cs.len() as int);
            assert(shown@[k as int] == cs[k as int]);
        }
        total = total + images[shown[k]].delay;
    }
    if total == 0 {
        return Some(shown[0]);
    }
    let time: u32 = millis % total;
    let mut left: u32 = time;
    let mut k: usize = 0;
    while k < shown.len()
        invariant
            shown@.len() == cs.len(),
            cs.len() > 0,
            forall|k: int|
                0 <= k < shown@.len() ==> (#[trigger] shown@[k]) < images@.len() && shown@[k] == cs[k],
            k <= shown@.len(),
            cs == candidates(size, images@),
            total == shown_for(images@, cs, cs.len() as int),
            time == millis as int % total as int,
            total > 0,
            left == time - shown_for(images@, cs, k as int),
            place_at(images@, cs, time as int, k as int) == place_at(images@, cs, time as int, 0),
            images@.len() > 0,
        decreases shown@.len() - k,
    {
        let i: usize = shown[k];
        assert(shown@[k as int] == cs[k as int]);
        let delay: u32 = images[i].delay;
        if left < delay {
            return Some(i);
        }
        left = left - delay;
        k = k + 1;
    }
    proof {
        assert(false);
    }
    None
}

proof fn lemma_nearest_exists(size: u32, images: Seq<CursorImage>, n: int)
    requires
        0 < n <= images.len(),
    ensures
        exists|i: int| is_nearest(size, images.take(n), i),
        n == images.len() ==> is_nearest(size, images, nearest(size, images)),
    decreases n,
{
    let s = images.take(n);
    if n == 1 {
        assert(is_nearest(size, s, 0));
    } else {
        lemma_nearest_exists(size, images, n - 1);
        let t = images.take(n - 1);
        let i = choose|i: int| is_nearest(size, t, i);
        assert forall|k: int| 0 <= k < n - 1 implies #[trigger] t[k] == s[k] by {}
        if distance(size, s[n - 1]) < distance(size, s[i]) {
            assert forall|k: int| 0 <= k < n implies distance(size, s[n - 1]) <= distance(
                size,
                #[trigger] s[k],
            ) by {
                if k < n - 1 {
                    assert(t[k] == s[k]);
                    assert(t[i] == s[i]);
                }
            }
            assert forall|k: int| 0 <= k < n - 1 implies distance(size, s[n - 1]) < distance(
                size,
                #[trigger] s[k],
            ) by {
                assert(t[k] == s[k]);
                assert(t[i] == s[i]);
            }
            assert(is_nearest(size, s, n - 1));
        } else {
            assert forall|k: int| 0 <= k < n implies distance(size, s[i]) <= distance(
                size,
                #[trigger] s[k],
            ) by {
                if k < n - 1 {
                    assert(t[k] == s[k]);
                    assert(t[i] == s[i]);
                }
            }
            assert forall|k: int| 0 <= k < i implies distance(size, s[i]) < distance(
                size,
                #[trigger] s[k],
            ) by {
                assert(t[k] == s[k]);
                assert(t[i] == s[i]);
            }
            assert(is_nearest(size, s, i));
        }
    }
    if n == images.len() {
        assert(s =~= images);
    }
}

/// The size to use where none is asked for.
pub const DEFAULT_SIZE: u32 = 24;

/// The nominal size that `$XCURSOR_SIZE` asks for; the default, if it is not
/// set or not a number.
pub fn cursor_size(variable: &Option<String>) -> (r: u32)
    ensures
        r == match *variable {
            Some(s) => match read_number(s@) {
                Some(n) => n,
                None => DEFAULT_SIZE,
            },
            None => DEFAULT_SIZE,
        },
{
    match variable {
        Some(s) => match parse_number(s.as_str()) {
            Some(n) => n,
            None => DEFAULT_SIZE,
        },
        None => DEFAULT_SIZE,
    }
}

/// Whether a file was read and is a cursor with at least one image.
pub open spec fn is_cursor_file(file: Option<Vec<u8>>) -> bool {
    file is Some && xcursor_images(file->0@) is Some && xcursor_images(file->0@)->0.len() > 0
}

/// The images of the first file that is a cursor, `from` on; the built-in
/// arrow if none is.
pub open spec fn theme_images(files: Seq<Option<Vec<u8>>>, from: int) -> Seq<ImageView>
    decreases files.len() - from,
{
    if from < 0 || from >= files.len() {
        seq![arrow()]
    } else if is_cursor_file(files[from]) {
        xcursor_images(files[from]->0@)->0
    } else {
        theme_images(files, from + 1)
    }
}

/// The images of one cursor shape, and the size they are wanted at.
pub struct Cursor {
    pub icons: Vec<CursorImage>,
    pub size: u32,
}

impl Cursor {
    /// The cursor out of the files that a theme has under the names of its
    /// shape, in the order in which the names are tried.
    pub fn load(files: &Vec<Option<Vec<u8>>>, size: u32) -> (r: Self)
        ensures
            image_views(r.icons@) == theme_images(files@, 0),
            r.icons@.len() > 0,
            forall|i: int| 0 <= i < r.icons@.len() ==> well_sized((#[trigger] r.icons@[i])@),
            r.size == size,
    {
        for i in 0..files.len()
            invariant
                theme_images(files@, i as int) == theme_images(files@, 0),
        {
            if let Some(data) = &files[i] {
                let parsed = parse_images(data.as_slice());
                if let Some(icons) = parsed {
                    if icons.len() > 0 {
                        return Cursor { icons, size };
                    }
                }
            }
        }
        let mut icons: Vec<CursorImage> = Vec::new();
        icons.push(fallback_image());
        assert(image_views(icons@) =~= seq![arrow()]);
        Cursor { icons, size }
    }

    /// The frame to show at a time on an output of a given scale, by its
    /// index.
    pub fn frame(&self, scale: u32, millis: u32) -> (r: Option<usize>)
        requires
            self.size * scale <= u32::MAX,
            sizes_fit((self.size * scale) as u32, self.icons@),
            ({
                let shown = candidates((self.size * scale) as u32, self.icons@);
                shown_for(self.icons@, shown, shown.len() as int) <= u32::MAX
            }),
        ensures
            match frame_at(self.icons@, (self.size * scale) as u32, millis as int) {
                None => r is None,
                Some(i) => r is Some && r->0 == i,
            },
    {
        frame(millis, self.size * scale, &self.icons)
    }

    /// The frame to show at a time on an output of a given scale, by its
    /// index; `None` also if the sizes or delays leave the machine's range.
    pub fn frame_if_fit(&self, scale: u32, millis: u32) -> (r: Option<usize>)
        ensures
            ({
                let size = self.size * scale;
                let shown = candidates(size as u32, self.icons@);
                if size <= u32::MAX && sizes_fit(size as u32, self.icons@) && shown_for(
                    self.icons@,
                    shown,
                    shown.len() as int,
                ) <= u32::MAX {
                    match frame_at(self.icons@, size as u32, millis as int) {
                        None => r is None,
                        Some(i) => r is Some && r->0 == i,
                    }
                } else {
                    r is None
                }
            }),
    {
        assert(0 <= self.size * scale <= 0xffff_ffff * 0xffff_ffff) by (nonlinear_arith)
            requires
                0 <= self.size <= 0xffff_ffff,
                0 <= scale <= 0xffff_ffff,
        ;
        let size: u64 = self.size as u64 * scale as u64;
        if size > 0xffff_ffff {
            return None;
        }
        let size: u32 = size as u32;
        for i in 0..self.icons.len()
            invariant
                size == self.size * scale,
                forall|k: int|
                    0 <= k < i ==> distance(size, #[trigger] self.icons@[k]) <= i32::MAX,
        {
            if distance_to(size, &self.icons[i]) > 0x7fff_ffff {
                assert(!sizes_fit(size, self.icons@)) by {
                    assert(distance(size, self.icons@[i as int]) > i32::MAX);
                }
                return None;
            }
        }
        let shown = nearest_images(size, &self.icons);
        let ghost cs = candidates(size, self.icons@);
        proof {
            assert(index_views(shown@).len() == shown@.len());
            if self.icons@.len() > 0 {
                lemma_nearest_exists(size, self.icons@, self.icons@.len() as int);
                lemma_alike_range(
                    self.icons@,
                    nearest(size, self.icons@),
                    self.icons@.len() as int,
                );
            }
            assert forall|k: int| 0 <= k < shown@.len() implies (#[trigger] shown@[k])
                < self.icons@.len() && shown@[k] == cs[k] by {
                assert(index_views(shown@)[k] == shown@[k]);
            }
        }
        let mut total: u32 = 0;
        for k in 0..shown.len()
            invariant
                size == self.size * scale,
                cs == candidates(size, self.icons@),
                shown@.len() == cs.len(),
                forall|k: int|
                    0 <= k < shown@.len() ==> (#[trigger] shown@[k]) < self.icons@.len()
                        && shown@[k] == cs[k],
                total == shown_for(self.icons@, cs, k as int),
        {
            assert(shown@[k as int] == cs[k as int]);
            let delay: u32 = self.icons[shown[k]].delay;
            proof {
                lemma_shown_for_grows(self.icons@, cs, k + 1, cs.len() as int);
            }
            if delay > 0xffff_ffff - total {
                return None;
            }
            total = total + delay;
        }
        self.frame(scale, millis)
    }
}

/// What the pointer is to look like: hidden, a shape of the theme, or a
/// client's own surface.
#[derive(Debug, Clone, Copy, PartialEq, Eq, Structural)]
pub enum CursorStatus {
    Hidden,
    Named,
    Surface(u64),
}

/// What is drawn for the pointer.
#[derive(Debug, Clone, Copy, PartialEq, Eq, Structural)]
pub enum PointerDraw {
    Nothing,
    /// The theme's current frame.
    Theme,
    Surface(u64),
}

/// The pointer: what it is to look like, and whether a frame of the theme is
/// there to be drawn.
#[derive(Debug, Clone, Copy, PartialEq, Eq, Structural)]
pub struct PointerElement {
    pub has_buffer: bool,
    pub status: CursorStatus,
}

impl Default for PointerElement {
    fn default() -> (r: Self)
        ensures
            r == (PointerElement { has_buffer: false, status: CursorStatus::Named }),
    {
        PointerElement { has_buffer: false, status: CursorStatus::Named }
    }
}

impl PointerElement {
    pub fn set_status(&mut self, status: CursorStatus)
        ensures
            *final(self) == (PointerElement { status, ..*old(self) }),
    {
        self.status = status;
    }

    /// A frame of the theme is there.
    pub fn set_buffer(&mut self)
        ensures
            *final(self) == (PointerElement { has_buffer: true, ..*old(self) }),
    {
        self.has_buffer = true;
    }

    /// What to draw for the pointer.
    pub fn draw(&self) -> (r: PointerDraw)
        ensures
            r == match self.status {
                CursorStatus::Hidden => PointerDraw::Nothing,
                CursorStatus::Named => if self.has_buffer {
                    PointerDraw::Theme
                } else {
                    PointerDraw::Nothing
                },
                CursorStatus::Surface(surface) => PointerDraw::Surface(surface),
            },
    {
        match self.status {
            CursorStatus::Hidden => PointerDraw::Nothing,
            CursorStatus::Named => {
                if self.has_buffer {
                    PointerDraw::Theme
                } else {
                    PointerDraw::Nothing
                }
            },
            CursorStatus::Surface(surface) => PointerDraw::Surface(surface),
        }
    }
}

/// The built-in arrow: row after row it reaches two thirds of a pixel further
/// right, from the third pixel on, and no further than the last but one. Its
/// first column, its first row and the end of each row are black, what they
/// enclose is white, and the rest is clear. Its tip is what points.
pub proof fn law_built_in_arrow(x: int, y: int)
    requires
        0 <= x < 24,
        0 <= y < 24,
    ensures
        ({
            let at = (y * 24 + x) * 4;
            let reach = if 2 * y + 6 < 66 {
                (2 * y + 6) / 3
            } else {
                22
            };
            let p = arrow().pixels_rgba;
            let edge = x == 0 || y == 0 || x == reach;
            &&& p.len() == 24 * 24 * 4
            &&& x > reach ==> p[at] == 0 && p[at + 1] == 0 && p[at + 2] == 0 && p[at + 3] == 0
            &&& x <= reach && edge ==> p[at] == 0 && p[at + 1] == 0 && p[at + 2] == 0 && p[at + 3]
                == 255
            &&& x <= reach && !edge ==> p[at] == 255 && p[at + 1] == 255 && p[at + 2] == 255 && p[at
                + 3] == 255
            &&& arrow().width == 24 && arrow().height == 24 && arrow().size == 24
            &&& arrow().xhot == 0 && arrow().yhot == 0
        }),
{
    let at = (y * 24 + x) * 4;
    assert(at / 4 == y * 24 + x && (at + 1) / 4 == y * 24 + x && (at + 2) / 4 == y * 24 + x && (at
        + 3) / 4 == y * 24 + x);
    assert((y * 24 + x) % 24 == x && (y * 24 + x) / 24 == y);
    assert(at % 4 == 0 && (at + 1) % 4 == 1 && (at + 2) % 4 == 2 && (at + 3) % 4 == 3);
}

/// The image that is taken for a size is none further from it than any other,
/// and the first of those that are as near.
pub proof fn law_nearest_image(size: u32, images: Seq<CursorImage>, k: int)
    requires
        0 <= k < images.len(),
    ensures
        ({
            let n = nearest(size, images);
            &&& 0 <= n < images.len()
            &&& distance(size, images[n]) <= distance(size, images[k])
            &&& k < n ==> distance(size, images[n]) < distance(size, images[k])
        }),
        size <= i32::MAX && images[k].size <= i32::MAX ==> {
            &&& size >= images[k].size ==> distance(size, images[k]) == size - images[k].size
            &&& size <= images[k].size ==> distance(size, images[k]) == images[k].size - size
        },
{
    lemma_nearest_exists(size, images, images.len() as int);
}

proof fn lemma_alike_listed(images: Seq<CursorImage>, i: int, n: int, k: int)
    requires
        0 <= n <= images.len(),
    ensures
        alike(images, i, n).contains(k) <==> 0 <= k < n && images[k].width == images[i].width
            && images[k].height == images[i].height,
        forall|a: int, b: int|
            0 <= a < b < alike(images, i, n).len() ==> #[trigger] alike(images, i, n)[a]
                < #[trigger] alike(images, i, n)[b],
        forall|a: int|
            0 <= a < alike(images, i, n).len() ==> 0 <= #[trigger] alike(images, i, n)[a] < n,
    decreases n,
{
    if n > 0 {
        lemma_alike_listed(images, i, n - 1, k);
        let before = alike(images, i, n - 1);
        let all = alike(images, i, n);
        if before.contains(k) {
            let j = choose|j: int| 0 <= j < before.len() && before[j] == k;
            assert(all[j] == k);
        }
        if all.len() > before.len() {
            assert(all[before.len() as int] == n - 1);
        }
        if all.contains(k) {
            let j = choose|j: int| 0 <= j < all.len() && all[j] == k;
            if j < before.len() {
                assert(before[j] == k);
            }
        }
        assert forall|a: int, b: int| 0 <= a < b < all.len() implies #[trigger] all[a]
            < #[trigger] all[b] by {
            assert(all[a] == before[a]);
            if b < before.len() {
                assert(all[b] == before[b]);
            }
        }
    }
}

/// What is shown at a size is every image with the dimensions of the nearest
/// one, in the order of the file.
pub proof fn law_images_shown_at_a_size(size: u32, images: Seq<CursorImage>, k: int)
    ensures
        ({
            let n = nearest(size, images);
            let shown = candidates(size, images);
            &&& images.len() > 0 ==> (shown.contains(k) <==> 0 <= k < images.len()
                && images[k].width == images[n].width && images[k].height == images[n].height)
            &&& images.len() == 0 ==> shown.len() == 0
            &&& forall|a: int, b: int|
                0 <= a < b < shown.len() ==> #[trigger] shown[a] < #[trigger] shown[b]
        }),
{
    if images.len() > 0 {
        lemma_alike_listed(images, nearest(size, images), images.len() as int, k);
    }
}

/// The images take turns, each for as long as its own delay says, and begin
/// anew when all were shown: at any time that image is shown in whose turn the
/// time lies. Where none has a delay the first one stays.
pub proof fn law_images_take_turns(images: Seq<CursorImage>, size: u32, millis: int)
    requires
        images.len() > 0,
    ensures
        ({
            let shown = candidates(size, images);
            let total = shown_for(images, shown, shown.len() as int);
            &&& shown.len() > 0
            &&& total == 0 ==> frame_at(images, size, millis) == Some(shown[0])
            &&& total > 0 ==> exists|p: int|
                0 <= p < shown.len() && frame_at(images, size, millis) == Some(
                    #[trigger] shown[p],
                ) && shown_for(images, shown, p) <= millis % total && millis % total < shown_for(
                    images,
                    shown,
                    p,
                ) + images[shown[p]].delay
        }),
{
    let shown = candidates(size, images);
    lemma_nearest_exists(size, images, images.len() as int);
    lemma_alike_range(images, nearest(size, images), images.len() as int);
    let total = shown_for(images, shown, shown.len() as int);
    lemma_shown_for_grows(images, shown, 0, shown.len() as int);
    if total > 0 {
        assert(0 <= millis % total < total) by (nonlinear_arith)
            requires
                total > 0,
        ;
        law_frame_window(images, shown, millis % total);
        let p = place_at(images, shown, millis % total, 0);
        assert(frame_at(images, size, millis) == Some(shown[p]));
    }
}

/// Some images are shown for the sum of their delays.
pub proof fn law_delays_add_up(images: Seq<CursorImage>, shown: Seq<int>, n: int)
    requires
        0 <= n < shown.len(),
    ensures
        shown_for(images, shown, 0) == 0,
        shown_for(images, shown, n + 1) == shown_for(images, shown, n) + images[shown[n]].delay,
{
}

/// A theme's cursor is the first of its files that is one and has an image; the
/// built-in arrow where none is.
pub proof fn law_first_cursor_file_counts(files: Seq<Option<Vec<u8>>>, from: int)
    requires
        0 <= from <= files.len(),
    ensures
        (forall|i: int| from <= i < files.len() ==> !is_cursor_file(#[trigger] files[i]))
            ==> theme_images(files, from) == seq![arrow()],
        forall|i: int|
            from <= i < files.len() && is_cursor_file(#[trigger] files[i]) && (forall|k: int|
                from <= k < i ==> !is_cursor_file(#[trigger] files[k])) ==> theme_images(files, from)
                == xcursor_images(files[i]->0@)->0,
    decreases files.len() - from,
{
    if from < files.len() {
        law_first_cursor_file_counts(files, from + 1);
        if is_cursor_file(files[from]) {
        } else {
            assert forall|i: int|
                from <= i < files.len() && is_cursor_file(#[trigger] files[i]) && (forall|k: int|
                    from <= k < i ==> !is_cursor_file(#[trigger] files[k])) implies theme_images(
                files,
                from,
            ) == xcursor_images(files[i]->0@)->0 by {
                assert(from + 1 <= i);
            }
        }
    }
}

/// Sizes are compared as 32-bit words that wrap around: a word stands for the one
/// signed 32-bit number that it is congruent to.
pub proof fn law_sizes_wrap_around(x: u32)
    ensures
        -0x8000_0000 <= signed(x) < 0x8000_0000,
        (x - signed(x)) % 0x1_0000_0000 == 0,
{
}

} // verus!
