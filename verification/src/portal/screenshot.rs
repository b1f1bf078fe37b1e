//! The screenshot portal: where a screenshot is saved, and how a request for
//! one is answered.
use vstd::prelude::*;
use vstd::string::*;

use crate::portal::capture::CapturedImage;
use crate::text::{
    copied, decimal, join_path, joined, law_decimal_reads_back, law_joined_path, push_decimal,
    push_text,
};

verus! {

/// The codes of a portal's responses.
pub const SUCCESS: u32 = 0;

pub const OTHER_ERROR: u32 = 2;

/// The directory that screenshots are saved in: below `$XDG_CACHE_HOME` if it
/// is set and not empty, else below `$HOME`, else below `/tmp`.
pub open spec fn cache_dir(xdg: Option<String>, home: Option<String>) -> Seq<char> {
    if xdg is Some && xdg->0@.len() > 0 {
        joined(xdg->0@, "mudhuts-portal/screenshots"@)
    } else if home is Some {
        joined(home->0@, ".cache/mudhuts-portal/screenshots"@)
    } else {
        joined("/tmp"@, ".cache/mudhuts-portal/screenshots"@)
    }
}

/// The directory that screenshots are saved in, given the values of
/// `$XDG_CACHE_HOME` and `$HOME`.
pub fn screenshot_dir(xdg_cache_home: &Option<String>, home: &Option<String>) -> (r: String)
    ensures
        r@ == cache_dir(*xdg_cache_home, *home),
{
    if let Some(cache) = xdg_cache_home {
        if cache.as_str().unicode_len() > 0 {
            return join_path(cache.as_str(), "mudhuts-portal/screenshots");
        }
    }
    match home {
        Some(dir) => join_path(dir.as_str(), ".cache/mudhuts-portal/screenshots"),
        None => join_path("/tmp", ".cache/mudhuts-portal/screenshots"),
    }
}

/// The path of a screenshot taken at a time.
pub open spec fn path_at(dir: Seq<char>, nanos: nat) -> Seq<char> {
    joined(dir, "screenshot-"@ + decimal(nanos) + ".png"@)
}

/// The path of a screenshot taken at a time, in nanoseconds.
pub fn screenshot_path(dir: &str, nanos: u128) -> (r: String)
    ensures
        r@ == path_at(dir@, nanos as nat),
{
    let mut name = String::new();
    push_text(&mut name, "screenshot-");
    push_decimal(&mut name, nanos);
    push_text(&mut name, ".png");
    assert(name@ =~= "screenshot-"@ + decimal(nanos as nat) + ".png"@);
    join_path(dir, name.as_str())
}

/// The PNG file of an RGBA image; `None` if it cannot be made.
pub uninterp spec fn png_file(width: u32, height: u32, rgba: Seq<u8>) -> Option<Seq<u8>>;

/// The encoder of png, for eight-bit RGBA: the file of an image. It fails for an
/// image without pixels, or with more or fewer bytes than its size calls for.
/// The message of a failure is not stated.
#[verifier::external_body]
fn encode_rgba(width: u32, height: u32, rgba: &[u8]) -> (r: Result<Vec<u8>, String>)
    requires
        width * height * 4 < usize::MAX,
        width * 4 < usize::MAX,
    ensures
        r is Ok <==> png_file(width, height, rgba@) is Some,
        r matches Ok(file) ==> png_file(width, height, rgba@) == Some(file@),
        width == 0 || height == 0 || rgba@.len() != width * height * 4 ==> r is Err,
{
    let mut file = Vec::new();
    let mut encoder = png::Encoder::new(&mut file, width, height);
    encoder.set_color(png::ColorType::Rgba);
    encoder.set_depth(png::BitDepth::Eight);
    let mut writer = encoder.write_header().map_err(|e| e.to_string())?;
    writer.write_image_data(rgba).map_err(|e| e.to_string())?;
    writer.finish().map_err(|e| e.to_string())?;
    Ok(file)
}

/// The PNG file of a captured frame.
pub fn encode_png(image: &CapturedImage) -> (r: Result<Vec<u8>, String>)
    requires
        image.width * image.height * 4 < usize::MAX,
        image.width * 4 < usize::MAX,
    ensures
        r is Ok <==> png_file(image.width, image.height, image.rgba@) is Some,
        r matches Ok(file) ==> png_file(image.width, image.height, image.rgba@) == Some(file@),
        image.width == 0 || image.height == 0 || image.rgba@.len() != image.width * image.height
            * 4 ==> r is Err,
{
    encode_rgba(image.width, image.height, image.rgba.as_slice())
}

/// How far a request for a screenshot got.
#[derive(Debug)]
pub enum Outcome {
    /// The capture could not be asked for, failed, or was never answered.
    NotCaptured,
    /// The frame could not be saved.
    NotSaved,
    /// The frame was saved at a path.
    Saved(String),
}

/// The answer to a request for a screenshot: a response code, and the address
/// of the saved file if there is one.
pub fn respond(outcome: &Outcome) -> (r: (u32, Option<String>))
    ensures
        match *outcome {
            Outcome::Saved(path) => r.0 == SUCCESS && r.1 is Some && r.1->0@ == "file://"@ + path@,
            _ => r.0 == OTHER_ERROR && r.1 is None,
        },
{
    match outcome {
        Outcome::Saved(path) => {
            let mut uri = copied("file://");
            push_text(&mut uri, path.as_str());
            (SUCCESS, Some(uri))
        },
        _ => (OTHER_ERROR, None),
    }
}

/// Screenshots are kept below the cache directory: the one that is set, unless it
/// is not set or empty, else the one of the home directory, else that of a
/// temporary one.
pub proof fn law_where_screenshots_are_kept(xdg: Option<String>, home: Option<String>)
    ensures
        ({
            let dir = cache_dir(xdg, home);
            let own = seq![
                'm', 'u', 'd', 'h', 'u', 't', 's', '-', 'p', 'o', 'r', 't', 'a', 'l', '/', 's', 'c',
                'r', 'e', 'e', 'n', 's', 'h', 'o', 't', 's',
            ];
            let hidden = seq!['.', 'c', 'a', 'c', 'h', 'e', '/'] + own;
            let set = xdg is Some && xdg->0@.len() > 0;
            &&& set && xdg->0@.last() != '/' ==> dir == xdg->0@ + seq!['/'] + own
            &&& !set && home is Some && home->0@.len() > 0 && home->0@.last() != '/' ==> dir
                == home->0@ + seq!['/'] + hidden
            &&& !set && home is None ==> dir == seq!['/', 't', 'm', 'p', '/'] + hidden
        }),
{
    reveal_strlit("mudhuts-portal/screenshots");
    reveal_strlit(".cache/mudhuts-portal/screenshots");
    reveal_strlit("/tmp");
    let own = seq![
        'm', 'u', 'd', 'h', 'u', 't', 's', '-', 'p', 'o', 'r', 't', 'a', 'l', '/', 's', 'c', 'r',
        'e', 'e', 'n', 's', 'h', 'o', 't', 's',
    ];
    let hidden = seq!['.', 'c', 'a', 'c', 'h', 'e', '/'] + own;
    assert("mudhuts-portal/screenshots"@ =~= own);
    assert(".cache/mudhuts-portal/screenshots"@ =~= hidden);
    assert("/tmp"@ =~= seq!['/', 't', 'm', 'p']);
    if xdg is Some {
        law_joined_path(xdg->0@, own);
    }
    if home is Some {
        law_joined_path(home->0@, hidden);
    }
    law_joined_path("/tmp"@, hidden);
    assert(seq!['/', 't', 'm', 'p'] + seq!['/'] =~= seq!['/', 't', 'm', 'p', '/']);
}

/// A screenshot is named by its time, and two taken at different times are saved
/// at different paths.
pub proof fn law_screenshots_are_kept_apart(dir: Seq<char>, a: nat, b: nat)
    ensures
        ({
            let name = seq!['s', 'c', 'r', 'e', 'e', 'n', 's', 'h', 'o', 't', '-'] + decimal(a)
                + seq!['.', 'p', 'n', 'g'];
            &&& dir.len() > 0 && dir.last() != '/' ==> path_at(dir, a) == dir + seq!['/'] + name
            &&& dir.len() > 0 && dir.last() == '/' ==> path_at(dir, a) == dir + name
        }),
        path_at(dir, a) == path_at(dir, b) ==> a == b,
{
    reveal_strlit("screenshot-");
    reveal_strlit(".png");
    let before = seq!['s', 'c', 'r', 'e', 'e', 'n', 's', 'h', 'o', 't', '-'];
    let behind = seq!['.', 'p', 'n', 'g'];
    assert("screenshot-"@ =~= before);
    assert(".png"@ =~= behind);
    let x = before + decimal(a) + behind;
    let y = before + decimal(b) + behind;
    law_joined_path(dir, x);
    law_joined_path(dir, y);
    if path_at(dir, a) == path_at(dir, b) {
        let p = path_at(dir, a);
        let n = p.len() - x.len();
        assert(x =~= p.skip(n));
        assert(y =~= p.skip(n));
        assert(decimal(a) =~= x.subrange(11, x.len() - 4));
        assert(decimal(b) =~= y.subrange(11, y.len() - 4));
        law_decimal_reads_back(a);
        law_decimal_reads_back(b);
    }
}

} // verus!
