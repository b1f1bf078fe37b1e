//! The settings portal: a small table of appearance settings.
use vstd::prelude::*;
use vstd::string::*;

use crate::config::{read_setting, toml_setting, Setting, SettingView};
use crate::text::{begins, chars_of, copied, starts_with, str_eq, string_of};

verus! {

/// The values of the `color-scheme` setting.
pub const NO_PREFERENCE: u32 = 0;

pub const PREFER_DARK: u32 = 1;

pub const PREFER_LIGHT: u32 = 2;

/// The color scheme that a value read for it stands for: dark, unless it says
/// otherwise in words that are known.
pub open spec fn scheme_of(setting: Option<SettingView>) -> u32 {
    match setting {
        Some(SettingView::Text(s)) => if s == "light"@ {
            PREFER_LIGHT
        } else if s == "no-preference"@ {
            NO_PREFERENCE
        } else {
            PREFER_DARK
        },
        _ => PREFER_DARK,
    }
}

/// The color scheme that a value read for it stands for; `None` for a file
/// that could not be read.
pub fn choose_scheme(setting: Option<Setting>) -> (r: u32)
    ensures
        r == scheme_of(
            match setting {
                Some(s) => Some(s@),
                None => None,
            },
        ),
{
    match setting {
        Some(Setting::Text(s)) => {
            if str_eq(s.as_str(), "light") {
                PREFER_LIGHT
            } else if str_eq(s.as_str(), "no-preference") {
                NO_PREFERENCE
            } else {
                PREFER_DARK
            }
        },
        _ => PREFER_DARK,
    }
}

/// The color scheme of a configuration file's `[appearance]` section.
pub fn parse_color_scheme(contents: &str) -> (r: u32)
    ensures
        r == scheme_of(toml_setting(contents@, "appearance"@, "color-scheme"@)),
{
    match read_setting(contents, "appearance", "color-scheme") {
        Ok(setting) => choose_scheme(Some(setting)),
        Err(_) => choose_scheme(None),
    }
}

/// Whether a pattern names a namespace: as it stands, or up to a `*` at its
/// end.
pub open spec fn names(pattern: Seq<char>, namespace: Seq<char>) -> bool {
    if pattern.len() > 0 && pattern.last() == '*' {
        begins(namespace, pattern.drop_last())
    } else {
        pattern == namespace
    }
}

/// Whether a pattern names a namespace. Only one `*`, at the end, stands for
/// anything.
pub fn namespace_matches(pattern: &str, namespace: &str) -> (r: bool)
    ensures
        r == names(pattern@, namespace@),
{
    let mut chars = chars_of(pattern);
    if chars.len() > 0 && chars[chars.len() - 1] == '*' {
        chars.pop();
        assert(chars@ =~= pattern@.drop_last());
        let prefix = string_of(&chars);
        starts_with(namespace, prefix.as_str())
    } else {
        str_eq(pattern, namespace)
    }
}

/// A lone `*` names every namespace, and a pattern without one names itself.
pub proof fn law_star_names_everything(namespace: Seq<char>)
    ensures
        names(seq!['*'], namespace),
        (namespace.len() == 0 || namespace.last() != '*') ==> names(namespace, namespace),
{
    assert(namespace.take(0) =~= seq!['*'].drop_last());
}

/// Why a setting cannot be read.
#[derive(Debug, Clone, Copy, PartialEq, Eq, Structural)]
pub enum ReadError {
    UnknownNamespace,
    UnknownKey,
}

/// The settings backend: the values in its one namespace.
#[derive(Debug, Clone, Copy, PartialEq, Eq, Structural)]
pub struct SettingsBackend {
    pub color_scheme: u32,
    pub contrast: u32,
    pub reduced_motion: u32,
}

/// The value of a key of the appearance namespace.
pub open spec fn appearance(backend: SettingsBackend, key: Seq<char>) -> Option<u32> {
    if key == "color-scheme"@ {
        Some(backend.color_scheme)
    } else if key == "contrast"@ {
        Some(backend.contrast)
    } else if key == "reduced-motion"@ {
        Some(backend.reduced_motion)
    } else {
        None
    }
}

/// One setting, with its namespace and key.
#[derive(Debug)]
pub struct SettingEntry {
    pub namespace: String,
    pub key: String,
    pub value: u32,
}

impl View for SettingEntry {
    type V = (Seq<char>, Seq<char>, u32);

    open spec fn view(&self) -> (Seq<char>, Seq<char>, u32) {
        (self.namespace@, self.key@, self.value)
    }
}

/// What a list of settings holds.
pub open spec fn entry_views(entries: Seq<SettingEntry>) -> Seq<(Seq<char>, Seq<char>, u32)> {
    Seq::new(entries.len(), |i: int| entries[i]@)
}

/// Every setting that there is.
pub open spec fn all_settings(backend: SettingsBackend) -> Seq<(Seq<char>, Seq<char>, u32)> {
    seq![
        ("org.freedesktop.appearance"@, "color-scheme"@, backend.color_scheme),
        ("org.freedesktop.appearance"@, "contrast"@, backend.contrast),
        ("org.freedesktop.appearance"@, "reduced-motion"@, backend.reduced_motion),
    ]
}

/// Whether a request for some namespaces covers the appearance settings: one
/// for none covers all.
pub open spec fn covered(namespaces: Seq<String>) -> bool {
    namespaces.len() == 0 || exists|i: int|
        0 <= i < namespaces.len() && names(
            (#[trigger] namespaces[i])@,
            "org.freedesktop.appearance"@,
        )
}

/// A setting that reading everything lists is the one that reading its key
/// gives, and every key that can be read is listed.
pub proof fn law_listed_settings_are_read(backend: SettingsBackend, key: Seq<char>)
    ensures
        forall|i: int|
            0 <= i < all_settings(backend).len() ==> {
                let e = #[trigger] all_settings(backend)[i];
                appearance(backend, e.1) == Some(e.2)
            },
        appearance(backend, key) is Some ==> exists|i: int|
            0 <= i < all_settings(backend).len() && (#[trigger] all_settings(backend)[i]).1 == key,
{
    reveal_strlit("color-scheme");
    reveal_strlit("contrast");
    reveal_strlit("reduced-motion");
    assert("color-scheme"@[1] == 'o' && "contrast"@[2] == 'n' && "color-scheme"@[2] == 'l');
    assert("reduced-motion"@[0] == 'r' && "color-scheme"@[0] == 'c' && "contrast"@[0] == 'c');
    let all = all_settings(backend);
    assert(all[0].1 == "color-scheme"@);
    assert(all[1].1 == "contrast"@);
    assert(all[2].1 == "reduced-motion"@);
}

impl SettingsBackend {
    /// The backend for a configuration file's text. Contrast and motion are
    /// reported at their defaults.
    pub fn load(contents: &str) -> (r: Self)
        ensures
            r == (SettingsBackend {
                color_scheme: scheme_of(
                    toml_setting(contents@, "appearance"@, "color-scheme"@),
                ),
                contrast: 0,
                reduced_motion: 0,
            }),
    {
        SettingsBackend {
            color_scheme: parse_color_scheme(contents),
            contrast: 0,
            reduced_motion: 0,
        }
    }

    /// The version of the interface.
    pub fn version(&self) -> (r: u32)
        ensures
            r == 1,
    {
        1
    }

    fn covers(&self, namespaces: &Vec<String>) -> (r: bool)
        ensures
            r == covered(namespaces@),
    {
        if namespaces.len() == 0 {
            return true;
        }
        for i in 0..namespaces.len()
            invariant
                forall|k: int|
                    0 <= k < i ==> !names(
                        (#[trigger] namespaces@[k])@,
                        "org.freedesktop.appearance"@,
                    ),
        {
            if namespace_matches(namespaces[i].as_str(), "org.freedesktop.appearance") {
                assert(names(namespaces@[i as int]@, "org.freedesktop.appearance"@));
                return true;
            }
        }
        false
    }

    fn entry(&self, key: &str, value: u32) -> (r: SettingEntry)
        ensures
            r@ == ("org.freedesktop.appearance"@, key@, value),
    {
        SettingEntry {
            namespace: copied("org.freedesktop.appearance"),
            key: copied(key),
            value,
        }
    }

    /// The settings of every namespace that a request covers.
    pub fn read_all(&self, namespaces: &Vec<String>) -> (r: Vec<SettingEntry>)
        ensures
            entry_views(r@) == if covered(namespaces@) {
                all_settings(*self)
            } else {
                Seq::empty()
            },
    {
        let mut out: Vec<SettingEntry> = Vec::new();
        if self.covers(namespaces) {
            out.push(self.entry("color-scheme", self.color_scheme));
            out.push(self.entry("contrast", self.contrast));
            out.push(self.entry("reduced-motion", self.reduced_motion));
            assert(entry_views(out@) =~= all_settings(*self));
        } else {
            assert(entry_views(out@) =~= Seq::empty());
        }
        out
    }

    /// One setting.
    pub fn read(&self, namespace: &str, key: &str) -> (r: Result<u32, ReadError>)
        ensures
            r == if namespace@ != "org.freedesktop.appearance"@ {
                Err(ReadError::UnknownNamespace)
            } else {
                match appearance(*self, key@) {
                    Some(value) => Ok(value),
                    None => Err(ReadError::UnknownKey),
                }
            },
    {
        if !str_eq(namespace, "org.freedesktop.appearance") {
            return Err(ReadError::UnknownNamespace);
        }
        if str_eq(key, "color-scheme") {
            Ok(self.color_scheme)
        } else if str_eq(key, "contrast") {
            Ok(self.contrast)
        } else if str_eq(key, "reduced-motion") {
            Ok(self.reduced_motion)
        } else {
            Err(ReadError::UnknownKey)
        }
    }
}

/// The color scheme is dark, unless the setting is the text that asks for a light
/// one or for none.
pub proof fn law_which_color_scheme(s: Seq<char>, setting: Option<SettingView>)
    ensures
        ({
            let light = seq!['l', 'i', 'g', 'h', 't'];
            let none = seq![
                'n', 'o', '-', 'p', 'r', 'e', 'f', 'e', 'r', 'e', 'n', 'c', 'e',
            ];
            &&& scheme_of(Some(SettingView::Text(light))) == 2
            &&& scheme_of(Some(SettingView::Text(none))) == 0
            &&& s != light && s != none ==> scheme_of(Some(SettingView::Text(s))) == 1
            &&& setting is None || !(setting->0 is Text) ==> scheme_of(setting) == 1
        }),
{
    reveal_strlit("light");
    reveal_strlit("no-preference");
    let light = seq!['l', 'i', 'g', 'h', 't'];
    let none = seq!['n', 'o', '-', 'p', 'r', 'e', 'f', 'e', 'r', 'e', 'n', 'c', 'e'];
    assert("light"@ =~= light);
    assert("no-preference"@ =~= none);
    assert(light[0] == 'l' && none[0] == 'n');
}

/// A pattern that ends in a star names every namespace that begins with the rest
/// of it, and no other; any other pattern names itself alone.
pub proof fn law_what_a_pattern_names(
    pattern: Seq<char>,
    rest: Seq<char>,
    namespace: Seq<char>,
)
    ensures
        names(pattern.push('*'), pattern + rest),
        names(pattern.push('*'), namespace) ==> namespace.len() >= pattern.len() && namespace.take(
            pattern.len() as int,
        ) == pattern,
        pattern.len() == 0 || pattern.last() != '*' ==> (names(pattern, namespace) <==> pattern
            == namespace),
{
    assert(pattern.push('*').drop_last() =~= pattern);
    assert((pattern + rest).take(pattern.len() as int) =~= pattern);
}

/// Of the appearance namespace, the color scheme, the contrast and the reduction
/// of motion can be read, each by its own key, and nothing else.
pub proof fn law_what_can_be_read(backend: SettingsBackend, key: Seq<char>)
    ensures
        ({
            let scheme = seq!['c', 'o', 'l', 'o', 'r', '-', 's', 'c', 'h', 'e', 'm', 'e'];
            let contrast = seq!['c', 'o', 'n', 't', 'r', 'a', 's', 't'];
            let motion = seq![
                'r', 'e', 'd', 'u', 'c', 'e', 'd', '-', 'm', 'o', 't', 'i', 'o', 'n',
            ];
            &&& appearance(backend, scheme) == Some(backend.color_scheme)
            &&& appearance(backend, contrast) == Some(backend.contrast)
            &&& appearance(backend, motion) == Some(backend.reduced_motion)
            &&& key != scheme && key != contrast && key != motion ==> appearance(backend, key)
                is None
        }),
{
    reveal_strlit("color-scheme");
    reveal_strlit("contrast");
    reveal_strlit("reduced-motion");
    let scheme = seq!['c', 'o', 'l', 'o', 'r', '-', 's', 'c', 'h', 'e', 'm', 'e'];
    let contrast = seq!['c', 'o', 'n', 't', 'r', 'a', 's', 't'];
    let motion = seq!['r', 'e', 'd', 'u', 'c', 'e', 'd', '-', 'm', 'o', 't', 'i', 'o', 'n'];
    assert("color-scheme"@ =~= scheme);
    assert("contrast"@ =~= contrast);
    assert("reduced-motion"@ =~= motion);
    assert(scheme.len() == 12 && contrast.len() == 8 && motion.len() == 14);
}

/// All settings are of the appearance namespace, and each key is listed once.
pub proof fn law_settings_are_listed_once(backend: SettingsBackend, i: int, j: int)
    requires
        0 <= i < all_settings(backend).len(),
        0 <= j < all_settings(backend).len(),
    ensures
        all_settings(backend).len() == 3,
        all_settings(backend)[i].0 == seq![
            'o', 'r', 'g', '.', 'f', 'r', 'e', 'e', 'd', 'e', 's', 'k', 't', 'o', 'p', '.', 'a', 'p',
            'p', 'e', 'a', 'r', 'a', 'n', 'c', 'e',
        ],
        all_settings(backend)[i].1 == all_settings(backend)[j].1 ==> i == j,
{
    reveal_strlit("org.freedesktop.appearance");
    reveal_strlit("color-scheme");
    reveal_strlit("contrast");
    reveal_strlit("reduced-motion");
    assert("org.freedesktop.appearance"@ =~= seq![
        'o', 'r', 'g', '.', 'f', 'r', 'e', 'e', 'd', 'e', 's', 'k', 't', 'o', 'p', '.', 'a', 'p',
        'p', 'e', 'a', 'r', 'a', 'n', 'c', 'e',
    ]);
    assert("color-scheme"@.len() == 12 && "contrast"@.len() == 8 && "reduced-motion"@.len() == 14);
}

/// A request for no namespace in particular covers everything. Any other covers
/// the appearance settings exactly if one of its patterns names them.
pub proof fn law_what_a_request_covers(namespaces: Seq<String>, more: String)
    ensures
        ({
            let own = seq![
                'o', 'r', 'g', '.', 'f', 'r', 'e', 'e', 'd', 'e', 's', 'k', 't', 'o', 'p', '.', 'a',
                'p', 'p', 'e', 'a', 'r', 'a', 'n', 'c', 'e',
            ];
            &&& covered(Seq::empty())
            &&& covered(seq![more]) == names(more@, own)
            &&& namespaces.len() > 0 ==> covered(namespaces.push(more)) == (covered(namespaces)
                || names(more@, own))
        }),
{
    reveal_strlit("org.freedesktop.appearance");
    let own = seq![
        'o', 'r', 'g', '.', 'f', 'r', 'e', 'e', 'd', 'e', 's', 'k', 't', 'o', 'p', '.', 'a', 'p',
        'p', 'e', 'a', 'r', 'a', 'n', 'c', 'e',
    ];
    assert("org.freedesktop.appearance"@ =~= own);
    assert(seq![more][0] == more);
    let all = namespaces.push(more);
    assert(all[namespaces.len() as int] == more);
    if covered(namespaces) && namespaces.len() > 0 {
        let i = choose|i: int|
            0 <= i < namespaces.len() && names((#[trigger] namespaces[i])@, own);
        assert(all[i] == namespaces[i]);
    }
    if covered(all) {
        let i = choose|i: int| 0 <= i < all.len() && names((#[trigger] all[i])@, own);
        if i < namespaces.len() {
            assert(namespaces[i] == all[i]);
        }
    }
}

} // verus!
