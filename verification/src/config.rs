//! Where the configuration file is, and single settings out of it.
use vstd::prelude::*;
use vstd::string::*;

use crate::text::{join_path, joined, law_joined_path, str_eq};

verus! {

/// The configuration file's text, and its path for messages.
pub struct ConfigFileContents {
    pub contents: String,
    pub source: String,
}

/// A path below the user's configuration directory: `$XDG_CONFIG_HOME` if it
/// is set and not empty, else `.config` below `$HOME`.
pub open spec fn below_config(
    xdg: Option<String>,
    home: Option<String>,
    below: Seq<char>,
    below_home: Seq<char>,
) -> Option<Seq<char>> {
    if xdg is Some && xdg->0@.len() > 0 {
        Some(joined(xdg->0@, below))
    } else if home is Some {
        Some(joined(home->0@, below_home))
    } else {
        None
    }
}

/// A path below the user's configuration directory, given the values of
/// `$XDG_CONFIG_HOME` and `$HOME`.
pub fn in_config_dir(
    xdg_config_home: &Option<String>,
    home: &Option<String>,
    below: &str,
    below_home: &str,
) -> (r: Option<String>)
    ensures
        r is Some <==> below_config(*xdg_config_home, *home, below@, below_home@) is Some,
        r matches Some(path) ==> below_config(*xdg_config_home, *home, below@, below_home@) == Some(
            path@,
        ),
{
    if let Some(dir) = xdg_config_home {
        if dir.as_str().unicode_len() > 0 {
            return Some(join_path(dir.as_str(), below));
        }
    }
    match home {
        Some(dir) => Some(join_path(dir.as_str(), below_home)),
        None => None,
    }
}

/// The path of the configuration file, given the values of `$XDG_CONFIG_HOME`
/// and `$HOME`; `None` if neither says where it is.
pub fn config_path(xdg_config_home: &Option<String>, home: &Option<String>) -> (r: Option<String>)
    ensures
        r is Some <==> below_config(
            *xdg_config_home,
            *home,
            "mudhuts/config.toml"@,
            ".config/mudhuts/config.toml"@,
        ) is Some,
        r matches Some(path) ==> below_config(
            *xdg_config_home,
            *home,
            "mudhuts/config.toml"@,
            ".config/mudhuts/config.toml"@,
        ) == Some(path@),
{
    in_config_dir(xdg_config_home, home, "mudhuts/config.toml", ".config/mudhuts/config.toml")
}

/// What a TOML document holds at one key of one of its sections.
#[derive(Debug)]
pub enum Setting {
    /// Nothing: the section or the key is missing.
    Missing,
    Bool(bool),
    Text(String),
    /// A value of another type, or one that is no section.
    Other,
}

/// What a [`Setting`] stands for.
pub ghost enum SettingView {
    Missing,
    Bool(bool),
    Text(Seq<char>),
    Other,
}

impl View for Setting {
    type V = SettingView;

    open spec fn view(&self) -> SettingView {
        match self {
            Setting::Missing => SettingView::Missing,
            Setting::Bool(b) => SettingView::Bool(*b),
            Setting::Text(s) => SettingView::Text(s@),
            Setting::Other => SettingView::Other,
        }
    }
}

/// A value of a TOML document.
#[verifier::external_type_specification]
#[verifier::external_body]
pub struct ExTomlValue(toml::Value);

/// What one value of a TOML document is.
#[derive(Debug)]
pub enum Parts {
    Boolean(bool),
    Integer(i64),
    /// A floating-point number, as the bits of its binary64 form.
    Float(u64),
    Text(String),
    /// A date, a time or both, as it is written.
    Datetime(String),
    Array(Vec<toml::Value>),
    Table(Vec<(String, toml::Value)>),
}

/// What [`Parts`] stand for.
pub ghost enum PartsView {
    Boolean(bool),
    Integer(i64),
    Float(u64),
    Text(Seq<char>),
    Datetime(Seq<char>),
    Array(Seq<toml::Value>),
    Table(Seq<(Seq<char>, toml::Value)>),
}

pub open spec fn entry_views(entries: Seq<(String, toml::Value)>) -> Seq<
    (Seq<char>, toml::Value),
> {
    entries.map_values(|e: (String, toml::Value)| (e.0@, e.1))
}

impl View for Parts {
    type V = PartsView;

    open spec fn view(&self) -> PartsView {
        match self {
            Parts::Boolean(b) => PartsView::Boolean(*b),
            Parts::Integer(i) => PartsView::Integer(*i),
            Parts::Float(bits) => PartsView::Float(*bits),
            Parts::Text(s) => PartsView::Text(s@),
            Parts::Datetime(s) => PartsView::Datetime(s@),
            Parts::Array(values) => PartsView::Array(values@),
            Parts::Table(entries) => PartsView::Table(entry_views(entries@)),
        }
    }
}

/// The keys and values at the top of a text, read as TOML; `None` if it is not
/// valid TOML.
pub uninterp spec fn toml_entries(contents: Seq<char>) -> Option<Seq<(Seq<char>, toml::Value)>>;

/// What a value of a TOML document is.
pub uninterp spec fn toml_parts(value: toml::Value) -> PartsView;

/// Parses a text into a `toml::Table`, which is the keys and values at the top
/// of the document. The message of a failure is not stated.
#[verifier::external_body]
fn parse_entries(contents: &str) -> (r: Result<Vec<(String, toml::Value)>, String>)
    ensures
        r is Ok <==> toml_entries(contents@) is Some,
        r matches Ok(entries) ==> toml_entries(contents@) == Some(entry_views(entries@)),
{
    let document: toml::Table = contents.parse().map_err(|e: toml::de::Error| e.to_string())?;
    Ok(document.into_iter().collect())
}

/// Takes a `toml::Value` apart: which of its variants it is, and what it holds.
#[verifier::external_body]
fn take_apart(value: toml::Value) -> (r: Parts)
    ensures
        r@ == toml_parts(value),
{
    match value {
        toml::Value::Boolean(b) => Parts::Boolean(b),
        toml::Value::Integer(i) => Parts::Integer(i),
        toml::Value::Float(f) => Parts::Float(f.to_bits()),
        toml::Value::String(s) => Parts::Text(s),
        toml::Value::Datetime(d) => Parts::Datetime(d.to_string()),
        toml::Value::Array(values) => Parts::Array(values),
        toml::Value::Table(table) => Parts::Table(table.into_iter().collect()),
    }
}

/// The value of a key, if it is there.
pub open spec fn entry_named(entries: Seq<(Seq<char>, toml::Value)>, key: Seq<char>) -> Option<
    toml::Value,
>
    decreases entries.len(),
{
    if entries.len() == 0 {
        None
    } else if entries[0].0 == key {
        Some(entries[0].1)
    } else {
        entry_named(entries.drop_first(), key)
    }
}

/// Takes the value of a key out of these, if it is there.
pub fn take_entry(entries: Vec<(String, toml::Value)>, key: &str) -> (r: Option<toml::Value>)
    ensures
        r == entry_named(entry_views(entries@), key@),
{
    let ghost views = entry_views(entries@);
    let mut list = entries;
    let n: usize = list.len();
    assert(views.skip(0) =~= views);
    for i in 0..n
        invariant
            n == list@.len(),
            views == entry_views(list@),
            views == entry_views(entries@),
            entry_named(views, key@) == entry_named(views.skip(i as int), key@),
    {
        assert(views.skip(i as int)[0] == (list@[i as int].0@, list@[i as int].1));
        assert(views.skip(i as int).drop_first() =~= views.skip(i + 1));
        if str_eq(list[i].0.as_str(), key) {
            let (_, value) = list.remove(i);
            return Some(value);
        }
    }
    None
}

/// A setting, given what its value is.
pub open spec fn setting_of(parts: PartsView) -> SettingView {
    match parts {
        PartsView::Boolean(b) => SettingView::Bool(b),
        PartsView::Text(s) => SettingView::Text(s),
        _ => SettingView::Other,
    }
}

/// What a text holds at a key of a section, read as TOML; `None` if it is not
/// valid TOML.
pub open spec fn toml_setting(
    contents: Seq<char>,
    table: Seq<char>,
    key: Seq<char>,
) -> Option<SettingView> {
    match toml_entries(contents) {
        None => None,
        Some(entries) => Some(
            match entry_named(entries, table) {
                None => SettingView::Missing,
                Some(section) => section_setting(toml_parts(section), key),
            },
        ),
    }
}

/// What a section holds at its one key, given what the section is. A table
/// names the key; an array holds its value first, and what follows is ignored;
/// a date holds no key.
pub open spec fn section_setting(section: PartsView, key: Seq<char>) -> SettingView {
    match section {
        PartsView::Table(inner) => match entry_named(inner, key) {
            None => SettingView::Missing,
            Some(value) => setting_of(toml_parts(value)),
        },
        PartsView::Array(values) => if values.len() == 0 {
            SettingView::Missing
        } else {
            setting_of(toml_parts(values[0]))
        },
        PartsView::Datetime(_) => SettingView::Missing,
        _ => SettingView::Other,
    }
}

/// A setting, given what its value is.
pub fn as_setting(parts: Parts) -> (r: Setting)
    ensures
        r@ == setting_of(parts@),
{
    match parts {
        Parts::Boolean(b) => Setting::Bool(b),
        Parts::Text(s) => Setting::Text(s),
        _ => Setting::Other,
    }
}

/// What a section holds at its one key, given what the section is.
pub fn read_section(section: Parts, key: &str) -> (r: Setting)
    ensures
        r@ == section_setting(section@, key@),
{
    match section {
        Parts::Table(inner) => match take_entry(inner, key) {
            None => Setting::Missing,
            Some(value) => as_setting(take_apart(value)),
        },
        Parts::Array(values) => {
            let mut rest = values;
            if rest.len() == 0 {
                Setting::Missing
            } else {
                as_setting(take_apart(rest.remove(0)))
            }
        },
        Parts::Datetime(_) => Setting::Missing,
        _ => Setting::Other,
    }
}

/// What the document holds at a key of a section. The message of a failure is
/// not stated.
pub fn read_setting(contents: &str, table: &str, key: &str) -> (r: Result<Setting, String>)
    ensures
        r is Ok <==> toml_setting(contents@, table@, key@) is Some,
        r matches Ok(setting) ==> toml_setting(contents@, table@, key@) == Some(setting@),
{
    let entries = match parse_entries(contents) {
        Ok(entries) => entries,
        Err(e) => {
            return Err(e);
        },
    };
    let section = match take_entry(entries, table) {
        None => {
            return Ok(Setting::Missing);
        },
        Some(section) => section,
    };
    Ok(read_section(take_apart(section), key))
}

/// The configuration directory is the one that is set, unless it is not set or
/// empty; then it is below the home directory. Without either there is none.
pub proof fn law_where_the_configuration_is(
    xdg: Option<String>,
    home: Option<String>,
    below: Seq<char>,
    below_home: Seq<char>,
)
    ensures
        ({
            let path = below_config(xdg, home, below, below_home);
            let set = xdg is Some && xdg->0@.len() > 0;
            &&& set && xdg->0@.last() != '/' ==> path == Some(xdg->0@ + seq!['/'] + below)
            &&& set && xdg->0@.last() == '/' ==> path == Some(xdg->0@ + below)
            &&& !set && home is Some && home->0@.len() > 0 && home->0@.last() != '/' ==> path
                == Some(home->0@ + seq!['/'] + below_home)
            &&& !set && home is Some && home->0@.len() > 0 && home->0@.last() == '/' ==> path
                == Some(home->0@ + below_home)
            &&& !set && home is Some && home->0@.len() == 0 ==> path == Some(below_home)
            &&& !set && home is None ==> path is None
        }),
{
    if xdg is Some {
        law_joined_path(xdg->0@, below);
    }
    if home is Some {
        law_joined_path(home->0@, below_home);
    }
}

/// A key has the value of its first entry; without an entry it has none.
pub proof fn law_first_entry_of_a_key_counts(
    entries: Seq<(Seq<char>, toml::Value)>,
    key: Seq<char>,
    i: int,
)
    requires
        0 <= i <= entries.len(),
        forall|k: int| 0 <= k < i ==> (#[trigger] entries[k]).0 != key,
    ensures
        i < entries.len() && entries[i].0 == key ==> entry_named(entries, key) == Some(
            entries[i].1,
        ),
        i == entries.len() ==> entry_named(entries, key) is None,
    decreases i,
{
    if i > 0 {
        assert(entries[0].0 != key);
        let rest = entries.drop_first();
        assert forall|k: int| 0 <= k < i - 1 implies (#[trigger] rest[k]).0 != key by {
            assert(rest[k] == entries[k + 1]);
        }
        law_first_entry_of_a_key_counts(rest, key, i - 1);
    }
}

/// A yes or no and a text are taken as they are; a value of another type is
/// neither.
pub proof fn law_what_a_value_is(value: PartsView)
    ensures
        forall|b: bool| #[trigger]
            setting_of(PartsView::Boolean(b)) == SettingView::Bool(b),
        forall|s: Seq<char>| #[trigger]
            setting_of(PartsView::Text(s)) == SettingView::Text(s),
        !(value is Boolean) && !(value is Text) ==> setting_of(value) == SettingView::Other,
{
}

/// A section that is a table holds what its key names, or nothing; one that is an
/// array holds its first value, or nothing; a date holds nothing. Anything else
/// is no section.
pub proof fn law_what_a_section_holds(
    entries: Seq<(Seq<char>, toml::Value)>,
    values: Seq<toml::Value>,
    text: Seq<char>,
    section: PartsView,
    key: Seq<char>,
    i: int,
)
    ensures
        0 <= i < entries.len() && entries[i].0 == key && (forall|k: int|
            0 <= k < i ==> (#[trigger] entries[k]).0 != key) ==> section_setting(
            PartsView::Table(entries),
            key,
        ) == setting_of(toml_parts(entries[i].1)),
        (forall|k: int| 0 <= k < entries.len() ==> (#[trigger] entries[k]).0 != key)
            ==> section_setting(PartsView::Table(entries), key) == SettingView::Missing,
        values.len() > 0 ==> section_setting(PartsView::Array(values), key) == setting_of(
            toml_parts(values[0]),
        ),
        values.len() == 0 ==> section_setting(PartsView::Array(values), key)
            == SettingView::Missing,
        section_setting(PartsView::Datetime(text), key) == SettingView::Missing,
        !(section is Table) && !(section is Array) && !(section is Datetime) ==> section_setting(
            section,
            key,
        ) == SettingView::Other,
{
    if 0 <= i < entries.len() && forall|k: int| 0 <= k < i ==> (#[trigger] entries[k]).0 != key {
        law_first_entry_of_a_key_counts(entries, key, i);
    }
    if forall|k: int| 0 <= k < entries.len() ==> (#[trigger] entries[k]).0 != key {
        law_first_entry_of_a_key_counts(entries, key, entries.len() as int);
    }
}

/// A setting is looked for in its section alone: a document without the section
/// has it missing, and only one that cannot be read has no answer.
pub proof fn law_where_a_setting_is_looked_for(
    contents: Seq<char>,
    table: Seq<char>,
    key: Seq<char>,
    i: int,
)
    ensures
        toml_setting(contents, table, key) is None <==> toml_entries(contents) is None,
        toml_entries(contents) matches Some(entries) ==> {
            &&& (forall|k: int| 0 <= k < entries.len() ==> (#[trigger] entries[k]).0 != table)
                ==> toml_setting(contents, table, key) == Some(SettingView::Missing)
            &&& 0 <= i < entries.len() && entries[i].0 == table && (forall|k: int|
                0 <= k < i ==> (#[trigger] entries[k]).0 != table) ==> toml_setting(
                contents,
                table,
                key,
            ) == Some(section_setting(toml_parts(entries[i].1), key))
        },
{
    if let Some(entries) = toml_entries(contents) {
        if 0 <= i < entries.len() && forall|k: int|
            0 <= k < i ==> (#[trigger] entries[k]).0 != table {
            law_first_entry_of_a_key_counts(entries, table, i);
        }
        if forall|k: int| 0 <= k < entries.len() ==> (#[trigger] entries[k]).0 != table {
            law_first_entry_of_a_key_counts(entries, table, entries.len() as int);
        }
    }
}

} // verus!
