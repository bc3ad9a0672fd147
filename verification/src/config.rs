//! User configuration: window size and colors, with their defaults, and the
//! edit that records a chosen theme in the configuration text.

use vstd::prelude::*;

verus! {

pub struct WindowConfig {
    pub width: u32,
    pub height: u32,
}

impl Default for WindowConfig {
    fn default() -> (c: Self)
        ensures
            c.width == 1200,
            c.height == 750,
    {
        WindowConfig { width: 1200, height: 750 }
    }
}

pub struct ColorsConfig {
    pub background: String,
    pub foreground: String,
    pub unfocused: String,
    pub accent: String,
    /// Built-in theme name. Overrides the individual color fields above when
    /// set to a known theme.
    pub theme: Option<String>,
}

impl Default for ColorsConfig {
    fn default() -> (c: Self)
        ensures
            c.background@ == "#000000"@,
            c.foreground@ == "#E6E6E6"@,
            c.unfocused@ == "#8C8C8C"@,
            c.accent@ == "#FF2A2A"@,
            c.theme matches Some(t) && t@ == "one-dark"@,
    {
        ColorsConfig {
            background: "#000000".to_owned(),
            foreground: "#E6E6E6".to_owned(),
            unfocused: "#8C8C8C".to_owned(),
            accent: "#FF2A2A".to_owned(),
            theme: Some("one-dark".to_owned()),
        }
    }
}

/// The error type of the TOML reader.
#[verifier::external_type_specification]
#[verifier::external_body]
pub struct ExTomlDeError(toml::de::Error);

/// The error type of the TOML printer.
#[verifier::external_type_specification]
#[verifier::external_body]
pub struct ExTomlSerError(toml::ser::Error);

/// A TOML value.
#[verifier::external_type_specification]
#[verifier::external_body]
pub struct ExTomlValue(toml::Value);

/// A TOML table (a map ordered by key).
#[verifier::external_type_specification]
#[verifier::external_body]
#[verifier::reject_recursive_types(K)]
#[verifier::reject_recursive_types(V)]
pub struct ExTomlMap<K, V>(toml::map::Map<K, V>);

/// The document that `str::parse::<toml::Value>` reads from `text`; `None`
/// when the text is not TOML.
pub uninterp spec fn parsed_toml(text: Seq<char>) -> Option<toml::Value>;

/// The entries of a TOML table, by key.
pub uninterp spec fn table_entries(t: toml::Table) -> Map<
    Seq<char>,
    toml::Value,
>;

/// The entries of a value that is a table; `None` for every other value.
pub uninterp spec fn value_entries(v: toml::Value) -> Option<Map<Seq<char>, toml::Value>>;

/// The TOML string value holding `s`.
pub uninterp spec fn string_value(s: Seq<char>) -> toml::Value;

/// The text that `toml::to_string_pretty` prints for `v`; `None` when it
/// reports an error.
pub uninterp spec fn pretty_text(v: toml::Value) -> Option<Seq<char>>;

/// Calls `str::parse::<toml::Value>` (toml's `FromStr`, which reads a whole
/// document). Trusted: the value is the one `parsed_toml` names for the text,
/// and an error comes exactly when it names none.
#[verifier::external_body]
fn parse_toml(text: &str) -> (r: Result<toml::Value, toml::de::Error>)
    ensures
        match r {
            Ok(v) => parsed_toml(text@) == Some(v),
            Err(_) => parsed_toml(text@) is None,
        },
{
    text.parse::<toml::Value>()
}

/// Takes the table out of a `toml::Value::Table`. Trusted: a table comes
/// back exactly when the value is one, with the value's entries; any other
/// value comes back unchanged.
#[verifier::external_body]
fn into_table(v: toml::Value) -> (r: Result<toml::Table, toml::Value>)
    ensures
        match r {
            Ok(t) => value_entries(v) == Some(table_entries(t)),
            Err(w) => w == v && value_entries(v) is None,
        },
{
    match v {
        toml::Value::Table(t) => Ok(t),
        other => Err(other),
    }
}

/// Builds `toml::Value::Table(t)`. Trusted: the value is a table with the
/// entries of `t`.
#[verifier::external_body]
fn table_value(t: toml::Table) -> (v: toml::Value)
    ensures
        value_entries(v) == Some(table_entries(t)),
{
    toml::Value::Table(t)
}

/// Builds `toml::Value::String(s)`. Trusted: the value is the string value
/// `string_value` names for `s`.
#[verifier::external_body]
fn text_value(s: String) -> (v: toml::Value)
    ensures
        v == string_value(s@),
{
    toml::Value::String(s)
}

/// No entries at all.
pub open spec fn no_entries() -> Map<Seq<char>, toml::Value> {
    Map::empty()
}

/// Calls `toml::Table::new` (`toml::map::Map::new`). Trusted: the table is empty.
#[verifier::external_body]
fn new_table() -> (t: toml::Table)
    ensures
        table_entries(t) == no_entries(),
{
    toml::Table::new()
}

/// Calls `toml::map::Map::remove`. Trusted: the entry for `key` is taken
/// out and returned, if there was one; the other entries stay.
#[verifier::external_body]
fn table_remove(t: &mut toml::Table, key: &str) -> (r: Option<
    toml::Value,
>)
    ensures
        table_entries(*final(t)) == table_entries(*old(t)).remove(key@),
        r == (if table_entries(*old(t)).dom().contains(key@) {
            Some(table_entries(*old(t))[key@])
        } else {
            None::<toml::Value>
        }),
{
    t.remove(key)
}

/// Calls `toml::map::Map::insert`. Trusted: `key` maps to `v` afterwards and
/// the other entries stay.
#[verifier::external_body]
fn table_insert(t: &mut toml::Table, key: String, v: toml::Value)
    ensures
        table_entries(*final(t)) == table_entries(*old(t)).insert(key@, v),
{
    t.insert(key, v);
}

/// Calls `toml::to_string_pretty`. Trusted: the text is the one
/// `pretty_text` names for `v`, and an error comes exactly when it names
/// none.
#[verifier::external_body]
fn print_pretty(v: &toml::Value) -> (r: Result<String, toml::ser::Error>)
    ensures
        match r {
            Ok(s) => pretty_text(*v) == Some(s@),
            Err(_) => pretty_text(*v) is None,
        },
{
    toml::to_string_pretty(v)
}

/// Why the theme could not be recorded in the configuration text.
#[derive(Debug, Clone, Copy, PartialEq, Eq, Structural)]
pub enum ThemeEditError {
    /// The text is not TOML.
    Parse,
    /// The document is not a table.
    NotATable,
    /// `colors` holds something other than a table.
    ColorsNotATable,
    /// The edited document could not be printed.
    Serialize,
}

/// The `colors` table of `root`: its entries, or none when `root` has no
/// `colors`.
pub open spec fn colors_of(root: Map<Seq<char>, toml::Value>) -> Map<Seq<char>, toml::Value> {
    if root.dom().contains("colors"@) {
        value_entries(root["colors"@])->Some_0
    } else {
        Map::empty()
    }
}

/// `v` is the document whose root table is `root` with `colors` holding
/// `colors` plus `theme = name`, every other entry unchanged.
pub open spec fn is_themed(
    v: toml::Value,
    root: Map<Seq<char>, toml::Value>,
    colors: Map<Seq<char>, toml::Value>,
    name: Seq<char>,
) -> bool {
    match value_entries(v) {
        Some(m) => {
            &&& m.dom().contains("colors"@)
            &&& m.remove("colors"@) == root.remove("colors"@)
            &&& value_entries(m["colors"@]) == Some(colors.insert("theme"@, string_value(name)))
        },
        None => false,
    }
}

/// What recording the theme `name` in the configuration text `text` gives.
pub open spec fn theme_edit_result(
    text: Seq<char>,
    name: Seq<char>,
    r: Result<String, ThemeEditError>,
) -> bool {
    match parsed_toml(text) {
        None => r == Err::<String, ThemeEditError>(ThemeEditError::Parse),
        Some(doc) => match value_entries(doc) {
            None => r == Err::<String, ThemeEditError>(ThemeEditError::NotATable),
            Some(root) => if root.dom().contains("colors"@) && value_entries(root["colors"@]) is None {
                r == Err::<String, ThemeEditError>(ThemeEditError::ColorsNotATable)
            } else {
                match r {
                    Ok(s) => exists|v: toml::Value|
                        is_themed(v, root, colors_of(root), name) && #[trigger] pretty_text(v)
                            == Some(s@),
                    Err(e) => e == ThemeEditError::Serialize && exists|v: toml::Value|
                        is_themed(v, root, colors_of(root), name) && #[trigger] pretty_text(v)
                            is None,
                }
            },
        },
    }
}

/// Set `colors.theme = name` in the configuration text `content`, keeping
/// every other setting (and keys this program does not know), and creating
/// the `[colors]` table when it is missing. Returns the new text.
pub fn set_theme_text(content: &str, name: &str) -> (r: Result<String, ThemeEditError>)
    ensures
        theme_edit_result(content@, name@, r),
{
    let doc = match parse_toml(content) {
        Ok(v) => v,
        Err(_) => {
            return Err(ThemeEditError::Parse);
        },
    };
    let mut root = match into_table(doc) {
        Ok(t) => t,
        Err(_) => {
            return Err(ThemeEditError::NotATable);
        },
    };
    let ghost root0 = table_entries(root);
    let mut colors = match table_remove(&mut root, "colors") {
        Some(v) => match into_table(v) {
            Ok(t) => t,
            Err(_) => {
                return Err(ThemeEditError::ColorsNotATable);
            },
        },
        None => new_table(),
    };
    let ghost colors0 = table_entries(colors);
    assert(colors0 == colors_of(root0));
    table_insert(&mut colors, String::from_str("theme"), text_value(String::from_str(name)));
    table_insert(&mut root, String::from_str("colors"), table_value(colors));
    let out = table_value(root);
    proof {
        let m = table_entries(root);
        assert(m.remove("colors"@) =~= root0.remove("colors"@));
        assert(is_themed(out, root0, colors0, name@));
    }
    match print_pretty(&out) {
        Ok(s) => Ok(s),
        Err(_) => Err(ThemeEditError::Serialize),
    }
}

} // verus!
