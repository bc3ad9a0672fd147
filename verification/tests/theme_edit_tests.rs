use dracoshell::config::{set_theme_text, ThemeEditError};

fn read(text: &str) -> toml::Value {
    text.parse::<toml::Value>().unwrap()
}

const SAMPLE: &str = "# dracoshell configuration\n\n[window]\nwidth = 1200\nheight = 750\n\n[font]\nfamily = \"Hack\"\nsize = 14.0\n\n[colors]\nbackground = \"#1e2127\"\naccent = \"#FF2A2A\"\ncustom_key = 7\n";

#[test]
fn theme_is_set_and_other_keys_kept() {
    let out = set_theme_text(SAMPLE, "dracula").unwrap();
    let doc = read(&out);
    assert_eq!(doc["colors"]["theme"].as_str(), Some("dracula"));
    assert_eq!(doc["colors"]["accent"].as_str(), Some("#FF2A2A"));
    assert_eq!(doc["colors"]["background"].as_str(), Some("#1e2127"));
    assert_eq!(doc["colors"]["custom_key"].as_integer(), Some(7));
    assert_eq!(doc["window"]["width"].as_integer(), Some(1200));
    assert_eq!(doc["window"]["height"].as_integer(), Some(750));
    assert_eq!(doc["font"]["family"].as_str(), Some("Hack"));
    assert_eq!(doc["font"]["size"].as_float(), Some(14.0));
}

#[test]
fn theme_replaces_an_earlier_theme() {
    let out = set_theme_text("[colors]\ntheme = \"one-dark\"\n", "nord").unwrap();
    let doc = read(&out);
    assert_eq!(doc["colors"]["theme"].as_str(), Some("nord"));
    assert_eq!(doc["colors"].as_table().unwrap().len(), 1);
}

#[test]
fn missing_colors_table_is_created() {
    let out = set_theme_text("[window]\nwidth = 800\n", "one-dark").unwrap();
    let doc = read(&out);
    assert_eq!(doc["colors"]["theme"].as_str(), Some("one-dark"));
    assert_eq!(doc["window"]["width"].as_integer(), Some(800));
    assert_eq!(doc.as_table().unwrap().len(), 2);
}

#[test]
fn empty_text_gets_a_colors_table() {
    let out = set_theme_text("", "dracula").unwrap();
    let doc = read(&out);
    assert_eq!(doc["colors"]["theme"].as_str(), Some("dracula"));
}

#[test]
fn text_that_is_not_toml_is_refused() {
    assert_eq!(set_theme_text("[colors\ntheme = ", "x"), Err(ThemeEditError::Parse));
    assert_eq!(set_theme_text("a = 1\na = 2\n", "x"), Err(ThemeEditError::Parse));
}

#[test]
fn colors_that_is_not_a_table_is_refused() {
    assert_eq!(set_theme_text("colors = 3\n", "x"), Err(ThemeEditError::ColorsNotATable));
    assert_eq!(
        set_theme_text("colors = \"red\"\n", "x"),
        Err(ThemeEditError::ColorsNotATable)
    );
}
