use dracoshell::prompt::{menu_choice, or_default, trimmed, MenuChoice};

#[test]
fn trimmed_cuts_white_space_at_both_ends() {
    assert_eq!(trimmed("  hello world \t\n"), "hello world");
    assert_eq!(trimmed("\u{3000}x\u{a0}"), "x");
    assert_eq!(trimmed(" \t\r\n"), "");
    assert_eq!(trimmed(""), "");
    assert_eq!(trimmed("a"), "a");
}

#[test]
fn blank_answer_takes_the_default() {
    assert_eq!(or_default("\n", "14.0"), "14.0");
    assert_eq!(or_default("   \t \n", "#FF2A2A"), "#FF2A2A");
    assert_eq!(or_default("", "#FF2A2A"), "#FF2A2A");
}

#[test]
fn typed_answer_is_kept_without_surrounding_space() {
    assert_eq!(or_default("  16\n", "14.0"), "16");
    assert_eq!(or_default(" #00ff88 \n", "#FF2A2A"), "#00ff88");
}

#[test]
fn menu_blank_line_cancels() {
    assert_eq!(menu_choice("\n", 5), MenuChoice::Cancel);
    assert_eq!(menu_choice("  \t\n", 5), MenuChoice::Cancel);
    assert_eq!(menu_choice("", 5), MenuChoice::Cancel);
}

#[test]
fn menu_number_in_range_is_picked() {
    assert_eq!(menu_choice("3\n", 5), MenuChoice::Pick(3));
    assert_eq!(menu_choice("  1 ", 5), MenuChoice::Pick(1));
    assert_eq!(menu_choice("5", 5), MenuChoice::Pick(5));
    assert_eq!(menu_choice("+2\n", 5), MenuChoice::Pick(2));
    assert_eq!(menu_choice("0004\n", 5), MenuChoice::Pick(4));
}

#[test]
fn menu_rejects_what_is_not_an_entry() {
    assert_eq!(menu_choice("0\n", 5), MenuChoice::Invalid);
    assert_eq!(menu_choice("6\n", 5), MenuChoice::Invalid);
    assert_eq!(menu_choice("-1\n", 5), MenuChoice::Invalid);
    assert_eq!(menu_choice("two\n", 5), MenuChoice::Invalid);
    assert_eq!(menu_choice("3a\n", 5), MenuChoice::Invalid);
    assert_eq!(menu_choice("+\n", 5), MenuChoice::Invalid);
    assert_eq!(menu_choice("1 2\n", 5), MenuChoice::Invalid);
    assert_eq!(menu_choice("99999999999999999999999999\n", 5), MenuChoice::Invalid);
    assert_eq!(menu_choice("3\n", 0), MenuChoice::Invalid);
}
