use set_algebra::int_sets::int_set_from_tokens;
use set_algebra::menu::select_key_type;
use set_algebra::menu::select_source;
use set_algebra::menu::InputSource;
use set_algebra::menu::KeyType;
use set_algebra::parse::first_char;
use set_algebra::parse::normalize_token;
use set_algebra::parse::parse_int;

fn tokens(words: &[&str]) -> Vec<String> {
    words.iter().map(|w| String::from(*w)).collect()
}

#[test]
fn bad_int_tokens_are_dropped() {
    let a = int_set_from_tokens(&tokens(&["3", "x", "-5", "3.5"]));
    assert_eq!(a, vec![-5, 3]);
}

#[test]
fn duplicate_int_tokens_collapse() {
    let a = int_set_from_tokens(&tokens(&["2", "02", "2", "-0", "0"]));
    assert_eq!(a, vec![0, 2]);
}

#[test]
fn parse_int_plain_values() {
    assert_eq!(parse_int("0"), Some(0));
    assert_eq!(parse_int("42"), Some(42));
    assert_eq!(parse_int("-5"), Some(-5));
    assert_eq!(parse_int("+7"), Some(7));
    assert_eq!(parse_int("0003"), Some(3));
    assert_eq!(parse_int("00000000000000000042"), Some(42));
}

#[test]
fn parse_int_range_limits() {
    assert_eq!(parse_int("2147483647"), Some(i32::MAX));
    assert_eq!(parse_int("2147483648"), None);
    assert_eq!(parse_int("-2147483648"), Some(i32::MIN));
    assert_eq!(parse_int("-2147483649"), None);
    assert_eq!(parse_int("99999999999999999999"), None);
}

#[test]
fn parse_int_rejects_malformed_tokens() {
    assert_eq!(parse_int(""), None);
    assert_eq!(parse_int("-"), None);
    assert_eq!(parse_int("+"), None);
    assert_eq!(parse_int("--3"), None);
    assert_eq!(parse_int("3.5"), None);
    assert_eq!(parse_int("x"), None);
    assert_eq!(parse_int("1 2"), None);
    assert_eq!(parse_int("3-"), None);
}

#[test]
fn normalize_token_lowercases() {
    assert_eq!(normalize_token("ABC"), "abc");
    assert_eq!(normalize_token("Apple,"), "apple");
    assert_eq!(normalize_token("apple"), "apple");
    assert_eq!(normalize_token(","), "");
    assert_eq!(normalize_token(""), "");
    assert_eq!(normalize_token("a,,"), "a,");
}

#[test]
fn first_char_takes_the_leading_character() {
    assert_eq!(first_char("ab"), Some('a'));
    assert_eq!(first_char("c"), Some('c'));
    assert_eq!(first_char(""), None);
    assert_eq!(first_char("Zoo"), Some('Z'));
}

#[test]
fn source_menu_tokens() {
    assert_eq!(select_source("0"), InputSource::Exit);
    assert_eq!(select_source("1"), InputSource::Keyboard);
    assert_eq!(select_source("2"), InputSource::File);
    assert_eq!(select_source("3"), InputSource::Invalid);
    assert_eq!(select_source(""), InputSource::Invalid);
    assert_eq!(select_source("10"), InputSource::Invalid);
}

#[test]
fn key_type_menu_tokens() {
    assert_eq!(select_key_type("0"), KeyType::Exit);
    assert_eq!(select_key_type("1"), KeyType::Integer);
    assert_eq!(select_key_type("2"), KeyType::Text);
    assert_eq!(select_key_type("3"), KeyType::Character);
    assert_eq!(select_key_type("4"), KeyType::Invalid);
    assert_eq!(select_key_type("exit"), KeyType::Invalid);
}
