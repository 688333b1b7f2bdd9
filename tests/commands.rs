use rating_exchange::commands::{slugify_camel, CommandError, ExchangeSlug, TrimmedString};

#[test]
fn exchange_slug_simple() {
    assert!(ExchangeSlug::from_str("SomeTest_1-2").is_ok());
}

#[test]
fn alphabet_caps() {
    assert!(ExchangeSlug::from_str("ABCDEFGHIJKLMNOPQRSTUVWXYZ").is_ok());
}

#[test]
fn alphabet_small() {
    assert!(ExchangeSlug::from_str("abcdefghijklmnopqrstuvwxyz").is_ok());
}

#[test]
fn digits() {
    assert!(ExchangeSlug::from_str("0123456789").is_ok());
}

#[test]
fn space_before_after() {
    assert!(ExchangeSlug::from_str(" AlmostValidButContainsSpaces   ").is_ok());
}

#[test]
fn space_in_middle() {
    assert!(ExchangeSlug::from_str("Almost ValidBut ContainsSpaces").is_err());
}

#[test]
fn special_char() {
    assert!(ExchangeSlug::from_str("Foo!Bar").is_err());
}

#[test]
fn slug_is_trimmed_and_error_is_user_error() {
    let slug = ExchangeSlug::from_str("  jam-1 ").unwrap();
    assert_eq!(slug.as_str(), "jam-1");
    assert_eq!(slug.into_string(), "jam-1".to_string());
    match ExchangeSlug::from_str("a b") {
        Err(CommandError::User { message }) => assert!(message.contains("a b")),
        _ => panic!("expected a user error"),
    }
}

#[test]
fn trimmed() {
    assert_eq!(TrimmedString::from_str("test foo bar").as_str(), "test foo bar");
}

#[test]
fn untrimmed() {
    assert_eq!(
        TrimmedString::from_str("  test foo  \t bar   ").as_str(),
        "test foo  \t bar"
    );
}

#[test]
fn camel_slug_simple() {
    assert_eq!(slugify_camel("JEEZ Game Jam 2023"), "JEEZGameJam2023");
}

#[test]
fn simple_lower() {
    assert_eq!(slugify_camel("JEEZ game jam 2023"), "JEEZGameJam2023");
}

#[test]
fn extra_ascii() {
    assert_eq!(
        slugify_camel("1234.foo#&%$*&barJam*&^*(=="),
        "1234FooBarJam"
    );
}

#[test]
fn extra_non_ascii_translit() {
    assert_eq!(slugify_camel("_-_-_-Тест Jam"), "TestJam");
}

#[test]
fn already_camel() {
    assert_eq!(
        slugify_camel("PerfectlyValidCamelCase1337"),
        "PerfectlyValidCamelCase1337"
    );
}

#[test]
fn camel_slug_of_empty_name() {
    assert_eq!(slugify_camel(""), "");
}

#[test]
fn trimming_removes_unicode_white_space() {
    assert_eq!(TrimmedString::from_str("\u{3000}\u{a0} jam \u{2028}\t").as_str(), "jam");
    assert_eq!(TrimmedString::from_str("\u{200b}jam").as_str(), "\u{200b}jam");
}
