use rating_exchange::config::{
    boolean, non_empty_string, optional_settings, required_settings, uint_list, EnvVar,
    SettingKind,
};
use rating_exchange::timestamp::TimestampStyle;

#[test]
fn non_empty_string_values() {
    assert!(non_empty_string("token"));
    assert!(non_empty_string("  token "));
    assert!(!non_empty_string(""));
    assert!(!non_empty_string(" \t "));
}

#[test]
fn boolean_values() {
    assert!(boolean("true"));
    assert!(boolean(" FALSE "));
    assert!(boolean("True"));
    assert!(!boolean("yes"));
    assert!(!boolean(""));
}

#[test]
fn uint_list_values() {
    assert!(uint_list("1"));
    assert!(uint_list("1,2,3"));
    assert!(uint_list(" 12 , 345 ,6"));
    assert!(!uint_list(""));
    assert!(!uint_list("1,,2"));
    assert!(!uint_list("1,2,"));
    assert!(!uint_list("1,a"));
    assert!(!uint_list("-1"));
}

#[test]
fn settings_lists() {
    let required = required_settings();
    assert_eq!(required.len(), 2);
    assert_eq!(required[0].name, "DISCORD_BOT_TOKEN");
    assert_eq!(required[1].name, "DATABASE_URL");
    let optional = optional_settings();
    assert_eq!(optional[0].name, "REGISTER_COMMANDS_GLOBALLY");
    assert_eq!(optional[1].kind, SettingKind::UintList);
    assert!(optional[1].validate("1, 2"));
    assert!(!optional[0].validate("maybe"));
}

#[test]
fn get_bool_reads_flag() {
    let var = EnvVar { name: "FLAG", kind: SettingKind::Boolean };
    assert!(var.get_bool(Some("true"), false));
    assert!(!var.get_bool(Some("TRUE"), true));
    assert!(!var.get_bool(Some("false"), true));
    assert!(var.get_bool(None, true));
    assert!(!var.get_bool(None, false));
}

#[test]
fn timestamp_suffixes() {
    assert_eq!(TimestampStyle::ShortTime.suffix(), "t");
    assert_eq!(TimestampStyle::LongTime.suffix(), "T");
    assert_eq!(TimestampStyle::ShortDate.suffix(), "d");
    assert_eq!(TimestampStyle::LongDate.suffix(), "D");
    assert_eq!(TimestampStyle::ShortDateTime.suffix(), "f");
    assert_eq!(TimestampStyle::LongDateTime.suffix(), "F");
    assert_eq!(TimestampStyle::RelativeTime.suffix(), "R");
}
