use session_store::ident::{is_valid_identifier, is_valid_table_name, ConfigError, SqlIdentifier,
    TableName};

#[test]
fn loose_rule_accepts_alphanumerics_hyphen_underscore() {
    assert!(is_valid_table_name("tower_sessions"));
    assert!(is_valid_table_name("Sessions-2"));
    assert!(is_valid_table_name("x"));
    assert!(is_valid_table_name("0start"));
}

#[test]
fn loose_rule_rejects_unsafe_names() {
    assert!(!is_valid_table_name(""));
    assert!(!is_valid_table_name("bad name"));
    assert!(!is_valid_table_name("drop;table"));
    assert!(!is_valid_table_name("naïve"));
    assert!(!is_valid_table_name("dollar$"));
    assert!(!is_valid_table_name("dot.ted"));
}

#[test]
fn strict_rule_follows_sql_identifier_shape() {
    assert!(is_valid_identifier("tower_sessions"));
    assert!(is_valid_identifier("_private$1"));
    // letters beyond ASCII are allowed by the strict rule
    assert!(is_valid_identifier("émigré"));
    assert!(is_valid_identifier("таблица"));
    // but the first character must be a letter or underscore
    assert!(!is_valid_identifier("1abc"));
    assert!(!is_valid_identifier("$money"));
    assert!(!is_valid_identifier(""));
    // and hyphens or spaces are out
    assert!(!is_valid_identifier("with-hyphen"));
    assert!(!is_valid_identifier("with space"));
}

#[test]
fn table_name_is_validated_at_configuration_time() {
    let ok = TableName::new("tower_sessions".to_string()).expect("valid name must be accepted");
    assert_eq!(ok.as_str(), "tower_sessions");
    let err = TableName::new("drop table".to_string());
    assert!(matches!(err, Err(ConfigError)));
    assert_eq!(ConfigError.message(), "invalid destination name".to_string());
}

#[test]
fn sql_identifier_is_validated_at_configuration_time() {
    let ok = SqlIdentifier::new("_sessions$1".to_string()).expect("strict-valid name accepted");
    assert_eq!(ok.as_str(), "_sessions$1");
    // the loose rule would allow these, the strict one does not
    assert!(matches!(SqlIdentifier::new("1abc".to_string()), Err(ConfigError)));
    assert!(matches!(SqlIdentifier::new("with-hyphen".to_string()), Err(ConfigError)));
    // and the strict rule allows non-Latin letters the loose one refuses
    let unicode = SqlIdentifier::new("таблица".to_string()).expect("letters beyond ASCII accepted");
    assert_eq!(unicode.as_str(), "таблица");
}
