use ip_restriction::json::Json;
use ip_restriction::{AddressList, ConfigError, FilterConfig, RawFilterConfig};

fn strings(items: &[&str]) -> Vec<String> {
    items.iter().map(|s| s.to_string()).collect()
}

fn raw(deny: &[&str], allow: &[&str]) -> RawFilterConfig {
    RawFilterConfig { deny_addresses: strings(deny), allow_addresses: strings(allow) }
}

fn text(s: &str) -> Json {
    Json::Text(s.to_string())
}

fn member(name: &str, value: Json) -> (String, Json) {
    (name.to_string(), value)
}

#[test]
fn test_new_filter_config_both_set() {
    let filter_config = FilterConfig::new(
        r#"{
        "allow_addresses": [
          "127.0.0.1",
          "::1"
        ],
        "deny_addresses": [
          "192.168.1.1"
        ]
      }"#,
    );
    assert!(filter_config.is_none()); // Only one of allow_addresses and deny_addresses should be set.
}

#[test]
fn test_new_filter_config_allowed_set() {
    let filter_config = FilterConfig::new(
        r#"{
        "allow_addresses": [
          "127.0.0.1",
          "::1"
        ]
      }"#,
    );
    assert!(filter_config.is_some());
}

#[test]
fn test_new_filter_config_denied_set() {
    let filter_config = FilterConfig::new(
        r#"{
        "deny_addresses": [
          "192.168.1.1"
        ]
      }"#,
    );
    assert!(filter_config.is_some());
}

#[test]
fn test_new_filter_config_invalid_ip() {
    let filter_config = FilterConfig::new(
        r#"{
        "allow_addresses": [
          "127.0.0.1",
          "invalid_ip"
        ]
      }"#,
    );
    assert!(filter_config.is_none());
}

#[test]
fn both_lists_empty_is_an_exclusivity_violation() {
    assert_eq!(FilterConfig::build("{}").unwrap_err(), ConfigError::ExclusivityViolation);
    assert_eq!(
        FilterConfig::build(r#"{"deny_addresses": [], "allow_addresses": []}"#).unwrap_err(),
        ConfigError::ExclusivityViolation
    );
    assert_eq!(FilterConfig::from_raw(&raw(&[], &[])).unwrap_err(), ConfigError::ExclusivityViolation);
    assert!(FilterConfig::new("{}").is_none());
}

#[test]
fn both_lists_set_is_an_exclusivity_violation() {
    let payload = r#"{"allow_addresses": ["127.0.0.1", "::1"], "deny_addresses": ["192.168.1.1"]}"#;
    assert_eq!(FilterConfig::build(payload).unwrap_err(), ConfigError::ExclusivityViolation);
    assert_eq!(
        FilterConfig::from_raw(&raw(&["192.168.1.1"], &["127.0.0.1"])).unwrap_err(),
        ConfigError::ExclusivityViolation
    );
}

#[test]
fn exclusivity_is_checked_before_the_literals() {
    assert_eq!(
        FilterConfig::from_raw(&raw(&["bad"], &["1.1.1.1"])).unwrap_err(),
        ConfigError::ExclusivityViolation
    );
    assert_eq!(
        FilterConfig::from_raw(&raw(&["bad"], &["worse"])).unwrap_err(),
        ConfigError::ExclusivityViolation
    );
}

#[test]
fn an_invalid_literal_is_named_with_its_list() {
    let payload = r#"{"allow_addresses": ["127.0.0.1", "invalid_ip"]}"#;
    assert_eq!(
        FilterConfig::build(payload).unwrap_err(),
        ConfigError::InvalidAddress("invalid_ip".to_string(), AddressList::Allow)
    );
    assert_eq!(
        FilterConfig::build(r#"{"deny_addresses": ["10.0.0.256"]}"#).unwrap_err(),
        ConfigError::InvalidAddress("10.0.0.256".to_string(), AddressList::Deny)
    );
}

#[test]
fn the_first_invalid_literal_is_the_one_named() {
    assert_eq!(
        FilterConfig::from_raw(&raw(&[], &["1.1.1.1", "first", "::1", "second"])).unwrap_err(),
        ConfigError::InvalidAddress("first".to_string(), AddressList::Allow)
    );
    assert_eq!(
        FilterConfig::from_raw(&raw(&["1.1.1.1/32", ""], &[])).unwrap_err(),
        ConfigError::InvalidAddress("1.1.1.1/32".to_string(), AddressList::Deny)
    );
}

#[test]
fn one_invalid_literal_fails_the_whole_configuration() {
    for at in 0..4 {
        let mut literals = vec!["10.0.0.1", "10.0.0.2", "::1"];
        literals.insert(at, "10.0.0");
        assert_eq!(
            FilterConfig::from_raw(&raw(&literals, &[])).unwrap_err(),
            ConfigError::InvalidAddress("10.0.0".to_string(), AddressList::Deny)
        );
    }
}

#[test]
fn a_payload_that_is_no_document_is_malformed() {
    for payload in ["", "not json", "{", "{\"allow_addresses\": [\"127.0.0.1\"]", "{} trailing"] {
        assert_eq!(FilterConfig::build(payload).unwrap_err(), ConfigError::MalformedPayload, "{payload}");
        assert!(FilterConfig::new(payload).is_none());
    }
}

#[test]
fn a_document_of_another_shape_is_malformed() {
    for payload in [
        "null",
        "true",
        "12",
        "\"127.0.0.1\"",
        r#"{"allow_addresses": "127.0.0.1"}"#,
        r#"{"allow_addresses": null}"#,
        r#"{"allow_addresses": {"127.0.0.1": true}}"#,
        r#"{"allow_addresses": [127]}"#,
        r#"{"allow_addresses": ["127.0.0.1", null]}"#,
        r#"{"allow_addresses": ["127.0.0.1"], "deny_addresses": 0}"#,
        r#"[["127.0.0.1"], [], []]"#,
        r#"["127.0.0.1"]"#,
        r#"[[1]]"#,
    ] {
        assert_eq!(FilterConfig::build(payload).unwrap_err(), ConfigError::MalformedPayload, "{payload}");
    }
}

#[test]
fn members_of_other_names_are_ignored() {
    let payload = r#"{"comment": {"x": [1, 2]}, "deny_addresses": ["::1"], "zone": null}"#;
    assert!(FilterConfig::build(payload).is_ok());
    let parsed = RawFilterConfig::parse(payload).unwrap();
    assert_eq!(parsed.deny_addresses, strings(&["::1"]));
    assert_eq!(parsed.allow_addresses, strings(&[]));
}

#[test]
fn the_lists_may_be_given_by_position() {
    let parsed = RawFilterConfig::parse(r#"[["192.168.1.1"], []]"#).unwrap();
    assert_eq!(parsed.deny_addresses, strings(&["192.168.1.1"]));
    assert_eq!(parsed.allow_addresses, strings(&[]));
    let parsed = RawFilterConfig::parse(r#"[[], ["127.0.0.1", "::1"]]"#).unwrap();
    assert_eq!(parsed.deny_addresses, strings(&[]));
    assert_eq!(parsed.allow_addresses, strings(&["127.0.0.1", "::1"]));
    let parsed = RawFilterConfig::parse(r#"[["10.0.0.1"]]"#).unwrap();
    assert_eq!(parsed.deny_addresses, strings(&["10.0.0.1"]));
    assert_eq!(parsed.allow_addresses, strings(&[]));
    assert_eq!(FilterConfig::build("[]").unwrap_err(), ConfigError::ExclusivityViolation);
    assert!(FilterConfig::build(r#"[["10.0.0.1"]]"#).is_ok());
}

#[test]
fn a_member_given_twice_is_malformed() {
    let document = Json::Object(vec![
        member("deny_addresses", Json::Array(vec![text("10.0.0.1")])),
        member("deny_addresses", Json::Array(vec![])),
    ]);
    assert_eq!(RawFilterConfig::from_json(&document).unwrap_err(), ConfigError::MalformedPayload);
    let document = Json::Object(vec![
        member("other", Json::Null),
        member("other", Json::Null),
        member("allow_addresses", Json::Array(vec![text("10.0.0.1")])),
    ]);
    let parsed = RawFilterConfig::from_json(&document).unwrap();
    assert_eq!(parsed.allow_addresses, strings(&["10.0.0.1"]));
}

#[test]
fn a_document_is_read_member_by_member() {
    let document = Json::Object(vec![
        member("allow_addresses", Json::Array(vec![text("b"), text("a"), text("b")])),
        member("deny_addresses", Json::Array(vec![text("c")])),
    ]);
    let parsed = RawFilterConfig::from_json(&document).unwrap();
    assert_eq!(parsed.allow_addresses, strings(&["b", "a", "b"]));
    assert_eq!(parsed.deny_addresses, strings(&["c"]));
    let document = Json::Object(vec![member("allow_addresses", Json::Array(vec![text("a"), Json::Bool(true)]))]);
    assert_eq!(RawFilterConfig::from_json(&document).unwrap_err(), ConfigError::MalformedPayload);
    assert_eq!(RawFilterConfig::from_json(&Json::Text("a".to_string())).unwrap_err(), ConfigError::MalformedPayload);
    assert_eq!(RawFilterConfig::from_json(&Json::Number("1".to_string())).unwrap_err(), ConfigError::MalformedPayload);
}

#[test]
fn the_table_holds_the_listed_addresses_verbatim() {
    let config = FilterConfig::build(r#"{"allow_addresses": ["::1", "127.0.0.1", "::1"]}"#).unwrap();
    let table = config.config();
    assert!(table.has_allow_list());
    assert!(!table.has_deny_list());
    assert!(table.allows(b"::1"));
    assert!(table.allows(b"127.0.0.1"));
    assert!(!table.allows(b"0:0:0:0:0:0:0:1"));
    assert!(!table.allows(b"127.0.0.2"));
    assert!(!table.denies(b"::1"));

    let config = FilterConfig::from_raw(&raw(&["2001:DB8::1"], &[])).unwrap();
    let table = config.config();
    assert!(table.has_deny_list());
    assert!(!table.has_allow_list());
    assert!(table.denies(b"2001:DB8::1"));
    assert!(!table.denies(b"2001:db8::1"));
    assert!(!table.allows(b"2001:DB8::1"));
}

#[test]
fn building_twice_gives_the_same_table() {
    let payload = r#"{"deny_addresses": ["192.168.1.1", "10.0.0.1"]}"#;
    let first = FilterConfig::build(payload).unwrap();
    let second = FilterConfig::build(payload).unwrap();
    for address in ["192.168.1.1", "10.0.0.1", "10.0.0.2", "", "::1"] {
        assert_eq!(first.config().denies(address.as_bytes()), second.config().denies(address.as_bytes()));
        assert_eq!(first.config().allows(address.as_bytes()), second.config().allows(address.as_bytes()));
    }
    let bad = r#"{"deny_addresses": ["192.168.1.1", "nope"]}"#;
    assert_eq!(FilterConfig::build(bad).unwrap_err(), FilterConfig::build(bad).unwrap_err());
}

#[test]
fn a_shared_configuration_reads_the_same_table() {
    let config = FilterConfig::build(r#"{"deny_addresses": ["192.168.1.1"]}"#).unwrap();
    let shared = config.share();
    let cloned = config.clone();
    drop(config);
    assert!(shared.config().denies(b"192.168.1.1"));
    assert!(cloned.config().denies(b"192.168.1.1"));
    assert!(!shared.config().denies(b"192.168.1.2"));
}
