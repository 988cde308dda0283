use ip_restriction::filter::{decimal_length, normalize_address, FORBIDDEN_STATUS};
use ip_restriction::registration::{init, is_known_filter, new_http_filter_config_fn};
use ip_restriction::{AddressList, ConfigError, Decision, FilterConfig, RejectReason};

const FORBIDDEN: Decision = Decision::Reject(RejectReason::Forbidden);
const NO_ADDRESS: Decision = Decision::Reject(RejectReason::NoRemoteAddress);

fn allow_list(addresses: &[&str]) -> FilterConfig {
    let list: Vec<String> = addresses.iter().map(|a| format!("\"{a}\"")).collect();
    FilterConfig::new(&format!("{{\"allow_addresses\": [{}]}}", list.join(", "))).unwrap()
}

fn deny_list(addresses: &[&str]) -> FilterConfig {
    let list: Vec<String> = addresses.iter().map(|a| format!("\"{a}\"")).collect();
    FilterConfig::new(&format!("{{\"deny_addresses\": [{}]}}", list.join(", "))).unwrap()
}

#[test]
fn test_filter_denied_because_no_address() {
    let filter_config = FilterConfig::new(
        r#"{
        "deny_addresses": [
          "192.168.1.1"
        ]
      }"#,
    );
    assert!(filter_config.is_some());

    let mut filter = filter_config.unwrap().new_http_filter();

    let decision = filter.on_request_headers(None, None, true);
    let (code, _) = decision.response().unwrap();
    assert!(code == 403);
    assert!(decision.stops_iteration());
    assert_eq!(decision, Decision::Reject(RejectReason::NoRemoteAddress));
}

#[test]
fn test_filter_with_allowed_list() {
    let filter_config = FilterConfig::new(
        r#"{
        "allow_addresses": [
          "127.0.0.1",
          "::1"
        ]
      }"#,
    );
    assert!(filter_config.is_some());

    let mut filter = filter_config.unwrap().new_http_filter();

    let decision = filter.on_request_headers(Some("127.0.0.1:80".as_bytes()), Some(80), true);
    assert_eq!(decision, Decision::Continue);
    assert!(!decision.stops_iteration());
    assert!(decision.response().is_none());

    let decision = filter.on_request_headers(Some("192.168.1.1:80".as_bytes()), Some(80), true);
    let (code, _) = decision.response().unwrap();
    assert!(code == 403);
    assert!(decision.stops_iteration());
}

#[test]
fn test_filter_with_denied_list() {
    let filter_config = FilterConfig::new(
        r#"{
        "deny_addresses": [
          "192.168.1.1"
        ]
      }"#,
    );
    assert!(filter_config.is_some());

    let mut filter = filter_config.unwrap().new_http_filter();

    let decision = filter.on_request_headers(Some("192.168.1.1:80".as_bytes()), Some(80), true);
    let (code, _) = decision.response().unwrap();
    assert!(code == 403);
    assert!(decision.stops_iteration());

    let decision = filter.on_request_headers(Some("127.0.0.1:80".as_bytes()), Some(80), true);
    assert_eq!(decision, Decision::Continue);
    assert!(!decision.stops_iteration());
}

#[test]
fn the_port_is_taken_off_by_count() {
    assert_eq!(normalize_address(b"203.0.113.5:8080", Some(8080)), Some(&b"203.0.113.5"[..]));
    assert_eq!(normalize_address(b"127.0.0.1:80", Some(80)), Some(&b"127.0.0.1"[..]));
    assert_eq!(normalize_address(b"::1:80", Some(80)), Some(&b"::1"[..]));
    assert_eq!(normalize_address(b"[::1]:443", Some(443)), Some(&b"[::1]"[..]));
    assert_eq!(normalize_address(b"10.0.0.1:0", Some(0)), Some(&b"10.0.0.1"[..]));
    // The trailing bytes are counted, not read.
    assert_eq!(normalize_address(b"10.0.0.1xyz", Some(80)), Some(&b"10.0.0.1"[..]));
    assert_eq!(normalize_address(b"10.0.0.1:8080", Some(80)), Some(&b"10.0.0.1:8"[..]));
    assert_eq!(normalize_address(b":80", Some(80)), Some(&b""[..]));
}

#[test]
fn without_a_port_the_address_is_kept_whole() {
    assert_eq!(normalize_address(b"127.0.0.1:80", None), Some(&b"127.0.0.1:80"[..]));
    assert_eq!(normalize_address(b"127.0.0.1", None), Some(&b"127.0.0.1"[..]));
    assert_eq!(normalize_address(b"", None), Some(&b""[..]));
}

#[test]
fn an_address_shorter_than_the_port_has_no_normal_form() {
    assert_eq!(normalize_address(b"80", Some(80)), None);
    assert_eq!(normalize_address(b"", Some(0)), None);
    assert_eq!(normalize_address(b"1", Some(80)), None);
    assert_eq!(normalize_address(b"1:8080", Some(65535)), Some(&b""[..]));
    assert_eq!(normalize_address(b"1:808", Some(65535)), None);
}

#[test]
fn the_decimal_length_counts_digits_and_sign() {
    assert_eq!(decimal_length(0), 1);
    assert_eq!(decimal_length(9), 1);
    assert_eq!(decimal_length(10), 2);
    assert_eq!(decimal_length(80), 2);
    assert_eq!(decimal_length(99), 2);
    assert_eq!(decimal_length(100), 3);
    assert_eq!(decimal_length(443), 3);
    assert_eq!(decimal_length(8080), 4);
    assert_eq!(decimal_length(65535), 5);
    assert_eq!(decimal_length(i64::MAX), 19);
    assert_eq!(decimal_length(-1), 2);
    assert_eq!(decimal_length(-10), 3);
    assert_eq!(decimal_length(i64::MIN), 20);
    for port in [0i64, 7, 10, 99, 100, 12345, 1 << 40, i64::MAX, -1, -99, -100, i64::MIN] {
        assert_eq!(decimal_length(port), port.to_string().len(), "{port}");
    }
}

#[test]
fn a_missing_address_is_refused_whatever_else_is_given() {
    for config in [allow_list(&["127.0.0.1"]), deny_list(&["127.0.0.1"])] {
        for port in [None, Some(0), Some(80), Some(-1)] {
            let decision = config.config().decide(None, port);
            assert_eq!(decision, NO_ADDRESS);
            assert_eq!(
                decision.response(),
                Some((403, "No remote address and request is forbidden."))
            );
        }
    }
}

#[test]
fn a_missing_port_alone_does_not_refuse() {
    let config = allow_list(&["127.0.0.1"]);
    assert_eq!(config.config().decide(Some(b"127.0.0.1"), None), Decision::Continue);
    assert_eq!(config.config().decide(Some(b"127.0.0.1:80"), None), FORBIDDEN);
    let config = deny_list(&["127.0.0.1"]);
    assert_eq!(config.config().decide(Some(b"127.0.0.1"), None), FORBIDDEN);
    assert_eq!(config.config().decide(Some(b"127.0.0.1:80"), None), Decision::Continue);
}

#[test]
fn an_allow_list_lets_only_its_members_pass() {
    let config = allow_list(&["127.0.0.1", "::1"]);
    let table = config.config();
    assert_eq!(table.decide(Some(b"127.0.0.1:80"), Some(80)), Decision::Continue);
    assert_eq!(table.decide(Some(b"::1:8080"), Some(8080)), Decision::Continue);
    assert_eq!(table.decide(Some(b"192.168.1.1:80"), Some(80)), FORBIDDEN);
    assert_eq!(table.decide(Some(b"127.0.0.1:80"), Some(8080)), FORBIDDEN);
    assert_eq!(table.decide(Some(b"0:0:0:0:0:0:0:1:80"), Some(80)), FORBIDDEN);
    assert_eq!(table.decide(Some(b"127.0.0.1"), Some(80)), FORBIDDEN);
    assert_eq!(table.decide(Some(b""), Some(80)), FORBIDDEN);
    assert_eq!(table.decide(Some(b"\xff\xfe127.0.0.1:80"), Some(80)), FORBIDDEN);
    assert_eq!(
        table.decide(Some(b"192.168.1.1:80"), Some(80)).response(),
        Some((FORBIDDEN_STATUS, "Request is forbidden."))
    );
}

#[test]
fn a_deny_list_refuses_only_its_members() {
    let config = deny_list(&["192.168.1.1", "2001:db8::1"]);
    let table = config.config();
    assert_eq!(table.decide(Some(b"192.168.1.1:80"), Some(80)), FORBIDDEN);
    assert_eq!(table.decide(Some(b"2001:db8::1:443"), Some(443)), FORBIDDEN);
    assert_eq!(table.decide(Some(b"127.0.0.1:80"), Some(80)), Decision::Continue);
    assert_eq!(table.decide(Some(b"192.168.1.1:80"), Some(8080)), Decision::Continue);
    assert_eq!(table.decide(Some(b"2001:DB8::1:443"), Some(443)), Decision::Continue);
    assert_eq!(table.decide(Some(b"\xff\xfe:80"), Some(80)), Decision::Continue);
}

#[test]
fn an_address_too_short_for_its_port_is_refused() {
    let config = deny_list(&["192.168.1.1"]);
    assert_eq!(config.config().decide(Some(b"1"), Some(80)), FORBIDDEN);
    assert_eq!(config.config().decide(Some(b""), Some(80)), FORBIDDEN);
    let config = allow_list(&["192.168.1.1"]);
    assert_eq!(config.config().decide(Some(b"80"), Some(80)), FORBIDDEN);
}

#[test]
fn every_filter_of_a_configuration_decides_alike() {
    let mut config = deny_list(&["192.168.1.1"]);
    let mut first = config.new_http_filter();
    let mut second = config.new_http_filter();
    drop(config);
    for end_stream in [true, false] {
        assert_eq!(first.on_request_headers(Some(b"192.168.1.1:80"), Some(80), end_stream), FORBIDDEN);
        assert_eq!(second.on_request_headers(Some(b"192.168.1.1:80"), Some(80), end_stream), FORBIDDEN);
        assert_eq!(first.on_request_headers(Some(b"10.0.0.1:80"), Some(80), end_stream), Decision::Continue);
        assert_eq!(second.on_request_headers(Some(b"10.0.0.1:80"), Some(80), end_stream), Decision::Continue);
    }
}

#[test]
fn the_two_refusals_have_their_own_bodies() {
    assert_eq!(RejectReason::NoRemoteAddress.body(), "No remote address and request is forbidden.");
    assert_eq!(RejectReason::Forbidden.body(), "Request is forbidden.");
    assert_eq!(FORBIDDEN_STATUS, 403);
    assert_eq!(Decision::Continue.response(), None);
}

#[test]
fn the_module_registers_under_its_name() {
    assert!(init());
    assert!(is_known_filter("ip_restriction"));
    assert!(!is_known_filter("ip_restrictions"));
    assert!(!is_known_filter(""));
    assert!(!is_known_filter("header_mutation"));
    assert!(new_http_filter_config_fn("ip_restriction", r#"{"deny_addresses": ["10.0.0.1"]}"#).is_ok());
    assert_eq!(
        new_http_filter_config_fn("ip_restriction", r#"{"deny_addresses": ["10.0.0"]}"#).unwrap_err(),
        ConfigError::InvalidAddress("10.0.0".to_string(), AddressList::Deny)
    );
    assert_eq!(
        new_http_filter_config_fn("ip_restriction", "").unwrap_err(),
        ConfigError::MalformedPayload
    );
}

#[test]
fn taking_the_port_off_undoes_writing_it_on() {
    for address in ["127.0.0.1", "::1", "2001:db8::1", "", "not an address", "10.0.0.1:80"] {
        for port in [0i64, 1, 9, 10, 80, 443, 8080, 65535, 100000, i64::MAX, -1, -8080, i64::MIN] {
            let written = format!("{address}:{port}");
            assert_eq!(
                normalize_address(written.as_bytes(), Some(port)),
                Some(address.as_bytes()),
                "{written}"
            );
        }
    }
}
