use rdap_core::ip::{extract_ip_from_cidr, is_cidr, is_ip_like, normalize_ip};

#[test]
fn test_normalize_standard_ipv4() {
    assert_eq!(normalize_ip("192.168.1.1"), Some("192.168.1.1".to_string()));
    assert_eq!(normalize_ip("8.8.8.8"), Some("8.8.8.8".to_string()));
}

#[test]
fn test_normalize_shorthand_ipv4() {
    assert_eq!(normalize_ip("1.1"), Some("1.0.0.1".to_string()));
    assert_eq!(normalize_ip("1.2.3"), Some("1.2.0.3".to_string()));
    assert_eq!(normalize_ip("1"), Some("0.0.0.1".to_string()));
}

#[test]
fn test_normalize_cidr() {
    assert_eq!(normalize_ip("8.8.8.0/24"), Some("8.8.8.0/24".to_string()));
    assert_eq!(normalize_ip("1.1/16"), Some("1.0.0.1/16".to_string()));
}

#[test]
fn test_normalize_ipv6() {
    assert_eq!(normalize_ip("2001:db8::1"), Some("2001:db8::1".to_string()));
    assert_eq!(normalize_ip("::1"), Some("::1".to_string()));
}

#[test]
fn test_is_ip_like() {
    assert!(is_ip_like("192.168.1.1"));
    assert!(is_ip_like("1.1"));
    assert!(is_ip_like("8.8.8.0/24"));
    assert!(is_ip_like("2001:db8::1"));
    assert!(!is_ip_like("example.com"));
    assert!(!is_ip_like("google"));
}

#[test]
fn test_is_cidr() {
    assert!(is_cidr("8.8.8.0/24"));
    assert!(is_cidr("1.1/16"));
    assert!(is_cidr("2001:db8::/32"));
    assert!(!is_cidr("8.8.8.8"));
    assert!(!is_cidr("example.com"));
}

#[test]
fn test_normalize_integer_form() {
    assert_eq!(normalize_ip("16843009"), Some("1.1.1.1".to_string()));
}

#[test]
fn test_normalize_idempotent() {
    for input in ["1.1", "1.2.3", "1", "192.168.1.1", "16843009", "2001:db8::1", "1.1/16"] {
        let once = normalize_ip(input).unwrap();
        let twice = normalize_ip(&once).unwrap();
        assert_eq!(once, twice);
    }
}

#[test]
fn test_normalize_boundary_255_256() {
    assert_eq!(normalize_ip("255"), Some("0.0.0.255".to_string()));
    assert_eq!(normalize_ip("256"), Some("0.0.1.0".to_string()));
}

#[test]
fn test_normalize_rejects() {
    assert_eq!(normalize_ip("1.2.3.4.5"), None);
    assert_eq!(normalize_ip("256.1.1.1"), None);
    assert_eq!(normalize_ip("abc"), None);
    assert_eq!(normalize_ip("1.1/999"), None);
    assert_eq!(normalize_ip("zzzz::1"), None);
    assert_eq!(normalize_ip(""), None);
}

#[test]
fn test_normalize_trims_whitespace() {
    assert_eq!(normalize_ip("  8.8.8.8  "), Some("8.8.8.8".to_string()));
    // Unicode whitespace is trimmed too, as str::trim does
    assert_eq!(normalize_ip("\u{a0}1.1\u{2003}"), Some("1.0.0.1".to_string()));
}

#[test]
fn test_normalize_prefix_within_family_width() {
    assert_eq!(normalize_ip("1/32"), Some("0.0.0.1/32".to_string()));
    assert_eq!(normalize_ip("1/33"), None);
    assert_eq!(normalize_ip("1.2.3.4/99"), None);
    assert_eq!(normalize_ip("2001:db8::/99"), Some("2001:db8::/99".to_string()));
    assert_eq!(normalize_ip("2001:db8::/129"), None);
}

#[test]
fn test_extract_ip_from_cidr() {
    assert_eq!(extract_ip_from_cidr("8.8.8.0/24"), "8.8.8.0");
    assert_eq!(extract_ip_from_cidr("1.1/16"), "1.0.0.1");
    assert_eq!(extract_ip_from_cidr("8.8.8.8"), "8.8.8.8");
    assert_eq!(extract_ip_from_cidr("nonsense/16"), "nonsense");
}

#[test]
fn test_ipv6_forms() {
    assert_eq!(normalize_ip("::"), Some("::".to_string()));
    assert_eq!(normalize_ip("1:2:3:4:5:6:7:8"), Some("1:2:3:4:5:6:7:8".to_string()));
    assert_eq!(normalize_ip("::ffff:1.2.3.4"), Some("::ffff:1.2.3.4".to_string()));
    assert_eq!(normalize_ip("1:2:3:4:5:6:7::"), Some("1:2:3:4:5:6:7::".to_string()));
    assert_eq!(normalize_ip("1:2:3:4:5:6:7:8::"), None);
    assert_eq!(normalize_ip(":::"), None);
    assert_eq!(normalize_ip(":"), None);
}
