use rdap_core::ip::normalize_ip;
use rdap_core::resolver::{
    asn_value, classify, domain_labels, ipv4_value, CidrBlock, MatchKey, Query, Registry,
    RegistryEntry, RegistryKind, ResolveError,
};

fn v4(a: u8, b: u8, c: u8, d: u8) -> u128 {
    ((a as u128) << 24) | ((b as u128) << 16) | ((c as u128) << 8) | (d as u128)
}

fn cidr_entry(base: u128, prefix: u8, url: &str) -> RegistryEntry {
    RegistryEntry {
        keys: vec![MatchKey::Cidr(CidrBlock { v6: false, base, prefix })],
        urls: vec![url.to_string()],
    }
}

#[test]
fn test_longest_prefix_wins() {
    let reg = Registry {
        entries: vec![
            cidr_entry(v4(10, 0, 0, 0), 8, "https://a.example/"),
            cidr_entry(v4(10, 1, 0, 0), 16, "https://b.example/"),
        ],
    };
    let r = reg.resolve(&Query::Ip(false, v4(10, 1, 2, 3))).unwrap();
    assert_eq!(r[0], "https://b.example/");
    let r2 = reg.resolve(&Query::Ip(false, v4(10, 2, 2, 3))).unwrap();
    assert_eq!(r2[0], "https://a.example/");
}

#[test]
fn test_no_authority_found() {
    let reg = Registry {
        entries: vec![cidr_entry(v4(10, 0, 0, 0), 8, "https://a.example/")],
    };
    let r = reg.resolve(&Query::Ip(false, v4(192, 168, 1, 1)));
    assert!(matches!(r, Err(ResolveError::NoAuthorityFound)));
}

#[test]
fn test_tie_broken_by_declaration_order() {
    let reg = Registry {
        entries: vec![
            cidr_entry(v4(10, 0, 0, 0), 8, "https://first.example/"),
            cidr_entry(v4(10, 0, 0, 0), 8, "https://second.example/"),
        ],
    };
    let r = reg.resolve(&Query::Ip(false, v4(10, 9, 9, 9))).unwrap();
    assert_eq!(r[0], "https://first.example/");
}

#[test]
fn test_domain_suffix_longest_match() {
    let e1 = RegistryEntry {
        keys: vec![MatchKey::DomainSuffix(vec!["com".to_string()])],
        urls: vec!["https://com.example/".to_string()],
    };
    let e2 = RegistryEntry {
        keys: vec![MatchKey::DomainSuffix(vec!["example".to_string(), "com".to_string()])],
        urls: vec!["https://sub.example/".to_string()],
    };
    let reg = Registry { entries: vec![e1, e2] };
    let q = Query::Domain(vec!["www".to_string(), "example".to_string(), "com".to_string()]);
    assert_eq!(reg.resolve(&q).unwrap()[0], "https://sub.example/");
    // a label-boundary match: "notcom" must not match suffix "com"
    let q2 = Query::Domain(vec!["notcom".to_string()]);
    assert!(reg.resolve(&q2).is_err());
}

#[test]
fn test_asn_narrowest_range_wins() {
    let e1 = RegistryEntry {
        keys: vec![MatchKey::AsnRange(1000, 2000)],
        urls: vec!["https://wide.example/".to_string()],
    };
    let e2 = RegistryEntry {
        keys: vec![MatchKey::AsnRange(1500, 1600)],
        urls: vec!["https://narrow.example/".to_string()],
    };
    let reg = Registry { entries: vec![e1, e2] };
    assert_eq!(reg.resolve(&Query::Asn(1550)).unwrap()[0], "https://narrow.example/");
    assert_eq!(reg.resolve(&Query::Asn(1100)).unwrap()[0], "https://wide.example/");
}

#[test]
fn test_handle_prefix_case_insensitive() {
    let e = RegistryEntry {
        keys: vec![MatchKey::HandlePrefix("ARIN-".to_string())],
        urls: vec!["https://h.example/".to_string()],
    };
    let reg = Registry { entries: vec![e] };
    assert!(reg.resolve(&Query::Handle("arin-xyz".to_string())).is_ok());
    assert!(reg.resolve(&Query::Handle("ripe-xyz".to_string())).is_err());
}

#[test]
fn test_classify() {
    assert_eq!(classify("192.168.1.1"), RegistryKind::Ipv4);
    assert_eq!(classify("2001:db8::1"), RegistryKind::Ipv6);
    assert_eq!(classify("AS64500"), RegistryKind::Asn);
    assert_eq!(classify("as64500"), RegistryKind::Asn);
    assert_eq!(classify("EXAMPLE-HANDLE"), RegistryKind::ObjectTag);
    assert_eq!(classify("example.com"), RegistryKind::Dns);
}

#[test]
fn test_query_builders() {
    assert_eq!(ipv4_value("10.1.2.3"), Some((10 << 24) | (1 << 16) | (2 << 8) | 3));
    assert_eq!(ipv4_value("1.1.1.1"), Some(16843009));
    assert_eq!(ipv4_value("1.1.1"), None);
    assert_eq!(ipv4_value("256.1.1.1"), None);
    assert_eq!(asn_value("AS64500"), Some(64500));
    assert_eq!(asn_value(" as1 "), Some(1));
    assert_eq!(asn_value("64500"), Some(64500));
    assert_eq!(asn_value("ASX"), None);
    assert_eq!(domain_labels("www.Example.COM"), vec!["www", "Example", "COM"]);
    assert_eq!(domain_labels(" a.b "), vec!["a", "b"]);
}

#[test]
fn test_canonicalize_then_resolve() {
    // a raw identifier runs through the canonicalizer into the matcher
    let norm = normalize_ip("10.1.2.3").unwrap();
    let addr = ipv4_value(&norm).unwrap() as u128;
    let reg = Registry {
        entries: vec![
            cidr_entry(v4(10, 0, 0, 0), 8, "https://a.example/"),
            cidr_entry(v4(10, 1, 0, 0), 16, "https://b.example/"),
        ],
    };
    let r = reg.resolve(&Query::Ip(false, addr)).unwrap();
    assert_eq!(r[0], "https://b.example/");
}
