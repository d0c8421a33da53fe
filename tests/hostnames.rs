use inet_target::dns::{
    is_valid_dns_host, is_valid_dns_host_label, DnsError, DnsHostname, ResolvedAddrs,
};
use inet_target::inet::IpAddress;

#[test]
fn hostname_validation() {
    let h = DnsHostname::new("example.com").unwrap();
    assert_eq!(h.as_str(), "example.com");
    assert_eq!(DnsHostname::new("123"), Err(DnsError::InvalidInput));
    assert_eq!(DnsHostname::new("-bad-.com"), Err(DnsError::InvalidInput));
    let long = format!("{}.com", "a".repeat(64));
    assert_eq!(DnsHostname::new(&long), Err(DnsError::InvalidInput));
    let longest = format!("{}.com", "a".repeat(63));
    assert!(DnsHostname::new(&longest).is_ok());
    assert!(DnsHostname::new("foo-bar.example.com.").is_ok());
    assert!(DnsHostname::new("a1.123").is_err());
    assert!(DnsHostname::new("").is_err());
}

#[test]
fn host_label_rules() {
    assert!(is_valid_dns_host_label("a"));
    assert!(is_valid_dns_host_label("a-b"));
    assert!(is_valid_dns_host_label("1a"));
    assert!(is_valid_dns_host_label("EXAMPLE"));
    assert!(!is_valid_dns_host_label("123"));
    assert!(!is_valid_dns_host_label("-a"));
    assert!(!is_valid_dns_host_label("a-"));
    assert!(!is_valid_dns_host_label(""));
    assert!(!is_valid_dns_host_label("a_b"));
    assert!(is_valid_dns_host_label(&"b".repeat(63)));
    assert!(!is_valid_dns_host_label(&"b".repeat(64)));
}

#[test]
fn host_rules() {
    assert!(is_valid_dns_host("example.com"));
    assert!(is_valid_dns_host("example.com."));
    assert!(is_valid_dns_host("example.com.."));
    assert!(!is_valid_dns_host("."));
    assert!(!is_valid_dns_host(""));
    assert!(!is_valid_dns_host("a..b"));
    assert!(!is_valid_dns_host(".a"));
    assert!(!is_valid_dns_host("a.1"));
    assert!(!is_valid_dns_host("1.a"));
    assert!(is_valid_dns_host("a1.b2"));
}

#[test]
fn lookup_text_has_port_zero() {
    let h = DnsHostname::new("example.com").unwrap();
    assert_eq!(h.lookup_text(), "example.com:0");
}

#[test]
fn failed_lookup_is_protocol_error() {
    assert_eq!(ResolvedAddrs::from_lookup(None), Err(DnsError::ProtocolError));
}

#[test]
fn resolved_addrs_split_by_family() {
    let mut v6a = [0u8; 16];
    v6a[15] = 1;
    let mut v6b = [0u8; 16];
    v6b[0] = 0xfe;
    let addrs = [
        IpAddress::V6(v6a),
        IpAddress::V4([127, 0, 0, 1]),
        IpAddress::V6(v6b),
        IpAddress::V4([10, 0, 0, 1]),
    ];
    let r = ResolvedAddrs::from_lookup(Some(&addrs)).unwrap();
    assert_eq!(r.v4(), &[[127, 0, 0, 1], [10, 0, 0, 1]]);
    assert_eq!(r.v6(), &[v6a, v6b]);
    assert_eq!(r.v4().len() + r.v6().len(), addrs.len());
    let empty = ResolvedAddrs::from_addrs(&[]);
    assert!(empty.v4().is_empty() && empty.v6().is_empty());
}

#[test]
fn texts_of_errors_and_names() {
    assert_eq!(DnsError::InvalidInput.to_string(), "Invalid input");
    assert_eq!(DnsError::ProtocolError.to_string(), "Protocol error");
    assert_eq!(DnsHostname::new("example.org").unwrap().to_string(), "example.org");
}
