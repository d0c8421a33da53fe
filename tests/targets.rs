use inet_target::inet::{InetError, InetTarget, IpAddress, IpNet};
use inet_target::ipv4::{parse_ipv4_addr, render_ipv4_addr, Ipv4Error, Ipv4Target};
use inet_target::ipv6::{Ipv6Error, Ipv6Target};
use inet_target::text::{parse_decimal_u8, split_target};

const DB8: [u8; 16] = [0x20, 0x01, 0x0d, 0xb8, 0, 0, 0, 0, 0, 0, 0, 0, 0, 0, 0, 0];

#[test]
fn ipv4_dotted_quad_round_trips() {
    for s in ["0.0.0.0", "255.255.255.255", "192.168.1.10", "10.0.0.1", "1.22.133.4"] {
        let t = Ipv4Target::from_str(s).unwrap();
        assert_eq!(t.to_string(), s);
    }
    for a in [0u8, 7, 10, 99, 100, 255] {
        for b in [0u8, 1, 128, 254] {
            let s = format!("{}.{}.{}.{}", a, b, b, a);
            assert_eq!(Ipv4Target::from_str(&s).unwrap().to_string(), s);
        }
    }
}

#[test]
fn ipv4_parse_reads_octets() {
    let t = Ipv4Target::from_str("192.168.1.10").unwrap();
    assert_eq!(t.ip(), [192, 168, 1, 10]);
    assert_eq!(t.prefix_len(), None);
    assert!(!t.is_net());
    assert_eq!(t.net(), None);
}

#[test]
fn ipv4_new_checks_network_base() {
    assert_eq!(Ipv4Target::new([10, 0, 0, 1], Some(8)), Err(Ipv4Error));
    let t = Ipv4Target::new([10, 0, 0, 0], Some(8)).unwrap();
    let n = t.net().unwrap();
    assert_eq!(n.addr(), [10, 0, 0, 0]);
    assert_eq!(n.prefix_len(), 8);
    assert!(t.is_net());
    assert_eq!(Ipv4Target::new([192, 168, 1, 128], Some(25)).unwrap().prefix_len(), Some(25));
    assert_eq!(Ipv4Target::new([192, 168, 1, 64], Some(25)), Err(Ipv4Error));
    assert!(Ipv4Target::new([1, 2, 3, 4], Some(32)).is_ok());
    assert!(Ipv4Target::new([0, 0, 0, 0], Some(0)).is_ok());
    assert_eq!(Ipv4Target::new([1, 0, 0, 0], Some(0)), Err(Ipv4Error));
    assert_eq!(Ipv4Target::new([0, 0, 0, 0], Some(33)), Err(Ipv4Error));
    assert!(Ipv4Target::new([1, 2, 3, 4], None).is_ok());
}

#[test]
fn ipv4_network_parse() {
    assert!(Ipv4Target::from_str("10.0.0.0/8").is_ok());
    assert_eq!(Ipv4Target::from_str("10.0.0.1/8"), Err(Ipv4Error));
    assert_eq!(Ipv4Target::from_str("10.0.0.0/8").unwrap().to_string(), "10.0.0.0/8");
    assert_eq!(Ipv4Target::from_str("10.0.0.0/33"), Err(Ipv4Error));
    assert_eq!(Ipv4Target::from_str("10.0.0.0/8/8"), Err(Ipv4Error));
    assert_eq!(Ipv4Target::from_str("10.0.0.0/abc"), Err(Ipv4Error));
    assert_eq!(Ipv4Target::from_str("10.0.0.0/"), Err(Ipv4Error));
    assert_eq!(Ipv4Target::from_str("256.0.0.0"), Err(Ipv4Error));
    assert_eq!(Ipv4Target::from_str("::1"), Err(Ipv4Error));
    assert_eq!(Ipv4Target::from_str("0.0.0.0/0").unwrap().to_string(), "0.0.0.0/0");
}

#[test]
fn ipv4_from_parts() {
    assert!(Ipv4Target::from_parts(Some([10, 0, 0, 0]), Some("8")).is_ok());
    assert_eq!(Ipv4Target::from_parts(None, Some("8")), Err(Ipv4Error));
    assert_eq!(Ipv4Target::from_parts(Some([10, 0, 0, 0]), Some("x")), Err(Ipv4Error));
    assert_eq!(Ipv4Target::from_parts(Some([10, 0, 0, 1]), None).unwrap().ip(), [10, 0, 0, 1]);
}

#[test]
fn ipv6_new_checks_network_base() {
    let t = Ipv6Target::new(DB8, Some(32)).unwrap();
    assert_eq!(t.net().unwrap().addr(), DB8);
    let mut host = DB8;
    host[4] = 1;
    assert_eq!(Ipv6Target::new(host, Some(32)), Err(Ipv6Error));
    assert!(Ipv6Target::new(host, Some(40)).is_ok());
    let mut half = DB8;
    half[4] = 0x80;
    assert!(Ipv6Target::new(half, Some(33)).is_ok());
    half[4] = 0x40;
    assert_eq!(Ipv6Target::new(half, Some(33)), Err(Ipv6Error));
    assert!(Ipv6Target::new(half, Some(128)).is_ok());
    assert_eq!(Ipv6Target::new(half, Some(129)), Err(Ipv6Error));
}

#[test]
fn ipv6_network_parse() {
    let t = Ipv6Target::from_str("2001:db8::/32").unwrap();
    let n = t.net().unwrap();
    assert_eq!(n.prefix_len(), 32);
    assert_eq!(n.addr(), DB8);
    assert_eq!(t.to_string(), "2001:db8::/32");
    assert_eq!(Ipv6Target::from_str("2001:db8::1/32"), Err(Ipv6Error));
    assert_eq!(Ipv6Target::from_str("2001:db8::/129"), Err(Ipv6Error));
    assert_eq!(Ipv6Target::from_str("10.0.0.0/8"), Err(Ipv6Error));
    let one = Ipv6Target::from_str("::1").unwrap();
    let mut expected = [0u8; 16];
    expected[15] = 1;
    assert_eq!(one.ip(), expected);
    assert_eq!(one.to_string(), "::1");
}

#[test]
fn inet_picks_family() {
    let v4 = InetTarget::from_str("10.0.0.0/8").unwrap();
    assert!(matches!(v4, InetTarget::V4(_)));
    assert_eq!(v4.prefix_len(), Some(8));
    assert!(v4.is_net());
    assert_eq!(v4.ip(), IpAddress::V4([10, 0, 0, 0]));
    match v4.net() {
        Some(IpNet::V4(n)) => assert_eq!((n.addr(), n.prefix_len()), ([10, 0, 0, 0], 8)),
        other => panic!("unexpected network {:?}", other),
    }
    let v6 = InetTarget::from_str("::1").unwrap();
    assert!(matches!(v6, InetTarget::V6(_)));
    assert_eq!(v6.prefix_len(), None);
    assert!(!v6.is_net());
    assert_eq!(v6.net(), None);
    assert_eq!(v6.to_string(), "::1");
    assert_eq!(InetTarget::from_str("not-an-ip"), Err(InetError::Other));
    assert_eq!(InetTarget::from_str("10.0.0.1/8"), Err(InetError::Other));
}

#[test]
fn split_target_parts() {
    assert_eq!(split_target("a/b"), Some(("a", Some("b"))));
    assert_eq!(split_target("a"), Some(("a", None)));
    assert_eq!(split_target("a/"), Some(("a", Some(""))));
    assert_eq!(split_target("a/b/c"), None);
    assert_eq!(parse_decimal_u8("255"), Some(255));
    assert_eq!(parse_decimal_u8("008"), Some(8));
    assert_eq!(parse_decimal_u8("256"), None);
    assert_eq!(parse_decimal_u8("+8"), None);
    assert_eq!(parse_decimal_u8(""), None);
}

#[test]
fn dotted_quad_reading() {
    assert_eq!(parse_ipv4_addr("192.168.0.1"), Some([192, 168, 0, 1]));
    assert_eq!(parse_ipv4_addr("0.0.0.0"), Some([0, 0, 0, 0]));
    assert_eq!(parse_ipv4_addr("255.255.255.255"), Some([255, 255, 255, 255]));
    assert_eq!(parse_ipv4_addr("01.2.3.4"), None);
    assert_eq!(parse_ipv4_addr("1.2.3.00"), None);
    assert_eq!(parse_ipv4_addr("1.2.3"), None);
    assert_eq!(parse_ipv4_addr("1.2.3.4.5"), None);
    assert_eq!(parse_ipv4_addr("1.2.3.256"), None);
    assert_eq!(parse_ipv4_addr("1.2.3.4 "), None);
    assert_eq!(parse_ipv4_addr("1..3.4"), None);
    assert_eq!(parse_ipv4_addr(""), None);
    assert_eq!(render_ipv4_addr([10, 200, 0, 7]), "10.200.0.7");
}

#[test]
fn ipv6_reading_and_writing() {
    let t = Ipv6Target::from_str("fe80::1:2").unwrap();
    let mut expected = [0u8; 16];
    expected[0] = 0xfe;
    expected[1] = 0x80;
    expected[13] = 1;
    expected[15] = 2;
    assert_eq!(t.ip(), expected);
    assert_eq!(t.to_string(), "fe80::1:2");
    assert_eq!(Ipv6Target::from_str("fe80::1::2"), Err(Ipv6Error));
}

#[test]
fn texts_of_errors() {
    assert_eq!(Ipv4Error.to_string(), "IPv4 address error");
    assert_eq!(Ipv6Error.to_string(), "IPv6 address error");
    assert_eq!(InetError::V4(Ipv4Error).to_string(), "IPv4 error: IPv4 address error");
    assert_eq!(InetError::V6(Ipv6Error).to_string(), "IPv6 error: IPv6 address error");
    assert_eq!(InetError::Other.to_string(), "Other error");
}

#[test]
fn target_text_reads_back() {
    for s in ["10.0.0.0/8", "192.168.1.128/25", "1.2.3.4", "1.2.3.4/32", "0.0.0.0/0"] {
        let t = Ipv4Target::from_str(s).unwrap();
        assert_eq!(Ipv4Target::from_str(&t.to_string()), Ok(t));
        let i = InetTarget::from_str(s).unwrap();
        assert_eq!(InetTarget::from_str(&i.to_string()), Ok(i));
    }
}
