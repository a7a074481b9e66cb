use hostsfile::Entry;
use hostsfile::ErrorKind;
use hostsfile::IpAddr;

#[test]
fn test_parse_ipv4() {
    assert_eq!(IpAddr::from_str("127.0.0.1"), Some(IpAddr::V4(127, 0, 0, 1)));
    assert_eq!(IpAddr::from_str("255.255.255.255"), Some(IpAddr::V4(255, 255, 255, 255)));
    assert_eq!(IpAddr::from_str("0.0.0.0"), Some(IpAddr::V4(0, 0, 0, 0)));
    assert_eq!(IpAddr::from_str("256.0.0.1"), None);
    assert_eq!(IpAddr::from_str("1.2.3"), None);
    assert_eq!(IpAddr::from_str("1.2.3.4.5"), None);
    assert_eq!(IpAddr::from_str("01.2.3.4"), None);
    assert_eq!(IpAddr::from_str("1.2.3.04"), None);
    assert_eq!(IpAddr::from_str(""), None);
    assert_eq!(IpAddr::from_str("1.2.3.4x"), None);
}

#[test]
fn test_parse_ipv6() {
    assert_eq!(
        IpAddr::from_str("2001:db8:0:0:0:0:2:1"),
        Some(IpAddr::V6(0x2001, 0xdb8, 0, 0, 0, 0, 2, 1))
    );
    assert_eq!(IpAddr::from_str("::1"), Some(IpAddr::V6(0, 0, 0, 0, 0, 0, 0, 1)));
    assert_eq!(IpAddr::from_str("::"), Some(IpAddr::V6(0, 0, 0, 0, 0, 0, 0, 0)));
    assert_eq!(IpAddr::from_str("1::"), Some(IpAddr::V6(1, 0, 0, 0, 0, 0, 0, 0)));
    assert_eq!(
        IpAddr::from_str("::ffff:1.2.3.4"),
        Some(IpAddr::V6(0, 0, 0, 0, 0, 0xffff, 0x0102, 0x0304))
    );
    assert_eq!(
        IpAddr::from_str("ABCD:ef01:2345:6789:ABCD:ef01:2345:6789"),
        Some(IpAddr::V6(0xabcd, 0xef01, 0x2345, 0x6789, 0xabcd, 0xef01, 0x2345, 0x6789))
    );
    // One `::` at most, no group over four digits, no trailing colon.
    assert_eq!(IpAddr::from_str("1::2::3"), None);
    assert_eq!(IpAddr::from_str("1:2:3:4:5:6:7:8:9"), None);
    assert_eq!(IpAddr::from_str("1:2:3:4:5:6:7::8"), None);
    assert_eq!(IpAddr::from_str("12345::"), None);
    assert_eq!(IpAddr::from_str("1:2:3:4:5:6:7:"), None);
    assert_eq!(IpAddr::from_str(":1:2:3:4:5:6:7"), None);
    // The embedded IPv4 form can stand only at the end.
    assert_eq!(IpAddr::from_str("1.2.3.4::"), None);
    assert_eq!(
        IpAddr::from_str("1:2:3:4:5:6:7.8.9.10"),
        Some(IpAddr::V6(1, 2, 3, 4, 5, 6, 0x0708, 0x090a))
    );
}

#[test]
fn test_render_ipv4() {
    assert_eq!(IpAddr::V4(127, 0, 0, 1).render(), "127.0.0.1");
    assert_eq!(IpAddr::V4(255, 255, 255, 255).render(), "255.255.255.255");
    assert_eq!(IpAddr::V4(0, 10, 100, 9).render(), "0.10.100.9");
}

#[test]
fn test_render_ipv6_canonical() {
    // Lowercase, no leading zeros, longest zero run compressed, leftmost wins
    // on ties, single zero groups left alone, IPv4-mapped written mixed.
    assert_eq!(IpAddr::from_str("2001:db8:0:0:0:0:2:1").unwrap().render(), "2001:db8::2:1");
    assert_eq!(IpAddr::from_str("::1").unwrap().render(), "::1");
    assert_eq!(IpAddr::from_str("0:0:0:0:0:0:0:0").unwrap().render(), "::");
    assert_eq!(IpAddr::from_str("1:0:0:1:0:0:1:1").unwrap().render(), "1::1:0:0:1:1");
    assert_eq!(IpAddr::from_str("1:2:3:4:5:6:7:8").unwrap().render(), "1:2:3:4:5:6:7:8");
    assert_eq!(IpAddr::from_str("1:0:2:3:4:5:6:7").unwrap().render(), "1:0:2:3:4:5:6:7");
    assert_eq!(IpAddr::from_str("ABCD:EF01:0:0:0:0:0:1").unwrap().render(), "abcd:ef01::1");
    assert_eq!(IpAddr::from_str("::ffff:1.2.3.4").unwrap().render(), "::ffff:1.2.3.4");
    assert_eq!(IpAddr::from_str("::ffff:0:0").unwrap().render(), "::ffff:0.0.0.0");
}

#[test]
fn test_entry_from_str_and_render() {
    let e = Entry::from_str("127.0.0.2 pi.mlcdf.fr").unwrap();
    assert_eq!(e.render(), "127.0.0.2       pi.mlcdf.fr");

    // Several hostnames, separated by single spaces, survive untouched.
    let e = Entry::from_str("10.0.0.1 a b c").unwrap();
    assert_eq!(e.render(), "10.0.0.1        a b c");
    assert_eq!(e.hostnames, vec!["a".to_string(), "b".to_string(), "c".to_string()]);

    // A run of whitespace separates the IP from the hostnames; trailing
    // whitespace is trimmed.
    let e = Entry::from_str("10.0.0.1 \t  a b  ").unwrap();
    assert_eq!(e.hostnames, vec!["a".to_string(), "b".to_string()]);

    // A long IP is not truncated, and still followed by one space.
    let e = Entry::from_str("255.255.255.255 h").unwrap();
    assert_eq!(e.render(), "255.255.255.255 h");

    // An IPv6 literal is rendered canonically.
    let e = Entry::from_str("0:0:0:0:0:0:0:1 localhost").unwrap();
    assert_eq!(e.render(), "::1             localhost");
}

#[test]
fn test_entry_from_str_errors() {
    assert!(matches!(Entry::from_str("not-an-ip host"), Err(ErrorKind::Parse)));
    assert!(matches!(Entry::from_str("127.0.0.1"), Err(ErrorKind::Parse)));
    assert!(matches!(Entry::from_str("127.0.0.1   "), Err(ErrorKind::Parse)));
    assert!(matches!(Entry::from_str(""), Err(ErrorKind::Parse)));
    assert!(matches!(Entry::from_str("   host"), Err(ErrorKind::Parse)));
}

#[test]
fn test_entry_equality_is_textual() {
    // Equality goes by the canonical rendering, not by the fields.
    let a = Entry::from_str("0:0:0:0:0:0:0:1 h").unwrap();
    let b = Entry::from_str("::1 h").unwrap();
    assert!(a.eq_entry(&b));

    let ip = IpAddr::from_str("10.0.0.1").unwrap();
    let one = Entry::new(ip, vec!["a b".to_string()]);
    let two = Entry::new(ip, vec!["a".to_string(), "b".to_string()]);
    assert!(one.eq_entry(&two));

    let c = Entry::from_str("10.0.0.1 a").unwrap();
    let d = Entry::from_str("10.0.0.2 a").unwrap();
    assert!(!c.eq_entry(&d));
}

#[test]
fn test_entry_new() {
    let ip = IpAddr::from_str("127.0.0.2").unwrap();
    let e = Entry::new(ip, vec!["pi.mlcdf.fr".to_string()]);
    assert_eq!(e.ip, IpAddr::V4(127, 0, 0, 2));
    assert_eq!(e.render(), "127.0.0.2       pi.mlcdf.fr");
}
