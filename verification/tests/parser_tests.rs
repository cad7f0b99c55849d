use blacklist::addr::{parse_pattern_str, AddressPattern, IpAddress};

#[test]
fn parses_bare_ipv4() {
    assert_eq!(
        parse_pattern_str("127.0.0.1"),
        Some(AddressPattern::HostOnly(IpAddress::V4(127, 0, 0, 1)))
    );
    assert_eq!(
        parse_pattern_str("0.0.0.0"),
        Some(AddressPattern::HostOnly(IpAddress::V4(0, 0, 0, 0)))
    );
    assert_eq!(
        parse_pattern_str("255.255.255.255"),
        Some(AddressPattern::HostOnly(IpAddress::V4(255, 255, 255, 255)))
    );
}

#[test]
fn parses_ipv4_with_port() {
    assert_eq!(
        parse_pattern_str("127.0.0.1:2134"),
        Some(AddressPattern::HostAndPort(
            IpAddress::V4(127, 0, 0, 1),
            2134
        ))
    );
    assert_eq!(
        parse_pattern_str("1.2.3.4:0"),
        Some(AddressPattern::HostAndPort(IpAddress::V4(1, 2, 3, 4), 0))
    );
    assert_eq!(
        parse_pattern_str("1.2.3.4:65535"),
        Some(AddressPattern::HostAndPort(
            IpAddress::V4(1, 2, 3, 4),
            65535
        ))
    );
}

#[test]
fn port_allows_leading_zeros() {
    assert_eq!(
        parse_pattern_str("1.2.3.4:0080"),
        Some(AddressPattern::HostAndPort(IpAddress::V4(1, 2, 3, 4), 80))
    );
}

#[test]
fn parses_full_ipv6() {
    assert_eq!(
        parse_pattern_str("1:2:3:4:5:6:7:8"),
        Some(AddressPattern::HostOnly(IpAddress::V6(
            1, 2, 3, 4, 5, 6, 7, 8
        )))
    );
    assert_eq!(
        parse_pattern_str("2001:db8:0:0:0:ff00:42:8329"),
        Some(AddressPattern::HostOnly(IpAddress::V6(
            0x2001, 0xdb8, 0, 0, 0, 0xff00, 0x42, 0x8329
        )))
    );
}

#[test]
fn parses_compressed_ipv6() {
    assert_eq!(
        parse_pattern_str("::"),
        Some(AddressPattern::HostOnly(IpAddress::V6(
            0, 0, 0, 0, 0, 0, 0, 0
        )))
    );
    assert_eq!(
        parse_pattern_str("::1"),
        Some(AddressPattern::HostOnly(IpAddress::V6(
            0, 0, 0, 0, 0, 0, 0, 1
        )))
    );
    assert_eq!(
        parse_pattern_str("1::"),
        Some(AddressPattern::HostOnly(IpAddress::V6(
            1, 0, 0, 0, 0, 0, 0, 0
        )))
    );
    assert_eq!(
        parse_pattern_str("2001:db8::ff00:42:8329"),
        Some(AddressPattern::HostOnly(IpAddress::V6(
            0x2001, 0xdb8, 0, 0, 0, 0xff00, 0x42, 0x8329
        )))
    );
    assert_eq!(
        parse_pattern_str("1:2:3:4:5:6:7::"),
        Some(AddressPattern::HostOnly(IpAddress::V6(
            1, 2, 3, 4, 5, 6, 7, 0
        )))
    );
    assert_eq!(
        parse_pattern_str("::1:2:3:4:5:6:7"),
        Some(AddressPattern::HostOnly(IpAddress::V6(
            0, 1, 2, 3, 4, 5, 6, 7
        )))
    );
}

#[test]
fn parses_ipv6_with_embedded_ipv4() {
    assert_eq!(
        parse_pattern_str("::ffff:192.168.0.1"),
        Some(AddressPattern::HostOnly(IpAddress::V6(
            0, 0, 0, 0, 0, 0xffff, 0xc0a8, 0x0001
        )))
    );
    assert_eq!(
        parse_pattern_str("::1.2.3.4"),
        Some(AddressPattern::HostOnly(IpAddress::V6(
            0, 0, 0, 0, 0, 0, 0x0102, 0x0304
        )))
    );
    assert_eq!(
        parse_pattern_str("1:2:3:4:5:6:1.2.3.4"),
        Some(AddressPattern::HostOnly(IpAddress::V6(
            1, 2, 3, 4, 5, 6, 0x0102, 0x0304
        )))
    );
    assert_eq!(
        parse_pattern_str("[::ffff:1.2.3.4]:80"),
        Some(AddressPattern::HostAndPort(
            IpAddress::V6(0, 0, 0, 0, 0, 0xffff, 0x0102, 0x0304),
            80
        ))
    );
    assert_eq!(parse_pattern_str("1.2.3.4::"), None);
    assert_eq!(parse_pattern_str("::1.2.3.4:5"), None);
    assert_eq!(parse_pattern_str("1:2:3:4:5:6:7:1.2.3.4"), None);
}

#[test]
fn parses_ipv6_with_port() {
    assert_eq!(
        parse_pattern_str("[::1]:443"),
        Some(AddressPattern::HostAndPort(
            IpAddress::V6(0, 0, 0, 0, 0, 0, 0, 1),
            443
        ))
    );
    assert_eq!(
        parse_pattern_str("[2001:db8::1]:8080"),
        Some(AddressPattern::HostAndPort(
            IpAddress::V6(0x2001, 0xdb8, 0, 0, 0, 0, 0, 1),
            8080
        ))
    );
}

#[test]
fn rejects_malformed_strings() {
    assert_eq!(parse_pattern_str(""), None);
    assert_eq!(parse_pattern_str("not-an-address"), None);
    assert_eq!(parse_pattern_str("1.2.3"), None);
    assert_eq!(parse_pattern_str("1.2.3.4.5"), None);
    assert_eq!(parse_pattern_str("256.1.1.1"), None);
    assert_eq!(parse_pattern_str("01.2.3.4"), None);
    assert_eq!(parse_pattern_str("1.2.3.4:"), None);
    assert_eq!(parse_pattern_str("1.2.3.4:65536"), None);
    assert_eq!(parse_pattern_str("1.2.3.4:80:90"), None);
    assert_eq!(parse_pattern_str(" 1.2.3.4"), None);
    assert_eq!(parse_pattern_str("1.2.3.4 "), None);
}

#[test]
fn rejects_malformed_ipv6() {
    assert_eq!(parse_pattern_str(":::"), None);
    assert_eq!(parse_pattern_str("1::2::3"), None);
    assert_eq!(parse_pattern_str("1:2:3:4:5:6:7"), None);
    assert_eq!(parse_pattern_str("1:2:3:4:5:6:7:8:9"), None);
    assert_eq!(parse_pattern_str("1:2:3:4:5:6:7:8::"), None);
    assert_eq!(parse_pattern_str("::1:2:3:4:5:6:7:8"), None);
    assert_eq!(parse_pattern_str("12345::"), None);
    assert_eq!(parse_pattern_str("g::1"), None);
    assert_eq!(parse_pattern_str("[::1]443"), None);
    assert_eq!(parse_pattern_str("[::1]:"), None);
    assert_eq!(parse_pattern_str("[1.2.3.4]:80"), None);
}
