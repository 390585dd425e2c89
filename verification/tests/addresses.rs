use ip_snipper::ip::parse_ip;
use ip_snipper::ip::parse_ipv4;
use ip_snipper::ip::parse_ipv6;
use ip_snipper::ip::IpAddress;

fn chars(s: &str) -> Vec<char> {
    s.chars().collect()
}

fn v4(o0: u8, o1: u8, o2: u8, o3: u8) -> IpAddress {
    IpAddress::V4 { o0, o1, o2, o3 }
}

fn v6(g: [u16; 8]) -> IpAddress {
    IpAddress::V6 {
        s0: g[0],
        s1: g[1],
        s2: g[2],
        s3: g[3],
        s4: g[4],
        s5: g[5],
        s6: g[6],
        s7: g[7],
    }
}

#[test]
fn parses_dotted_decimal() {
    assert_eq!(parse_ipv4(&chars("10.0.0.1")), Some(v4(10, 0, 0, 1)));
    assert_eq!(parse_ipv4(&chars("192.168.1.1")), Some(v4(192, 168, 1, 1)));
    assert_eq!(parse_ipv4(&chars("0.0.0.0")), Some(v4(0, 0, 0, 0)));
    assert_eq!(parse_ipv4(&chars("255.255.255.255")), Some(v4(255, 255, 255, 255)));
}

#[test]
fn rejects_bad_dotted_decimal() {
    assert_eq!(parse_ipv4(&chars("")), None);
    assert_eq!(parse_ipv4(&chars("256.0.0.1")), None);
    assert_eq!(parse_ipv4(&chars("01.2.3.4")), None);
    assert_eq!(parse_ipv4(&chars("1.2.3")), None);
    assert_eq!(parse_ipv4(&chars("1.2.3.4.5")), None);
    assert_eq!(parse_ipv4(&chars("1.2.3.4 ")), None);
    assert_eq!(parse_ipv4(&chars("1.2.3.")), None);
    assert_eq!(parse_ipv4(&chars("a.b.c.d")), None);
}

#[test]
fn parses_colon_hexadecimal() {
    assert_eq!(parse_ipv6(&chars("::")), Some(v6([0, 0, 0, 0, 0, 0, 0, 0])));
    assert_eq!(parse_ipv6(&chars("::1")), Some(v6([0, 0, 0, 0, 0, 0, 0, 1])));
    assert_eq!(parse_ipv6(&chars("1::")), Some(v6([1, 0, 0, 0, 0, 0, 0, 0])));
    assert_eq!(
        parse_ipv6(&chars("1:2:3:4:5:6:7:8")),
        Some(v6([1, 2, 3, 4, 5, 6, 7, 8]))
    );
    assert_eq!(
        parse_ipv6(&chars("2001:db8::8:800:200c:417a")),
        Some(v6([0x2001, 0xdb8, 0, 0, 8, 0x800, 0x200c, 0x417a]))
    );
    assert_eq!(
        parse_ipv6(&chars("1:2:3:4:5:6:7::")),
        Some(v6([1, 2, 3, 4, 5, 6, 7, 0]))
    );
    assert_eq!(
        parse_ipv6(&chars("FFFF::ffff")),
        Some(v6([0xffff, 0, 0, 0, 0, 0, 0, 0xffff]))
    );
}

#[test]
fn parses_embedded_dotted_tail() {
    assert_eq!(
        parse_ipv6(&chars("::ffff:192.0.2.128")),
        Some(v6([0, 0, 0, 0, 0, 0xffff, 0xc000, 0x0280]))
    );
    assert_eq!(
        parse_ipv6(&chars("1:2:3:4:5:6:1.2.3.4")),
        Some(v6([1, 2, 3, 4, 5, 6, 0x0102, 0x0304]))
    );
}

#[test]
fn rejects_bad_colon_hexadecimal() {
    assert_eq!(parse_ipv6(&chars("")), None);
    assert_eq!(parse_ipv6(&chars(":")), None);
    assert_eq!(parse_ipv6(&chars(":::")), None);
    assert_eq!(parse_ipv6(&chars("1::2::3")), None);
    assert_eq!(parse_ipv6(&chars("1:2:3:4:5:6:7:8:9")), None);
    assert_eq!(parse_ipv6(&chars("1:2:3:4:5:6:7:8::")), None);
    assert_eq!(parse_ipv6(&chars("::1:2:3:4:5:6:7:8")), None);
    assert_eq!(parse_ipv6(&chars("12345::")), None);
    assert_eq!(parse_ipv6(&chars("g::1")), None);
    assert_eq!(parse_ipv6(&chars(":1:2:3:4:5:6:7")), None);
    assert_eq!(parse_ipv6(&chars("1:2:3:4:5:6:7:")), None);
    assert_eq!(parse_ipv6(&chars("1.2.3.4")), None);
    assert_eq!(parse_ipv6(&chars("::1.2.3.4:5")), None);
    assert_eq!(parse_ipv6(&chars("1:2:3:4:5:1.2.3.4")), None);
}

#[test]
fn parse_ip_accepts_both_families() {
    assert_eq!(parse_ip(&chars("10.0.0.1")), Some(v4(10, 0, 0, 1)));
    assert_eq!(parse_ip(&chars("::1")), Some(v6([0, 0, 0, 0, 0, 0, 0, 1])));
    assert_eq!(parse_ip(&chars("localhost")), None);
    assert_eq!(parse_ip(&chars("10.0.0")), None);
}
