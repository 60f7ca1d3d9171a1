use efense::ip::Ipv4Cidr;

fn cidr(a: u8, b: u8, c: u8, d: u8, prefix_len: u8) -> Ipv4Cidr {
    Ipv4Cidr { addr: [a, b, c, d], prefix_len }
}

#[test]
fn parse_bare_address_defaults_to_slash_32() {
    let c = Ipv4Cidr::parse("192.168.0.1").unwrap();
    assert_eq!(c, cidr(192, 168, 0, 1, 32));
}

#[test]
fn parse_cidr() {
    let c = Ipv4Cidr::parse("10.0.0.0/8").unwrap();
    assert_eq!(c, cidr(10, 0, 0, 0, 8));
}

#[test]
fn parse_slash_zero() {
    let c = Ipv4Cidr::parse("0.0.0.0/0").unwrap();
    assert_eq!(c, cidr(0, 0, 0, 0, 0));
}

#[test]
fn parse_slash_thirty_two() {
    let c = Ipv4Cidr::parse("192.168.0.1/32").unwrap();
    assert_eq!(c, cidr(192, 168, 0, 1, 32));
}

#[test]
fn parse_preserves_host_bits() {
    let c = Ipv4Cidr::parse("192.168.0.1/16").unwrap();
    assert_eq!(c, cidr(192, 168, 0, 1, 16));
}

#[test]
fn parse_rejects_invalid_address() {
    assert!(Ipv4Cidr::parse("not-an-ip").is_err());
    assert!(Ipv4Cidr::parse("999.0.0.0").is_err());
    assert!(Ipv4Cidr::parse("1.2.3").is_err());
    assert!(Ipv4Cidr::parse("/24").is_err());
}

#[test]
fn parse_rejects_invalid_prefix_length() {
    assert!(Ipv4Cidr::parse("10.0.0.0/33").is_err());
    assert!(Ipv4Cidr::parse("10.0.0.0/256").is_err());
    assert!(Ipv4Cidr::parse("10.0.0.0/abc").is_err());
    assert!(Ipv4Cidr::parse("10.0.0.0/-1").is_err());
}

#[test]
fn display_slash_32_omits_prefix_len() {
    assert_eq!(cidr(192, 168, 0, 1, 32).to_string(), "192.168.0.1");
}

#[test]
fn display_other_prefix_len_includes_it() {
    assert_eq!(cidr(10, 0, 0, 0, 8).to_string(), "10.0.0.0/8");
    assert_eq!(cidr(0, 0, 0, 0, 0).to_string(), "0.0.0.0/0");
    assert_eq!(cidr(172, 16, 0, 0, 12).to_string(), "172.16.0.0/12");
}

#[test]
fn text_roundtrip_all_prefix_lens() {
    for prefix_len in 0u8..=32 {
        let c = cidr(192, 168, 0, 1, prefix_len);
        let back = Ipv4Cidr::parse(&c.to_string()).unwrap();
        assert_eq!(back, c, "round-trip failed for /{prefix_len}");
    }
}

#[test]
fn parse_error_messages() {
    assert_eq!(
        Ipv4Cidr::parse("10.0.0.0/33").unwrap_err(),
        "prefix length 33 out of range 0..=32 in \"10.0.0.0/33\""
    );
    assert_eq!(
        Ipv4Cidr::parse("1.2.3").unwrap_err(),
        "invalid IPv4 address \"1.2.3\" in \"1.2.3\""
    );
    assert_eq!(
        Ipv4Cidr::parse("10.0.0.0/abc").unwrap_err(),
        "invalid prefix length \"abc\" in \"10.0.0.0/abc\""
    );
    assert_eq!(
        Ipv4Cidr::parse("a\"b/1").unwrap_err(),
        "invalid IPv4 address \"a\\\"b\" in \"a\\\"b/1\""
    );
}

#[test]
fn parse_accepts_leading_plus_and_zeros_in_prefix() {
    assert_eq!(Ipv4Cidr::parse("10.0.0.0/+8").unwrap(), cidr(10, 0, 0, 0, 8));
    assert_eq!(Ipv4Cidr::parse("10.0.0.0/008").unwrap(), cidr(10, 0, 0, 0, 8));
}

#[test]
fn parse_rejects_leading_zero_octet() {
    assert!(Ipv4Cidr::parse("010.0.0.1").is_err());
    assert!(Ipv4Cidr::parse("10.0.0.1/").is_err());
}
