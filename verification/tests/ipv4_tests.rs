use desktop_defender::ipv4::{is_valid_ipv4, parse_ipv4_text, Ipv4Address};

fn ip(a: u8, b: u8, c: u8, d: u8) -> Ipv4Address {
    Ipv4Address { a, b, c, d }
}

#[test]
fn validity_of_dotted_decimal() {
    for (s, ok) in [
        ("192.168.1.1", true),
        ("0.0.0.0", true),
        ("255.255.255.255", true),
        ("9.99.199.249", true),
        ("256.1.1.1", false),
        ("01.2.3.4", false),
        ("00.1.1.1", false),
        ("0.0.0.00", false),
        ("10.0.0.010", false),
        ("1.2.3", false),
        ("1.2.3.4.5", false),
        ("", false),
        ("1..2.3", false),
        (" 1.2.3.4", false),
        ("1.2.3.4 ", false),
        ("1234.1.1.1", false),
        ("a.b.c.d", false),
        ("1.2.3.-4", false),
    ] {
        assert_eq!(is_valid_ipv4(s), ok, "{:?}", s);
    }
}

#[test]
fn parses_octets() {
    assert_eq!(parse_ipv4_text("10.20.30.40"), Some(ip(10, 20, 30, 40)));
    assert_eq!(parse_ipv4_text("10.20.30"), None);
}

#[test]
fn text_is_dotted_decimal_and_parses_back() {
    for (a, b, c, d, text) in [
        (0, 0, 0, 0, "0.0.0.0"),
        (192, 168, 1, 254, "192.168.1.254"),
        (8, 8, 8, 8, "8.8.8.8"),
        (255, 10, 100, 9, "255.10.100.9"),
    ] {
        let addr = ip(a, b, c, d);
        assert_eq!(addr.to_text(), text);
        assert_eq!(parse_ipv4_text(text), Some(addr));
    }
}

#[test]
fn private_ranges() {
    for (a, b, private) in [
        (10u8, 0u8, true),
        (172, 16, true),
        (172, 31, true),
        (192, 168, true),
        (172, 15, false),
        (172, 32, false),
        (192, 169, false),
        (8, 8, false),
        (11, 0, false),
    ] {
        assert_eq!(ip(a, b, 1, 1).is_private(), private, "{}.{}", a, b);
    }
}

#[test]
fn address_numbers() {
    let ip = Ipv4Address { a: 1, b: 2, c: 3, d: 4 };
    assert_eq!(ip.to_bits(), 0x0102_0304);
    assert_eq!(Ipv4Address::from_bits(0xC0A8_0001), Ipv4Address { a: 192, b: 168, c: 0, d: 1 });
    assert_eq!(Ipv4Address::from_bits(ip.to_bits()), ip);
}
