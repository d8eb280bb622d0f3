use desktop_defender::probe::{
    arp_table_from_output, gateway_outcome, get_nth_value, greet, hostname_from_lookup,
    mac_lookup_outcome, parse_arp_table, router_mac_from_arp,
};

const ARP: &str = "? (192.168.1.1) at 0:1a:2b:3c:4d:5e on en0 ifscope [ethernet]\n\
? (192.168.1.23) at (incomplete) on en0 ifscope [ethernet]\n\
? (192.168.1.42) at a4:83:e7:1:2:3 on en0 ifscope [ethernet]\r\n\
garbage line\n\
? 192.168.1.50 at aa:bb:cc:dd:ee:ff on en0\n";

#[test]
fn arp_table_entries() {
    let entries = parse_arp_table(ARP);
    let pairs: Vec<(String, String)> =
        entries.into_iter().map(|e| (e.ip_address, e.mac_address)).collect();
    assert_eq!(
        pairs,
        vec![
            ("192.168.1.1".to_string(), "0:1a:2b:3c:4d:5e".to_string()),
            ("192.168.1.42".to_string(), "a4:83:e7:1:2:3".to_string()),
        ]
    );
    assert!(arp_table_from_output(false, ARP.as_bytes()).is_empty());
    assert_eq!(arp_table_from_output(true, ARP.as_bytes()).len(), 2);
}

#[test]
fn nth_word() {
    assert_eq!(get_nth_value("? (10.0.0.1) at 0:1:2:3:4:5 on en0", 3), Some("0:1:2:3:4:5"));
    assert_eq!(get_nth_value("a b", 3), None);
    assert_eq!(get_nth_value("", 0), None);
}

#[test]
fn router_mac_is_on_the_first_line_naming_the_router() {
    assert_eq!(router_mac_from_arp(ARP, "192.168.1.42"), Some("a4:83:e7:1:2:3".to_string()));
    assert_eq!(router_mac_from_arp(ARP, "192.168.1.1"), Some("0:1a:2b:3c:4d:5e".to_string()));
    assert_eq!(router_mac_from_arp("garbage 10.0.0.1\n? (10.0.0.1) at x", "10.0.0.1"), None);
    assert_eq!(router_mac_from_arp(ARP, "10.9.9.9"), None);
}

#[test]
fn command_outcomes() {
    assert_eq!(
        mac_lookup_outcome(true, b"? (10.0.0.1) at 0:1:2:3:4:5 on en0\n", b""),
        Ok("0:1:2:3:4:5".to_string())
    );
    assert_eq!(
        mac_lookup_outcome(true, b"no entry", b""),
        Err("Error, unexpected arp output".to_string())
    );
    assert_eq!(mac_lookup_outcome(false, b"", b"  arp: bad\n"), Err("arp: bad".to_string()));
    assert_eq!(gateway_outcome(true, b"192.168.1.1\n", b""), Ok("192.168.1.1".to_string()));
    assert_eq!(
        gateway_outcome(true, b"link#11\n", b""),
        Err("No valid ipv4 found. Are you connected to the internet?".to_string())
    );
    assert_eq!(gateway_outcome(false, b"", b"netstat: failed "), Err("netstat: failed".to_string()));
    assert_eq!(hostname_from_lookup(true, b"printer.local.\n"), "printer.local.");
    assert_eq!(hostname_from_lookup(true, b"  \n"), "Unknown");
    assert_eq!(hostname_from_lookup(false, b"x"), "Unknown");
    assert_eq!(greet("Desktop Defender"), "Desktop Defender!");
}

#[test]
fn invalid_bytes_become_replacement_characters() {
    assert_eq!(hostname_from_lookup(true, b"\xffname\n"), "\u{fffd}name");
}
