use desktop_defender::ipv4::Ipv4Address;
use desktop_defender::registry::{Info, IpRegistry, LookupResult};

fn ip(a: u8, b: u8, c: u8, d: u8) -> Ipv4Address {
    Ipv4Address { a, b, c, d }
}

#[test]
fn queues_public_addresses_once() {
    let mut r = IpRegistry::new();
    assert_eq!(r.add_ip_to_set(ip(8, 8, 8, 8)), Ok("8.8.8.8".to_string()));
    assert_eq!(r.add_ip_to_set(ip(8, 8, 8, 8)), Err("IP already in set".to_string()));
    assert_eq!(r.add_ip_to_set(ip(1, 1, 1, 1)), Ok("1.1.1.1".to_string()));
    let mut pending = r.pending_texts();
    pending.sort();
    assert_eq!(pending, vec!["1.1.1.1".to_string(), "8.8.8.8".to_string()]);
}

#[test]
fn refuses_private_addresses() {
    let mut r = IpRegistry::new();
    for a in [ip(10, 1, 2, 3), ip(172, 16, 0, 1), ip(192, 168, 1, 1)] {
        assert_eq!(r.add_ip_to_set(a), Err("IP already in set".to_string()));
    }
    assert!(r.pending_texts().is_empty());
}

fn result(ip: &str, host: Option<&str>, country: Option<&str>, flag: Option<&str>) -> LookupResult {
    LookupResult {
        ip: ip.to_string(),
        hostname: host.map(|s| s.to_string()),
        country_name: country.map(|s| s.to_string()),
        flag_emoji: flag.map(|s| s.to_string()),
    }
}

#[test]
fn lookups_fill_the_cache_and_empty_the_queue() {
    let mut r = IpRegistry::new();
    r.add_ip_to_set(ip(8, 8, 8, 8)).unwrap();
    r.record_lookup(vec![result("8.8.8.8", Some("dns.google"), Some("United States"), None)]);
    assert!(r.pending_texts().is_empty());
    assert_eq!(r.add_ip_to_set(ip(8, 8, 8, 8)), Err("IP already in set".to_string()));
    let entries = r.cache_entries();
    assert_eq!(entries.len(), 1);
    assert_eq!(entries[0].0, "8.8.8.8");
    assert_eq!(entries[0].1.hostname, "dns.google");
    assert_eq!(entries[0].1.country, "United States");
    assert_eq!(entries[0].1.flag, "\u{26f3}");
}

#[test]
fn info_defaults_and_description() {
    let info = Info::from_lookup(result("1.2.3.4", None, None, Some("F")));
    assert_eq!(info.hostname, "Unknown");
    assert_eq!(info.country, "Unknown");
    assert_eq!(info.flag, "F");
    assert_eq!(info.describe(), "Country: Unknown, Flag: F, Hostname: Unknown, IP: 1.2.3.4");
}
