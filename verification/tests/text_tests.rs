use desktop_defender::mac::{clean_mac_address, mac_oui};
use desktop_defender::text::{split_lines, split_whitespace, trim_str, CharClass};

#[test]
fn clean_mac_pads_short_groups() {
    assert_eq!(clean_mac_address("a:b:c:d:e:f"), "0a:0b:0c:0d:0e:0f");
    assert_eq!(clean_mac_address("aa:b:cc:d:ee:f"), "aa:0b:cc:0d:ee:0f");
}

#[test]
fn split_whitespace_matches_std() {
    let s = "  ? (192.168.1.1) at 0:1a:2b:3c:4d:5e on en0 ifscope [ethernet]\t\n";
    let ours: Vec<&str> = split_whitespace(s);
    let std: Vec<&str> = s.split_whitespace().collect();
    assert_eq!(ours, std);
}

#[test]
fn lines_match_std() {
    for s in ["a\nb\r\nc", "a\n", "", "\n\n", "x\r", "x\r\n"] {
        let ours: Vec<&str> = split_lines(s);
        let std: Vec<&str> = s.lines().collect();
        assert_eq!(ours, std, "{:?}", s);
    }
}

#[test]
fn trims_match_std() {
    assert_eq!(trim_str("  (10.0.0.1) \n", &CharClass::White), "(10.0.0.1)");
    assert_eq!(trim_str("((10.0.0.1))", &CharClass::Only('(')), "10.0.0.1))");
}

#[test]
fn oui_of_mac() {
    assert_eq!(mac_oui("a:b:c:d:e:f"), Some("0A0B0C".to_string()));
    assert_eq!(mac_oui("a:b"), None);
}

#[test]
fn cleaning_a_clean_mac_changes_nothing() {
    for mac in ["a:b:c:d:e:f", "aa:bb:cc:dd:ee:ff", "1:23:4:56:7:89"] {
        let once = clean_mac_address(mac);
        assert_eq!(clean_mac_address(&once), once);
    }
    // Groups of other lengths keep growing: not a short-group address.
    assert_eq!(clean_mac_address("abc"), "0abc");
    assert_eq!(clean_mac_address("0abc"), "00abc");
    assert_eq!(clean_mac_address(""), "0");
    assert_eq!(clean_mac_address("::"), "0:0:0");
}

#[test]
fn oui_goes_through_lower_then_upper_case() {
    // U+1E9E lower-cases to U+00DF (one byte shorter), which upper-cases to "SS".
    assert_eq!(mac_oui("\u{1e9e}:ab:cd"), Some("0SSABC".to_string()));
    assert_eq!(mac_oui("00:1A:2b:3c:4d:5e"), Some("001A2B".to_string()));
    // Six bytes end exactly after a two-byte character.
    assert_eq!(mac_oui("ab:cd:\u{e9}"), Some("ABCD\u{c9}".to_string()));
    // Byte six falls inside the three-byte euro sign of "abcd0\u{20ac}".
    assert_eq!(mac_oui("ab:cd:\u{20ac}"), None);
}

#[test]
fn mac_oui_ignores_letter_case() {
    let small = mac_oui("aa:bb:c:1:2:3");
    let capital = mac_oui("AA:BB:C:01:02:03");
    let mixed = mac_oui("aA:Bb:0c:1:2:3");
    assert_eq!(small, Some("AABB0C".to_string()));
    assert_eq!(capital, small);
    assert_eq!(mixed, small);
}
