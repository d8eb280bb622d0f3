//! Reading the output of the system tools the monitor runs (`arp`, `netstat`,
//! `dig`): the ARP table, the MAC address of one host, the default gateway,
//! and the hostname a reverse lookup found.

use crate::ipv4::is_valid_ipv4;
use crate::ipv4::parse_ipv4;
use crate::text::CharClass;
use crate::text::chars_eq;
use crate::text::chars_of;
use crate::text::concat;
use crate::text::contains_chars;
use crate::text::contains_seq;
use crate::text::ends_with_chars;
use crate::text::split_lines;
use crate::text::split_whitespace;
use crate::text::starts_with_chars;
use crate::text::lines;
use crate::text::trim;
use crate::text::trim_class;
use crate::text::trim_str;
use crate::text::views;
use crate::text::words;
use vstd::prelude::*;
use vstd::string::StringExecFns;
use vstd::utf8::decode_utf8;
use vstd::utf8::valid_utf8;

verus! {

broadcast use vstd::string::group_string_axioms;

/// What `String::from_utf8_lossy` makes of these bytes.
pub uninterp spec fn utf8_lossy(bytes: Seq<u8>) -> Seq<char>;

/// `String::from_utf8_lossy`: the text of the bytes, with each invalid
/// sequence replaced by U+FFFD; only the valid case is stated, where the
/// text is the decoding of the bytes.
#[verifier::external_body]
fn decode_utf8_lossy(bytes: &[u8]) -> (s: String)
    ensures
        s@ == utf8_lossy(bytes@),
        valid_utf8(bytes@) ==> s@ == decode_utf8(bytes@),
{
    String::from_utf8_lossy(bytes).into_owned()
}

// ---------------------------------------------------------------------------
// Words
/// The `n`-th white-space separated word of `input`.
pub fn get_nth_value(input: &str, n: usize) -> (v: Option<&str>)
    ensures
        v is Some <==> n < words(input@).len(),
        v matches Some(w) ==> w@ == words(input@)[n as int],
{
    let parts = split_whitespace(input);
    if n < parts.len() {
        assert(views(parts@)[n as int] == parts@[n as int]@);
        Some(parts[n])
    } else {
        None
    }
}

// ---------------------------------------------------------------------------
// The ARP table
/// One line of the ARP table: an IP address and the MAC address it resolves to.
pub struct ArpEntry {
    pub ip_address: String,
    pub mac_address: String,
}

pub open spec fn incomplete_text() -> Seq<char> {
    seq!['(', 'i', 'n', 'c', 'o', 'm', 'p', 'l', 'e', 't', 'e', ')']
}

/// The (IP, MAC) pair on one line of `arp -an` output, as in
/// `? (192.168.1.1) at 0:1a:2b:3c:4d:5e on en0`: a line of more than three
/// words whose second word is in parentheses; the IP is that word without
/// its parentheses, the MAC the fourth word; lines whose MAC is
/// `(incomplete)` give nothing.
pub open spec fn arp_line_entry(line: Seq<char>) -> Option<(Seq<char>, Seq<char>)> {
    let parts = words(line);
    if parts.len() > 3 && seq!['('].is_prefix_of(parts[1]) && seq![')'].is_suffix_of(parts[1]) {
        let ip = trim_class(trim_class(parts[1], CharClass::Only('(')), CharClass::Only(')'));
        let mac = parts[3];
        if mac != incomplete_text() {
            Some((ip, mac))
        } else {
            None
        }
    } else {
        None
    }
}

/// The entries found on a sequence of lines, in order.
pub open spec fn arp_entries_of(ls: Seq<Seq<char>>) -> Seq<(Seq<char>, Seq<char>)>
    decreases ls.len(),
{
    if ls.len() == 0 {
        seq![]
    } else {
        match arp_line_entry(ls.last()) {
            Some(e) => arp_entries_of(ls.drop_last()).push(e),
            None => arp_entries_of(ls.drop_last()),
        }
    }
}

/// The (IP, MAC) pairs of a list of entries.
pub open spec fn entry_views(v: Seq<ArpEntry>) -> Seq<(Seq<char>, Seq<char>)> {
    v.map_values(|e: ArpEntry| (e.ip_address@, e.mac_address@))
}

fn arp_line_entry_exec(line: &str) -> (r: Option<ArpEntry>)
    ensures
        match r {
            Some(e) => arp_line_entry(line@) == Some((e.ip_address@, e.mac_address@)),
            None => arp_line_entry(line@) is None,
        },
{
    let parts = split_whitespace(line);
    if parts.len() <= 3 {
        return None;
    }
    assert(views(parts@)[1] == parts@[1]@);
    assert(views(parts@)[3] == parts@[3]@);
    let second = chars_of(parts[1]);
    let open = vec!['('];
    let close = vec![')'];
    if !(starts_with_chars(second.as_slice(), open.as_slice()) && ends_with_chars(
        second.as_slice(),
        close.as_slice(),
    )) {
        return None;
    }
    let inner = trim_str(trim_str(parts[1], &CharClass::Only('(')), &CharClass::Only(')'));
    let mac = chars_of(parts[3]);
    let incomplete = vec!['(', 'i', 'n', 'c', 'o', 'm', 'p', 'l', 'e', 't', 'e', ')'];
    assert(incomplete@ == incomplete_text());
    if chars_eq(mac.as_slice(), incomplete.as_slice()) {
        return None;
    }
    Some(ArpEntry { ip_address: String::from_str(inner), mac_address: String::from_str(parts[3]) })
}

/// The entries of an ARP table printed by `arp -an`, in order.
pub fn parse_arp_table(text: &str) -> (entries: Vec<ArpEntry>)
    ensures
        entry_views(entries@) == arp_entries_of(lines(text@)),
{
    let ls = split_lines(text);
    let mut entries: Vec<ArpEntry> = Vec::new();
    let mut i: usize = 0;
    assert(views(ls@).subrange(0, 0) =~= Seq::<Seq<char>>::empty());
    while i < ls.len()
        invariant
            i <= ls@.len(),
            views(ls@) == lines(text@),
            entry_views(entries@) == arp_entries_of(views(ls@).subrange(0, i as int)),
        decreases ls.len() - i,
    {
        let ghost before = entries@;
        let ghost prefix = views(ls@).subrange(0, i + 1);
        assert(prefix.drop_last() =~= views(ls@).subrange(0, i as int));
        assert(prefix.last() == ls@[i as int]@);
        match arp_line_entry_exec(ls[i]) {
            Some(e) => {
                entries.push(e);
                assert(entry_views(entries@) =~= entry_views(before).push(
                    (entries@.last().ip_address@, entries@.last().mac_address@),
                ));
            },
            None => {
            },
        }
        i = i + 1;
    }
    assert(views(ls@).subrange(0, ls@.len() as int) =~= views(ls@));
    entries
}

/// The ARP table read from the output of `arp -an`: empty when the command
/// failed.
pub fn arp_table_from_output(success: bool, stdout: &[u8]) -> (entries: Vec<ArpEntry>)
    ensures
        success ==> entry_views(entries@) == arp_entries_of(lines(utf8_lossy(stdout@))),
        !success ==> entries@.len() == 0,
{
    if success {
        let text = decode_utf8_lossy(stdout);
        parse_arp_table(text.as_str())
    } else {
        Vec::new()
    }
}

/// The index of the first line that contains `needle`.
pub open spec fn first_line_containing(ls: Seq<Seq<char>>, needle: Seq<char>, from: int) -> Option<
    int,
>
    decreases ls.len() - from,
{
    if from < 0 || from >= ls.len() {
        None
    } else if contains_seq(ls[from], needle) {
        Some(from)
    } else {
        first_line_containing(ls, needle, from + 1)
    }
}

/// The router's MAC address in `arp -an` output: the fourth word of the
/// first line that mentions the router's IP, if that line has one.
pub open spec fn router_mac_in(arp_output: Seq<char>, router_ip: Seq<char>) -> Option<Seq<char>> {
    let ls = lines(arp_output);
    match first_line_containing(ls, router_ip, 0) {
        Some(k) => if words(ls[k]).len() > 3 {
            Some(words(ls[k])[3])
        } else {
            None
        },
        None => None,
    }
}

/// The router's MAC address in `arp -an` output.
pub fn router_mac_from_arp(arp_output: &str, router_ip: &str) -> (mac: Option<String>)
    ensures
        match mac {
            Some(m) => router_mac_in(arp_output@, router_ip@) == Some(m@),
            None => router_mac_in(arp_output@, router_ip@) is None,
        },
{
    let ls = split_lines(arp_output);
    let needle = chars_of(router_ip);
    let mut i: usize = 0;
    while i < ls.len()
        invariant
            i <= ls@.len(),
            views(ls@) == lines(arp_output@),
            needle@ == router_ip@,
            first_line_containing(lines(arp_output@), router_ip@, 0) == first_line_containing(
                lines(arp_output@),
                router_ip@,
                i as int,
            ),
        decreases ls.len() - i,
    {
        let line = chars_of(ls[i]);
        assert(views(ls@)[i as int] == ls@[i as int]@);
        if contains_chars(line.as_slice(), needle.as_slice()) {
            return match get_nth_value(ls[i], 3) {
                Some(v) => Some(String::from_str(v)),
                None => None,
            };
        }
        i = i + 1;
    }
    None
}

// ---------------------------------------------------------------------------
// Outcomes of single commands
/// The outcome of `arp -n <ip>`: the fourth word of its output when it
/// succeeded, else its error output, trimmed.
pub fn mac_lookup_outcome(success: bool, stdout: &[u8], stderr: &[u8]) -> (r: Result<String, String>)
    ensures
        success && words(utf8_lossy(stdout@)).len() > 3 ==> (r matches Ok(m) && m@ == words(
            utf8_lossy(stdout@),
        )[3]),
        success && words(utf8_lossy(stdout@)).len() <= 3 ==> (r matches Err(e) && e@
            == "Error, unexpected arp output"@),
        !success ==> (r matches Err(e) && e@ == trim(utf8_lossy(stderr@))),
{
    if success {
        let output = decode_utf8_lossy(stdout);
        match get_nth_value(output.as_str(), 3) {
            Some(v) => Ok(String::from_str(v)),
            None => Err(String::from_str("Error, unexpected arp output")),
        }
    } else {
        let err = decode_utf8_lossy(stderr);
        Err(String::from_str(trim_str(err.as_str(), &CharClass::White)))
    }
}

/// The outcome of the default-gateway query: its trimmed output when that is
/// an IPv4 address, else an error.
pub fn gateway_outcome(success: bool, stdout: &[u8], stderr: &[u8]) -> (r: Result<String, String>)
    ensures
        success && parse_ipv4(trim(utf8_lossy(stdout@))) is Some ==> (r matches Ok(ip) && ip@
            == trim(utf8_lossy(stdout@))),
        success && parse_ipv4(trim(utf8_lossy(stdout@))) is None ==> (r matches Err(e) && e@
            == "No valid ipv4 found. Are you connected to the internet?"@),
        !success ==> (r matches Err(e) && e@ == trim(utf8_lossy(stderr@))),
{
    if success {
        let output = decode_utf8_lossy(stdout);
        let trimmed = trim_str(output.as_str(), &CharClass::White);
        if is_valid_ipv4(trimmed) {
            Ok(String::from_str(trimmed))
        } else {
            Err(String::from_str("No valid ipv4 found. Are you connected to the internet?"))
        }
    } else {
        let err = decode_utf8_lossy(stderr);
        Err(String::from_str(trim_str(err.as_str(), &CharClass::White)))
    }
}

/// The hostname a reverse lookup with `dig` found: its trimmed output when
/// it succeeded with some output, else `Unknown`.
pub fn hostname_from_lookup(success: bool, stdout: &[u8]) -> (h: String)
    ensures
        success && trim(utf8_lossy(stdout@)).len() > 0 ==> h@ == trim(utf8_lossy(stdout@)),
        !(success && trim(utf8_lossy(stdout@)).len() > 0) ==> h@ == "Unknown"@,
{
    if success {
        let output = decode_utf8_lossy(stdout);
        let trimmed = trim_str(output.as_str(), &CharClass::White);
        if !trimmed.is_empty() {
            return String::from_str(trimmed);
        }
    }
    String::from_str("Unknown")
}

/// A request to look up the hostnames of the devices behind one router.
pub struct HostnameRequest {
    pub router_mac: String,
}

/// The greeting for `name`: the name followed by `!`.
pub fn greet(name: &str) -> (g: String)
    ensures
        g@ == name@ + "!"@,
{
    concat(name, "!")
}

} // verus!
