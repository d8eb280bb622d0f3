//! Classifying captured Ethernet frames: IPv4 frames that carry TCP or UDP
//! are described by protocol, addresses and length; everything else is
//! skipped. The frames are read through pnet's packet views.

use crate::ipv4::Ipv4Address;
use crate::ipv4::ipv4_text;
use crate::text::chars_eq;
use crate::text::chars_of;
use pnet::packet::Packet;
use pnet::packet::ethernet::EthernetPacket;
use pnet::packet::ipv4::Ipv4Packet;
use pnet::packet::tcp::TcpPacket;
use pnet::packet::udp::UdpPacket;
use vstd::prelude::*;
use vstd::string::StringExecFns;

verus! {

broadcast use vstd::string::group_string_axioms;

#[verifier::external_type_specification]
#[verifier::external_body]
pub struct ExEthernetPacket<'a>(EthernetPacket<'a>);

#[verifier::external_type_specification]
#[verifier::external_body]
pub struct ExIpv4Packet<'a>(Ipv4Packet<'a>);

#[verifier::external_type_specification]
#[verifier::external_body]
pub struct ExTcpPacket<'a>(TcpPacket<'a>);

#[verifier::external_type_specification]
#[verifier::external_body]
pub struct ExUdpPacket<'a>(UdpPacket<'a>);

/// The bytes that an Ethernet packet view reads.
pub uninterp spec fn ethernet_bytes(p: EthernetPacket) -> Seq<u8>;

/// The bytes that an IPv4 packet view reads.
pub uninterp spec fn ipv4_bytes(p: Ipv4Packet) -> Seq<u8>;

/// `EthernetPacket::new`: a view of the frame when it holds at least the 14
/// header bytes, none otherwise.
#[verifier::external_body]
fn ethernet_packet<'a>(frame: &'a [u8]) -> (p: Option<EthernetPacket<'a>>)
    ensures
        p is Some <==> frame@.len() >= 14,
        p matches Some(q) ==> ethernet_bytes(q) == frame@,
{
    EthernetPacket::new(frame)
}

/// `EthernetPacket::get_ethertype`: the big-endian `u16` in bytes 12 and 13.
#[verifier::external_body]
fn ethernet_ethertype(p: &EthernetPacket) -> (t: u16)
    requires
        ethernet_bytes(*p).len() >= 14,
    ensures
        t == ethernet_bytes(*p)[12] as int * 256 + ethernet_bytes(*p)[13] as int,
{
    p.get_ethertype().0
}

/// `Packet::payload` of an Ethernet packet: everything after the header.
#[verifier::external_body]
fn ethernet_payload<'p>(p: &'p EthernetPacket) -> (b: &'p [u8])
    requires
        ethernet_bytes(*p).len() >= 14,
    ensures
        b@ == ethernet_bytes(*p).skip(14),
{
    p.payload()
}

/// `Ipv4Packet::new`: a view of the data when it holds at least the 20
/// bytes of a header without options, none otherwise.
#[verifier::external_body]
fn ipv4_packet<'a>(data: &'a [u8]) -> (p: Option<Ipv4Packet<'a>>)
    ensures
        p is Some <==> data@.len() >= 20,
        p matches Some(q) ==> ipv4_bytes(q) == data@,
{
    Ipv4Packet::new(data)
}

/// `Ipv4Packet::get_next_level_protocol`: byte 9.
#[verifier::external_body]
fn ipv4_protocol(p: &Ipv4Packet) -> (n: u8)
    requires
        ipv4_bytes(*p).len() >= 20,
    ensures
        n == ipv4_bytes(*p)[9],
{
    p.get_next_level_protocol().0
}

/// `Ipv4Packet::get_source`: bytes 12 to 15.
#[verifier::external_body]
fn ipv4_source(p: &Ipv4Packet) -> (a: Ipv4Address)
    requires
        ipv4_bytes(*p).len() >= 20,
    ensures
        a == (Ipv4Address {
            a: ipv4_bytes(*p)[12],
            b: ipv4_bytes(*p)[13],
            c: ipv4_bytes(*p)[14],
            d: ipv4_bytes(*p)[15],
        }),
{
    let o = p.get_source().octets();
    Ipv4Address { a: o[0], b: o[1], c: o[2], d: o[3] }
}

/// `Ipv4Packet::get_destination`: bytes 16 to 19.
#[verifier::external_body]
fn ipv4_destination(p: &Ipv4Packet) -> (a: Ipv4Address)
    requires
        ipv4_bytes(*p).len() >= 20,
    ensures
        a == (Ipv4Address {
            a: ipv4_bytes(*p)[16],
            b: ipv4_bytes(*p)[17],
            c: ipv4_bytes(*p)[18],
            d: ipv4_bytes(*p)[19],
        }),
{
    let o = p.get_destination().octets();
    Ipv4Address { a: o[0], b: o[1], c: o[2], d: o[3] }
}

/// Where pnet's IPv4 payload starts: after the header, whose length in
/// 32-bit words is the low nibble of byte 0, and never before byte 20.
pub open spec fn ipv4_payload_start(b: Seq<u8>) -> int {
    let header = (b[0] % 16) as int * 4;
    if header > 20 {
        header
    } else {
        20
    }
}

/// Where pnet's IPv4 payload ends: the total length (bytes 2 and 3) less
/// the header length, counted from the start, cut at the end of the data.
pub open spec fn ipv4_payload_end(b: Seq<u8>) -> int {
    let header = (b[0] % 16) as int * 4;
    let total = b[2] as int * 256 + b[3] as int;
    let len = if total > header {
        total - header
    } else {
        0
    };
    let end = ipv4_payload_start(b) + len;
    if end < b.len() {
        end
    } else {
        b.len() as int
    }
}

/// The payload of an IPv4 packet as pnet's `Packet::payload` gives it.
pub open spec fn ipv4_payload_of(b: Seq<u8>) -> Seq<u8> {
    if b.len() <= ipv4_payload_start(b) {
        seq![]
    } else {
        b.subrange(ipv4_payload_start(b), ipv4_payload_end(b))
    }
}

/// `Packet::payload` of an IPv4 packet.
#[verifier::external_body]
fn ipv4_payload<'p>(p: &'p Ipv4Packet) -> (b: &'p [u8])
    requires
        ipv4_bytes(*p).len() >= 20,
    ensures
        b@ == ipv4_payload_of(ipv4_bytes(*p)),
{
    p.payload()
}

/// `TcpPacket::new`: a view when the data holds the 20 bytes of a header.
#[verifier::external_body]
fn tcp_packet<'a>(data: &'a [u8]) -> (p: Option<TcpPacket<'a>>)
    ensures
        p is Some <==> data@.len() >= 20,
{
    TcpPacket::new(data)
}

/// `UdpPacket::new`: a view when the data holds the 8 bytes of a header.
#[verifier::external_body]
fn udp_packet<'a>(data: &'a [u8]) -> (p: Option<UdpPacket<'a>>)
    ensures
        p is Some <==> data@.len() >= 8,
{
    UdpPacket::new(data)
}

/// A captured frame: its bytes and the length it had on the wire.
pub struct CapturedPacket {
    pub data: Vec<u8>,
    pub wire_len: u32,
}

/// The description of a TCP or UDP packet.
pub struct PacketInfo {
    pub protocol: String,
    pub source: String,
    pub destination: String,
    pub length: u32,
}

/// What a `PacketInfo` says.
pub struct PacketInfoView {
    pub protocol: Seq<char>,
    pub source: Seq<char>,
    pub destination: Seq<char>,
    pub length: u32,
}

impl View for PacketInfo {
    type V = PacketInfoView;

    open spec fn view(&self) -> PacketInfoView {
        PacketInfoView {
            protocol: self.protocol@,
            source: self.source@,
            destination: self.destination@,
            length: self.length,
        }
    }
}

/// The address in bytes `k` to `k + 3` of `b`.
pub open spec fn address_at(b: Seq<u8>, k: int) -> Ipv4Address {
    Ipv4Address { a: b[k], b: b[k + 1], c: b[k + 2], d: b[k + 3] }
}

/// The description of a frame: for an IPv4 frame (EtherType 0x0800) with a
/// full IPv4 header that carries a full TCP header (protocol 6) or UDP header
/// (protocol 17), its protocol name, source and destination addresses and
/// wire length; nothing for any other frame.
pub open spec fn describe_frame(frame: Seq<u8>, wire_len: u32) -> Option<PacketInfoView> {
    if frame.len() < 14 || frame[12] as int * 256 + frame[13] as int != 0x0800 {
        None
    } else {
        let ip = frame.skip(14);
        if ip.len() < 20 {
            None
        } else {
            let t = ipv4_payload_of(ip);
            let name = if ip[9] == 6 && t.len() >= 20 {
                Some("TCP"@)
            } else if ip[9] == 17 && t.len() >= 8 {
                Some("UDP"@)
            } else {
                None
            };
            match name {
                Some(n) => Some(
                    PacketInfoView {
                        protocol: n,
                        source: ipv4_text(address_at(ip, 12)),
                        destination: ipv4_text(address_at(ip, 16)),
                        length: wire_len,
                    },
                ),
                None => None,
            }
        }
    }
}

/// The description of a captured frame, if it is a TCP or UDP packet over IPv4.
pub fn process_packet(packet: &CapturedPacket) -> (info: Option<PacketInfo>)
    ensures
        match info {
            Some(i) => describe_frame(packet.data@, packet.wire_len) == Some(i@),
            None => describe_frame(packet.data@, packet.wire_len) is None,
        },
{
    let eth = match ethernet_packet(packet.data.as_slice()) {
        Some(p) => p,
        None => return None,
    };
    if ethernet_ethertype(&eth) != 0x0800 {
        return None;
    }
    let ip_data = ethernet_payload(&eth);
    let ip = match ipv4_packet(ip_data) {
        Some(p) => p,
        None => return None,
    };
    let protocol = ipv4_protocol(&ip);
    let transport = ipv4_payload(&ip);
    let name = if protocol == 6 {
        match tcp_packet(transport) {
            Some(_) => String::from_str("TCP"),
            None => return None,
        }
    } else if protocol == 17 {
        match udp_packet(transport) {
            Some(_) => String::from_str("UDP"),
            None => return None,
        }
    } else {
        return None;
    };
    let source = ipv4_source(&ip).to_text();
    let destination = ipv4_destination(&ip).to_text();
    Some(PacketInfo { protocol: name, source, destination, length: packet.wire_len })
}

/// A described frame names the addresses of its IPv4 header, whatever its
/// protocol: the source is bytes 26 to 29 of the frame (header bytes 12 to
/// 15), the destination bytes 30 to 33 (header bytes 16 to 19); the protocol
/// is TCP where header byte 9 is 6 and UDP where it is 17; the length is the
/// wire length.
pub proof fn lemma_described_frame_fields(frame: Seq<u8>, wire_len: u32)
    ensures
        describe_frame(frame, wire_len) matches Some(i) ==> {
            &&& frame.len() >= 34
            &&& i.source == ipv4_text(
                Ipv4Address { a: frame[26], b: frame[27], c: frame[28], d: frame[29] },
            )
            &&& i.destination == ipv4_text(
                Ipv4Address { a: frame[30], b: frame[31], c: frame[32], d: frame[33] },
            )
            &&& (frame[23] == 6 && i.protocol == "TCP"@) || (frame[23] == 17 && i.protocol
                == "UDP"@)
            &&& i.length == wire_len
        },
{
    if describe_frame(frame, wire_len) is Some {
        let ip = frame.skip(14);
        assert(ip[9] == frame[23]);
        assert(address_at(ip, 12) == Ipv4Address { a: frame[26], b: frame[27], c: frame[28], d: frame[29] });
        assert(address_at(ip, 16) == Ipv4Address { a: frame[30], b: frame[31], c: frame[32], d: frame[33] });
    }
}

/// Picks the capture device: the interface named `en0`, or the error that
/// says why there is none.
pub fn select_capture_device(names: &Vec<String>) -> (r: Result<usize, String>)
    ensures
        names@.len() == 0 ==> (r matches Err(e) && e@ == "No available network devices found."@),
        names@.len() > 0 ==> match r {
            Ok(i) => i < names@.len() && names@[i as int]@ == "en0"@ && forall|j: int|
                0 <= j < i ==> names@[j]@ != "en0"@,
            Err(e) => e@ == "Device 'en0' not found."@ && forall|j: int|
                0 <= j < names@.len() ==> names@[j]@ != "en0"@,
        },
{
    if names.len() == 0 {
        return Err(String::from_str("No available network devices found."));
    }
    let wanted = chars_of("en0");
    let mut i: usize = 0;
    while i < names.len()
        invariant
            i <= names@.len(),
            wanted@ == "en0"@,
            forall|j: int| 0 <= j < i ==> names@[j]@ != "en0"@,
        decreases names.len() - i,
    {
        let cs = chars_of(names[i].as_str());
        if chars_eq(cs.as_slice(), wanted.as_slice()) {
            return Ok(i);
        }
        i = i + 1;
    }
    Err(String::from_str("Device 'en0' not found."))
}

} // verus!
