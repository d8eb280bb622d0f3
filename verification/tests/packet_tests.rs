use desktop_defender::packet::{process_packet, select_capture_device, CapturedPacket};

fn frame(ethertype: u16, ip: &[u8]) -> Vec<u8> {
    let mut f = vec![0u8; 12];
    f.push((ethertype >> 8) as u8);
    f.push(ethertype as u8);
    f.extend_from_slice(ip);
    f
}

fn ipv4(protocol: u8, payload_len: usize) -> Vec<u8> {
    let total = 20 + payload_len;
    let mut h = vec![0x45, 0, (total >> 8) as u8, total as u8, 0, 0, 0, 0, 64, protocol, 0, 0];
    h.extend_from_slice(&[192, 168, 1, 20, 93, 184, 216, 34]);
    h.extend(std::iter::repeat(0u8).take(payload_len));
    h
}

#[test]
fn tcp_and_udp_frames_are_described() {
    let p = CapturedPacket { data: frame(0x0800, &ipv4(6, 20)), wire_len: 74 };
    let info = process_packet(&p).unwrap();
    assert_eq!(info.protocol, "TCP");
    assert_eq!(info.source, "192.168.1.20");
    assert_eq!(info.destination, "93.184.216.34");
    assert_eq!(info.length, 74);
    let u = CapturedPacket { data: frame(0x0800, &ipv4(17, 8)), wire_len: 42 };
    assert_eq!(process_packet(&u).unwrap().protocol, "UDP");
}

#[test]
fn other_frames_are_skipped() {
    let short_tcp = CapturedPacket { data: frame(0x0800, &ipv4(6, 19)), wire_len: 1 };
    assert!(process_packet(&short_tcp).is_none());
    let icmp = CapturedPacket { data: frame(0x0800, &ipv4(1, 20)), wire_len: 1 };
    assert!(process_packet(&icmp).is_none());
    let arp = CapturedPacket { data: frame(0x0806, &ipv4(6, 20)), wire_len: 1 };
    assert!(process_packet(&arp).is_none());
    let tiny = CapturedPacket { data: vec![0; 13], wire_len: 1 };
    assert!(process_packet(&tiny).is_none());
    let no_ip = CapturedPacket { data: frame(0x0800, &[0x45; 19]), wire_len: 1 };
    assert!(process_packet(&no_ip).is_none());
}

#[test]
fn total_length_bounds_the_transport_payload() {
    // 20 bytes follow the header, but the total length says only 10 of them belong to it.
    let mut ip = ipv4(6, 20);
    ip[2] = 0;
    ip[3] = 30;
    let p = CapturedPacket { data: frame(0x0800, &ip), wire_len: 1 };
    assert!(process_packet(&p).is_none());
}

#[test]
fn capture_device_choice() {
    assert_eq!(select_capture_device(&vec![]), Err("No available network devices found.".to_string()));
    assert_eq!(
        select_capture_device(&vec!["lo".to_string(), "eth0".to_string()]),
        Err("Device 'en0' not found.".to_string())
    );
    assert_eq!(select_capture_device(&vec!["lo".to_string(), "en0".to_string()]), Ok(1));
}

#[test]
fn header_length_moves_the_transport_payload() {
    // A 24-byte header (IHL 6): the payload starts after the options.
    let mut ip = ipv4(6, 24);
    ip[0] = 0x46;
    let p = CapturedPacket { data: frame(0x0800, &ip), wire_len: 9 };
    assert_eq!(process_packet(&p).unwrap().protocol, "TCP");
    ip[2] = 0;
    ip[3] = 43; // 19 payload bytes after a 24-byte header
    let p = CapturedPacket { data: frame(0x0800, &ip), wire_len: 9 };
    assert!(process_packet(&p).is_none());
    // A header length below five words still leaves the payload at byte 20.
    let mut ip = ipv4(17, 8);
    ip[0] = 0x40;
    ip[2] = 0;
    ip[3] = 8;
    let p = CapturedPacket { data: frame(0x0800, &ip), wire_len: 9 };
    assert_eq!(process_packet(&p).unwrap().protocol, "UDP");
    ip[3] = 7;
    let p = CapturedPacket { data: frame(0x0800, &ip), wire_len: 9 };
    assert!(process_packet(&p).is_none());
}
