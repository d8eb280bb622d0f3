use desktop_defender::store::{
    device_key, format_date_added, hostname_lookups, hostname_updates, manufacturer_or_unknown,
    oui_record, oui_response, oui_rows, OuiListError, plan_device_insert, plan_network_insert, Device,
};

#[test]
fn device_plans() {
    assert!(plan_device_insert("a:b:c:d:e:f", "10.0.0.1", "M", "C", "0a:0b:0c:0d:0e:0f").is_none());
    let p = plan_device_insert("a:b:c:d:e:1", "10.0.0.7", "Apple", "US", "0a:0b:0c:0d:0e:0f").unwrap();
    assert_eq!(p.mac_key, "0a:0b:0c:0d:0e:01");
    assert_eq!(p.router_key, "0a:0b:0c:0d:0e:0f");
    assert_eq!(p.device.mac_address, "0a:0b:0c:0d:0e:01");
    assert_eq!(p.device.hostname, "Unknown");
    assert_eq!(p.device.ip_address, "10.0.0.7");
    assert_eq!(p.device.date_added.len(), 8);
    assert_eq!(device_key("1:2", "aa:bb"), ("01:02".to_string(), "aa:bb".to_string()));
    let n = plan_network_insert("a:b", "10.0.0.1", "M", "C");
    assert_eq!(n.mac_address, "0a:0b");
}

#[test]
fn date_format() {
    assert_eq!(format_date_added(3, 7, 2024), "03/07/24");
    assert_eq!(format_date_added(31, 12, 1999), "31/12/99");
    assert_eq!(format_date_added(1, 1, 2000), "01/01/00");
    assert_eq!(format_date_added(1, 1, -1), "01/01/99");
}

#[test]
fn defaults_for_unknown_manufacturers() {
    assert_eq!(manufacturer_or_unknown(None), ("Unknown".to_string(), "Unknown".to_string()));
    assert_eq!(
        manufacturer_or_unknown(Some(("Apple".to_string(), "US".to_string()))),
        ("Apple".to_string(), "US".to_string())
    );
    let r = oui_response(Some((Some("Cisco".to_string()), None)));
    assert_eq!((r.manufacturer.as_str(), r.country.as_str()), ("Cisco", "Unknown"));
    let r = oui_response(None);
    assert_eq!((r.manufacturer.as_str(), r.country.as_str()), ("Unknown", "Unknown"));
}

#[test]
fn oui_records() {
    let f = |v: &[&str]| v.iter().map(|s| s.to_string()).collect::<Vec<String>>();
    assert_eq!(oui_record(&f(&[])), Err("missing field 'oui'".to_string()));
    assert_eq!(oui_record(&f(&["00000C"])), Err("missing field 'manufacturer'".to_string()));
    assert_eq!(oui_record(&f(&["00000C", "Cisco"])), Err("missing field 'country'".to_string()));
    assert_eq!(
        oui_record(&f(&["00000C", "Cisco", "US", "x"])),
        Ok(("00000C".to_string(), "Cisco".to_string(), "US".to_string()))
    );
}

fn device(mac: &str, ip: &str, host: &str) -> Device {
    Device {
        mac_address: mac.to_string(),
        ip_address: ip.to_string(),
        hostname: host.to_string(),
        manufacturer: "M".to_string(),
        country: "C".to_string(),
        date_added: "01/01/24".to_string(),
    }
}

#[test]
fn hostname_sweep() {
    let devices = vec![
        device("01:01", "10.0.0.1", "Unknown"),
        device("02:02", "10.0.0.2", "tv.local."),
        device("03:03", "10.0.0.3", "Unknown"),
    ];
    let c = hostname_lookups(&devices);
    assert_eq!(
        c,
        vec![
            ("01:01".to_string(), "10.0.0.1".to_string()),
            ("03:03".to_string(), "10.0.0.3".to_string())
        ]
    );
    let (updates, found) = hostname_updates(&c, &vec!["Unknown".to_string(), "nas.local.".to_string()]);
    assert_eq!(updates, vec![("03:03".to_string(), "nas.local.".to_string())]);
    assert!(found);
    let (updates, found) = hostname_updates(&c, &vec!["Unknown".to_string(), "Unknown".to_string()]);
    assert!(updates.is_empty());
    assert!(!found);
}

#[test]
fn oui_rows_from_csv_bytes() {
    let rows = oui_rows(b"00000C,Cisco,US\n00000D,Fibronics,IL\n").ok().unwrap();
    assert_eq!(
        rows,
        vec![
            ("00000C".to_string(), "Cisco".to_string(), "US".to_string()),
            ("00000D".to_string(), "Fibronics".to_string(), "IL".to_string()),
        ]
    );
    assert!(oui_rows(b"").ok().unwrap().is_empty());
    match oui_rows(b"00000C,Cisco\n") {
        Err(OuiListError::MissingField(m)) => assert_eq!(m, "missing field 'country'"),
        _ => panic!("expected a missing field"),
    }
    match oui_rows(b"00000C,Cisco\n00000D,Fibronics,IL,X\n") {
        Err(OuiListError::MissingField(m)) => assert_eq!(m, "missing field 'country'"),
        _ => panic!("the short first record is reported before the csv error"),
    }
    match oui_rows(b"00000C,Cisco,US\n00000D,Fibronics\n") {
        Err(OuiListError::Csv(_)) => {}
        _ => panic!("expected a csv error for records of unequal length"),
    }
    match oui_rows(b"00000C,\xff\xfe,US\n") {
        Err(OuiListError::Csv(_)) => {}
        _ => panic!("expected a csv error for invalid UTF-8"),
    }
}
