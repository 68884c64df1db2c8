use raw_ether::mac::{copy_ifname, parse_mac};

#[test]
fn parse_mac_upper_case() {
    assert_eq!(parse_mac("AC:B5:7D:06:40:49"), Some([0xAC, 0xB5, 0x7D, 0x06, 0x40, 0x49]));
}

#[test]
fn parse_mac_lower_case_and_short_fields() {
    assert_eq!(parse_mac("de:ad:be:ef:0:1"), Some([0xDE, 0xAD, 0xBE, 0xEF, 0x00, 0x01]));
    assert_eq!(parse_mac("1:2:3:4:5:6"), Some([1, 2, 3, 4, 5, 6]));
}

#[test]
fn parse_mac_accepts_what_from_str_radix_accepts() {
    // a leading plus sign and leading zeros are accepted by u8::from_str_radix
    assert_eq!(parse_mac("+a:00ff:0:0:0:0"), Some([0x0A, 0xFF, 0, 0, 0, 0]));
}

#[test]
fn parse_mac_wrong_field_count() {
    assert_eq!(parse_mac("AA:BB:CC:DD:EE"), None);
    assert_eq!(parse_mac("AA:BB:CC:DD:EE:FF:00"), None);
    assert_eq!(parse_mac("AA:BB:CC:DD:EE:FF:"), None);
    assert_eq!(parse_mac(""), None);
    assert_eq!(parse_mac("AABBCCDDEEFF"), None);
}

#[test]
fn parse_mac_bad_fields() {
    assert_eq!(parse_mac("AA::CC:DD:EE:FF"), None);
    assert_eq!(parse_mac("100:BB:CC:DD:EE:FF"), None);
    assert_eq!(parse_mac("G0:BB:CC:DD:EE:FF"), None);
    assert_eq!(parse_mac("-1:BB:CC:DD:EE:FF"), None);
    assert_eq!(parse_mac("+:BB:CC:DD:EE:FF"), None);
    assert_eq!(parse_mac(" AA:BB:CC:DD:EE:FF"), None);
    assert_eq!(parse_mac("AA:BB:CC:DD:EE:FÉ"), None);
}

#[test]
fn parse_mac_agrees_with_split_and_from_str_radix() {
    let samples = [
        "AC:B5:7D:06:40:49", "ff:ff:ff:ff:ff:ff", "0:0:0:0:0:0", "+1:2:3:4:5:6", "1:2:3", "::::::",
        "12:34:56:78:9a:bc:", "fff:1:2:3:4:5", "a:b:c:d:e:f", "00000000001:2:3:4:5:6",
    ];
    for s in samples {
        let parts: Vec<&str> = s.split(':').collect();
        let expected = if parts.len() != 6 {
            None
        } else {
            let mut mac = [0u8; 6];
            let mut ok = true;
            for (i, p) in parts.iter().enumerate() {
                match u8::from_str_radix(p, 16) {
                    Ok(v) => mac[i] = v,
                    Err(_) => ok = false,
                }
            }
            if ok { Some(mac) } else { None }
        };
        assert_eq!(parse_mac(s), expected, "input {:?}", s);
    }
}

#[test]
fn copy_ifname_short_name() {
    let mut field = [0xAAu8; 16];
    copy_ifname(&mut field, "lo");
    assert_eq!(&field[..2], b"lo");
    assert!(field[2..].iter().all(|&b| b == 0));
}

#[test]
fn copy_ifname_truncates_long_name() {
    let mut field = [0u8; 16];
    copy_ifname(&mut field, "a-very-long-interface-name");
    assert_eq!(&field[..15], b"a-very-long-int");
    assert_eq!(field[15], 0);
}

#[test]
fn copy_ifname_exact_fit() {
    let mut field = [9u8; 16];
    copy_ifname(&mut field, "fifteen-chars!!");
    assert_eq!(&field[..15], b"fifteen-chars!!");
    assert_eq!(field[15], 0);
}

#[test]
fn formatted_mac_parses_back() {
    let macs = [[0u8; 6], [0xFF; 6], [0xDE, 0xAD, 0xBE, 0xEF, 0x00, 0x01], [0x0A, 0xB0, 0x1C, 0xD2, 0x3E, 0xF4]];
    for m in macs {
        let upper = format!("{:02X}:{:02X}:{:02X}:{:02X}:{:02X}:{:02X}", m[0], m[1], m[2], m[3], m[4], m[5]);
        assert_eq!(parse_mac(&upper), Some(m));
        assert_eq!(parse_mac(&upper.to_lowercase()), Some(m));
    }
}
