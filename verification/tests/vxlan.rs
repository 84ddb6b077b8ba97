use calico::vxlan::{fmt_mac, parse_mac, DEVICE, MTU, PORT, VNI};

#[test]
fn mac_round_trips() {
    let bytes = [0x0a, 0x1b, 0x2c, 0x3d, 0x4e, 0x5f];
    let s = fmt_mac(&bytes);
    assert_eq!(s, "0a:1b:2c:3d:4e:5f");
    assert_eq!(parse_mac(&s).unwrap(), bytes);
}

#[test]
fn parse_mac_rejects_malformed() {
    assert!(parse_mac("aa:bb:cc").is_err());
    assert!(parse_mac("zz:bb:cc:dd:ee:ff").is_err());
}

#[test]
fn malformed_addresses_are_named() {
    assert_eq!(parse_mac("aa").unwrap_err(), "bad MAC \"aa\"");
    let e = parse_mac("zz:bb:cc:dd:ee:ff").unwrap_err();
    assert!(e.starts_with("bad MAC byte \"zz\": "));
    assert!(e.contains("invalid digit"));
    assert!(parse_mac("aa:bb:cc:dd:ee:").is_err());
    assert!(parse_mac("aa:bb:cc:dd:ee:100").is_err());
    assert_eq!(
        parse_mac("a:+b:CC:0dd:ee:0").unwrap(),
        [0x0a, 0x0b, 0xcc, 0xdd, 0xee, 0]
    );
    assert_eq!((DEVICE, VNI, PORT, MTU), ("vxlan.calico", 4096, 4789, 1450));
}
