use iptoasn::ip::Ip;
use iptoasn::ip::parse_ip;
use iptoasn::ip::parse_ipv4;
use iptoasn::ip::parse_ipv6;
use iptoasn::text::parse_u32;
use iptoasn::text::split_bytes;

#[test]
fn dotted_quads_parse_to_their_value() {
    assert_eq!(parse_ipv4(b"0.0.0.0"), Some(0));
    assert_eq!(parse_ipv4(b"1.2.3.4"), Some(16909060));
    assert_eq!(parse_ipv4(b"255.255.255.255"), Some(4294967295));
    assert_eq!(parse_ipv4(b"8.8.8.8"), Some(134744072));
}

#[test]
fn bad_dotted_quads_are_rejected() {
    assert_eq!(parse_ipv4(b""), None);
    assert_eq!(parse_ipv4(b"1.2.3"), None);
    assert_eq!(parse_ipv4(b"1.2.3.4.5"), None);
    assert_eq!(parse_ipv4(b"1.2.3.256"), None);
    assert_eq!(parse_ipv4(b"01.2.3.4"), None);
    assert_eq!(parse_ipv4(b"1.2.3.04"), None);
    assert_eq!(parse_ipv4(b"1.2.3."), None);
    assert_eq!(parse_ipv4(b".1.2.3"), None);
    assert_eq!(parse_ipv4(b"1.2.3.4 "), None);
    assert_eq!(parse_ipv4(b"a.b.c.d"), None);
}

#[test]
fn six_groups_forms_parse_to_their_value() {
    assert_eq!(parse_ipv6(b"::"), Some(0));
    assert_eq!(parse_ipv6(b"::1"), Some(1));
    assert_eq!(parse_ipv6(b"1::"), Some(1u128 << 112));
    assert_eq!(parse_ipv6(b"1::2"), Some((1u128 << 112) + 2));
    assert_eq!(
        parse_ipv6(b"1:2:3:4:5:6:7:8"),
        Some(
            (1u128 << 112) | (2u128 << 96) | (3u128 << 80) | (4u128 << 64) | (5u128 << 48)
                | (6u128 << 32) | (7u128 << 16) | 8,
        ),
    );
    assert_eq!(parse_ipv6(b"2001:db8::ff"), Some((0x2001u128 << 112) | (0xdb8u128 << 96) | 0xff));
    assert_eq!(parse_ipv6(b"ffff:ffff:ffff:ffff:ffff:ffff:ffff:ffff"), Some(u128::MAX));
    assert_eq!(parse_ipv6(b"1:2:3:4:5:6:7::"), Some(parse_ipv6(b"1:2:3:4:5:6:7:0").unwrap()));
    assert_eq!(parse_ipv6(b"::1:2:3:4:5:6:7"), Some(parse_ipv6(b"0:1:2:3:4:5:6:7").unwrap()));
    assert_eq!(parse_ipv6(b"AbCd::"), Some(0xabcdu128 << 112));
}

#[test]
fn bad_six_forms_are_rejected() {
    assert_eq!(parse_ipv6(b""), None);
    assert_eq!(parse_ipv6(b":"), None);
    assert_eq!(parse_ipv6(b":::"), None);
    assert_eq!(parse_ipv6(b"1"), None);
    assert_eq!(parse_ipv6(b"1:2:3:4:5:6:7"), None);
    assert_eq!(parse_ipv6(b"1:2:3:4:5:6:7:8:9"), None);
    assert_eq!(parse_ipv6(b"1:2:3:4:5:6:7::8"), None);
    assert_eq!(parse_ipv6(b"12345::"), None);
    assert_eq!(parse_ipv6(b"g::"), None);
    assert_eq!(parse_ipv6(b"1::2::3"), None);
    assert_eq!(parse_ipv6(b"1:"), None);
    assert_eq!(parse_ipv6(b":1"), None);
}

#[test]
fn families_are_told_apart() {
    assert_eq!(parse_ip(b"1.2.3.4"), Some(Ip::V4(16909060)));
    assert_eq!(parse_ip(b"::1"), Some(Ip::V6(1)));
    assert_eq!(parse_ip(b"not an address"), None);
}

#[test]
fn decimal_fields_parse_exactly() {
    assert_eq!(parse_u32(b"0"), Some(0));
    assert_eq!(parse_u32(b"007"), Some(7));
    assert_eq!(parse_u32(b"13335"), Some(13335));
    assert_eq!(parse_u32(b"4294967295"), Some(4294967295));
    assert_eq!(parse_u32(b"4294967296"), None);
    assert_eq!(parse_u32(b""), None);
    assert_eq!(parse_u32(b"-1"), None);
    assert_eq!(parse_u32(b"1 "), None);
}

#[test]
fn splitting_keeps_every_piece() {
    let pieces = split_bytes(b"a\tbb\t\tc", 9);
    let views: Vec<Vec<u8>> = pieces;
    assert_eq!(views.len(), 4);
    assert_eq!(views[0], b"a".to_vec());
    assert_eq!(views[1], b"bb".to_vec());
    assert_eq!(views[2], b"".to_vec());
    assert_eq!(views[3], b"c".to_vec());
    assert_eq!(split_bytes(b"", 9).len(), 1);
}
