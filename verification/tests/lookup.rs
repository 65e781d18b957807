use iptoasn::index::ASNs;
use iptoasn::ip::Ip;
use iptoasn::ip::parse_ip;
use iptoasn::record::BuildFailed;

fn dataset(lines: &[&str]) -> Vec<u8> {
    let mut out = String::new();
    for l in lines {
        out.push_str(l);
        out.push('\n');
    }
    out.into_bytes()
}

#[test]
fn announced_address_returns_record() {
    let data = dataset(&["1.0.0.0\t1.0.0.255\t13335\tUS\tCLOUDFLARENET"]);
    let asns = ASNs::new(&data).unwrap();
    let rec = asns.lookup_by_ip(Ip::V4(16777344)).unwrap();
    assert_eq!(rec.first_ip, Ip::V4(16777216));
    assert_eq!(rec.last_ip, Ip::V4(16777471));
    assert_eq!(rec.number, 13335);
    assert_eq!(rec.country, b"US".to_vec());
    assert_eq!(rec.description, b"CLOUDFLARENET".to_vec());
}

#[test]
fn uncovered_address_is_unannounced() {
    let data = dataset(&["1.0.0.0\t1.0.0.255\t13335\tUS\tCLOUDFLARENET"]);
    let asns = ASNs::new(&data).unwrap();
    // 8.8.8.8
    assert!(asns.lookup_by_ip(Ip::V4(134744072)).is_none());
}

#[test]
fn range_bounds_are_inclusive() {
    let data = dataset(&["1.0.0.0\t1.0.0.255\t13335\tUS\tCLOUDFLARENET"]);
    let asns = ASNs::new(&data).unwrap();
    assert!(asns.lookup_by_ip(Ip::V4(16777216)).is_some());
    assert!(asns.lookup_by_ip(Ip::V4(16777471)).is_some());
    assert!(asns.lookup_by_ip(Ip::V4(16777215)).is_none());
    assert!(asns.lookup_by_ip(Ip::V4(16777472)).is_none());
}

#[test]
fn as_zero_rows_are_excluded() {
    let data = dataset(&["0.0.0.0\t0.255.255.255\t0\tNone\tNot routed"]);
    let asns = ASNs::new(&data).unwrap();
    assert!(asns.lookup_by_ip(Ip::V4(1)).is_none());
}

#[test]
fn unsorted_dataset_is_sorted_on_build() {
    let data = dataset(&[
        "9.0.0.0\t9.0.0.255\t300\tDE\tTHIRD",
        "1.0.0.0\t1.0.0.255\t100\tUS\tFIRST",
        "5.0.0.0\t5.0.0.255\t200\tFR\tSECOND",
    ]);
    let asns = ASNs::new(&data).unwrap();
    assert_eq!(asns.lookup_by_ip(parse_ip(b"1.0.0.7").unwrap()).unwrap().number, 100);
    assert_eq!(asns.lookup_by_ip(parse_ip(b"5.0.0.7").unwrap()).unwrap().number, 200);
    assert_eq!(asns.lookup_by_ip(parse_ip(b"9.0.0.7").unwrap()).unwrap().number, 300);
    assert!(asns.lookup_by_ip(parse_ip(b"4.0.0.1").unwrap()).is_none());
}

#[test]
fn binary_search_agrees_with_linear_scan() {
    let data = dataset(&[
        "1.0.0.0\t1.0.0.255\t100\tUS\tA",
        "2.0.0.0\t2.0.0.255\t200\tUS\tB",
        "3.0.0.0\t3.0.0.255\t300\tUS\tC",
        "4.0.0.0\t4.0.0.255\t400\tUS\tD",
        "5.0.0.0\t5.0.0.255\t500\tUS\tE",
    ]);
    let asns = ASNs::new(&data).unwrap();
    let records = [
        (16777216u32, 16777471u32, 100u32),
        (33554432, 33554687, 200),
        (50331648, 50331903, 300),
        (67108864, 67109119, 400),
        (83886080, 83886335, 500),
    ];
    for probe in [0u32, 16777216, 16777300, 16777471, 16777472, 33554500, 50331648, 83886335,
        83886336, 4294967295] {
        let linear = records.iter().find(|(lo, hi, _)| *lo <= probe && probe <= *hi);
        let found = asns.lookup_by_ip(Ip::V4(probe));
        match (linear, found) {
            (None, None) => {},
            (Some((_, _, n)), Some(rec)) => assert_eq!(rec.number, *n),
            _ => panic!("binary search disagrees with linear scan at {}", probe),
        }
    }
}

#[test]
fn families_do_not_mix() {
    let data = dataset(&[
        "1.0.0.0\t1.0.0.255\t100\tUS\tFOUR",
        "2001:db8::\t2001:db8::ff\t64496\tZZ\tSIX",
    ]);
    let asns = ASNs::new(&data).unwrap();
    let v6 = parse_ip(b"2001:db8::7f").unwrap();
    assert_eq!(asns.lookup_by_ip(v6).unwrap().number, 64496);
    // a v6 address numerically inside the v4 range is still a miss
    assert!(asns.lookup_by_ip(Ip::V6(16777344)).is_none());
    assert!(asns.lookup_by_ip(Ip::V4(16777344)).is_some());
}

#[test]
fn malformed_as_number_fails_whole_build() {
    let data = dataset(&[
        "1.0.0.0\t1.0.0.255\t100\tUS\tGOOD",
        "2.0.0.0\t2.0.0.255\tnope\tUS\tBAD",
        "3.0.0.0\t3.0.0.255\t300\tUS\tGOOD",
    ]);
    match ASNs::new(&data) {
        Err(BuildFailed::MalformedRecord(line)) => {
            assert_eq!(line, b"2.0.0.0\t2.0.0.255\tnope\tUS\tBAD".to_vec());
        },
        _ => panic!("expected the build to fail on the malformed line"),
    }
}

#[test]
fn reversed_bounds_are_malformed() {
    let data = dataset(&["1.0.0.255\t1.0.0.0\t100\tUS\tBACKWARDS"]);
    assert!(matches!(ASNs::new(&data), Err(BuildFailed::MalformedRecord(_))));
}

#[test]
fn mixed_family_bounds_are_malformed() {
    let data = dataset(&["1.0.0.0\t2001:db8::ff\t100\tUS\tMIXED"]);
    assert!(matches!(ASNs::new(&data), Err(BuildFailed::MalformedRecord(_))));
}

#[test]
fn wrong_field_count_is_malformed() {
    let data = dataset(&["1.0.0.0\t1.0.0.255\t100\tUS"]);
    assert!(matches!(ASNs::new(&data), Err(BuildFailed::MalformedRecord(_))));
}

#[test]
fn as_number_overflow_is_malformed() {
    let data = dataset(&["1.0.0.0\t1.0.0.255\t4294967296\tUS\tTOOBIG"]);
    assert!(matches!(ASNs::new(&data), Err(BuildFailed::MalformedRecord(_))));
    let fits = dataset(&["1.0.0.0\t1.0.0.255\t4294967295\tUS\tFITS"]);
    assert!(ASNs::new(&fits).is_ok());
}

#[test]
fn overlapping_ranges_fail_the_build() {
    let data = dataset(&[
        "1.0.0.0\t1.0.0.255\t100\tUS\tA",
        "1.0.0.128\t1.0.1.0\t200\tUS\tB",
    ]);
    assert!(matches!(ASNs::new(&data), Err(BuildFailed::OverlapDetected)));
}

#[test]
fn duplicate_ranges_fail_the_build() {
    let data = dataset(&[
        "1.0.0.0\t1.0.0.255\t100\tUS\tA",
        "1.0.0.0\t1.0.0.255\t100\tUS\tA",
    ]);
    assert!(matches!(ASNs::new(&data), Err(BuildFailed::OverlapDetected)));
}

#[test]
fn touching_ranges_are_accepted() {
    let data = dataset(&[
        "1.0.0.0\t1.0.0.255\t100\tUS\tA",
        "1.0.1.0\t1.0.1.255\t200\tUS\tB",
    ]);
    let asns = ASNs::new(&data).unwrap();
    assert_eq!(asns.lookup_by_ip(parse_ip(b"1.0.0.255").unwrap()).unwrap().number, 100);
    assert_eq!(asns.lookup_by_ip(parse_ip(b"1.0.1.0").unwrap()).unwrap().number, 200);
}

#[test]
fn empty_dataset_builds_an_empty_index() {
    let asns = ASNs::new(b"").unwrap();
    assert!(asns.lookup_by_ip(Ip::V4(0)).is_none());
    assert!(asns.lookup_by_ip(Ip::V6(0)).is_none());
}

#[test]
fn dataset_without_trailing_newline_builds() {
    let data = b"1.0.0.0\t1.0.0.255\t13335\tUS\tCLOUDFLARENET".to_vec();
    let asns = ASNs::new(&data).unwrap();
    assert!(asns.lookup_by_ip(Ip::V4(16777344)).is_some());
}

#[test]
fn description_keeps_its_exact_bytes() {
    let data = dataset(&["1.0.0.0\t1.0.0.255\t13335\tUS\tCLOUDFLARENET - Cloudflare, Inc."]);
    let asns = ASNs::new(&data).unwrap();
    let rec = asns.lookup_by_ip(Ip::V4(16777344)).unwrap();
    assert_eq!(rec.description, b"CLOUDFLARENET - Cloudflare, Inc.".to_vec());
}

#[test]
fn v6_overlap_fails_the_build() {
    let data = dataset(&[
        "2001:db8::\t2001:db8::ff\t64496\tZZ\tA",
        "2001:db8::80\t2001:db8::1ff\t64497\tZZ\tB",
    ]);
    assert!(matches!(ASNs::new(&data), Err(BuildFailed::OverlapDetected)));
}

#[test]
fn compressed_v6_rows_build_and_answer() {
    let data = dataset(&[
        "::1\t::1\t64498\tZZ\tLOOPBACK",
        "100::\t100::ffff\t64499\tZZ\tDISCARD",
    ]);
    let asns = ASNs::new(&data).unwrap();
    assert_eq!(asns.lookup_by_ip(parse_ip(b"::1").unwrap()).unwrap().number, 64498);
    assert_eq!(asns.lookup_by_ip(parse_ip(b"100::7").unwrap()).unwrap().number, 64499);
    assert!(asns.lookup_by_ip(parse_ip(b"::2").unwrap()).is_none());
}

#[test]
fn leading_zero_octet_in_dataset_is_malformed() {
    let data = dataset(&["01.0.0.0\t1.0.0.255\t100\tUS\tPADDED"]);
    assert!(matches!(ASNs::new(&data), Err(BuildFailed::MalformedRecord(_))));
}
