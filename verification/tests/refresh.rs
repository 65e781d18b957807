use std::sync::Arc;

use iptoasn::handler::LookupResult;
use iptoasn::handler::VercelAsnHandler;
use iptoasn::holder::AsnsHolder;
use iptoasn::holder::get_asns;
use iptoasn::holder::update_asns;
use iptoasn::ip::Ip;
use iptoasn::record::BuildFailed;

fn one_record_dataset() -> Vec<u8> {
    b"1.0.0.0\t1.0.0.255\t13335\tUS\tCLOUDFLARENET\n".to_vec()
}

fn other_record_dataset() -> Vec<u8> {
    b"2.0.0.0\t2.0.0.255\t64500\tFR\tREPLACEMENT\n".to_vec()
}

fn holder_with_initial() -> AsnsHolder {
    AsnsHolder::new(get_asns(&one_record_dataset()).unwrap())
}

#[test]
fn successful_refresh_publishes_the_new_index() {
    let holder = holder_with_initial();
    assert!(update_asns(&holder, Some(other_record_dataset())).is_ok());
    let current = holder.current();
    assert!(current.lookup_by_ip(Ip::V4(16777344)).is_none());
    assert_eq!(current.lookup_by_ip(Ip::V4(33554500)).unwrap().number, 64500);
}

#[test]
fn failed_fetch_keeps_the_old_index() {
    let holder = holder_with_initial();
    let r = update_asns(&holder, None);
    assert!(matches!(r, Err(BuildFailed::FetchFailed)));
    let current = holder.current();
    assert_eq!(current.lookup_by_ip(Ip::V4(16777344)).unwrap().number, 13335);
}

#[test]
fn failed_build_keeps_the_old_index_answering_identically() {
    let holder = holder_with_initial();
    let bad = b"2.0.0.0\t2.0.0.255\tnope\tFR\tBROKEN\n".to_vec();
    let r = update_asns(&holder, Some(bad));
    assert!(matches!(r, Err(BuildFailed::MalformedRecord(_))));
    let current = holder.current();
    let rec = current.lookup_by_ip(Ip::V4(16777344)).unwrap();
    assert_eq!(rec.number, 13335);
    assert_eq!(rec.country, b"US".to_vec());
    assert!(current.lookup_by_ip(Ip::V4(33554500)).is_none());
}

#[test]
fn earlier_handle_still_answers_after_a_publish() {
    let holder = holder_with_initial();
    let before = holder.current();
    assert!(update_asns(&holder, Some(other_record_dataset())).is_ok());
    let after = holder.current();
    // the old snapshot is immutable and fully consistent
    assert_eq!(before.lookup_by_ip(Ip::V4(16777344)).unwrap().number, 13335);
    assert!(before.lookup_by_ip(Ip::V4(33554500)).is_none());
    // the new one answers from the new record set
    assert!(after.lookup_by_ip(Ip::V4(16777344)).is_none());
    assert_eq!(after.lookup_by_ip(Ip::V4(33554500)).unwrap().number, 64500);
}

#[test]
fn handler_reports_announced_fields() {
    let handler = VercelAsnHandler { asns_arc: Arc::new(holder_with_initial()) };
    let rep = handler.ip_lookup(b"1.0.0.128").unwrap();
    assert_eq!(rep.ip, Ip::V4(16777344));
    match rep.result {
        LookupResult::Announced(rec) => {
            assert_eq!(rec.first_ip, Ip::V4(16777216));
            assert_eq!(rec.last_ip, Ip::V4(16777471));
            assert_eq!(rec.number, 13335);
            assert_eq!(rec.country, b"US".to_vec());
            assert_eq!(rec.description, b"CLOUDFLARENET".to_vec());
        },
        LookupResult::Unannounced => panic!("expected an announced address"),
    }
}

#[test]
fn handler_reports_a_miss() {
    let handler = VercelAsnHandler { asns_arc: Arc::new(holder_with_initial()) };
    let rep = handler.ip_lookup(b"8.8.8.8").unwrap();
    assert_eq!(rep.ip, Ip::V4(134744072));
    assert!(matches!(rep.result, LookupResult::Unannounced));
}

#[test]
fn handler_rejects_invalid_address_text() {
    let handler = VercelAsnHandler { asns_arc: Arc::new(holder_with_initial()) };
    assert!(handler.ip_lookup(b"not-an-ip").is_err());
    assert!(handler.ip_lookup(b"").is_err());
    assert!(handler.ip_lookup(b"1.0.0.256").is_err());
}

#[test]
fn handler_answers_for_both_families() {
    let data = b"1.0.0.0\t1.0.0.255\t100\tUS\tFOUR\n2001:db8::\t2001:db8::ff\t64496\tZZ\tSIX\n"
        .to_vec();
    let handler = VercelAsnHandler {
        asns_arc: Arc::new(AsnsHolder::new(get_asns(&data).unwrap())),
    };
    let rep = handler.ip_lookup(b"2001:db8::42").unwrap();
    match rep.result {
        LookupResult::Announced(rec) => assert_eq!(rec.number, 64496),
        LookupResult::Unannounced => panic!("expected an announced v6 address"),
    }
}

#[test]
fn overlapping_refresh_keeps_the_old_index() {
    let holder = holder_with_initial();
    let bad = b"2.0.0.0\t2.0.0.255\t200\tFR\tA\n2.0.0.128\t2.0.1.0\t201\tFR\tB\n".to_vec();
    let r = update_asns(&holder, Some(bad));
    assert!(matches!(r, Err(BuildFailed::OverlapDetected)));
    assert_eq!(holder.current().lookup_by_ip(Ip::V4(16777344)).unwrap().number, 13335);
}
