use finq::format::{report_make_readable, round_make_readable, to_float_str};
use finq::model::AddrKind;
use finq::round::{Receiver, ReceiverSet};

fn entry(addr: &str, total: u64, conf: u64, amount: u64) -> Receiver {
    Receiver {
        addr: addr.to_string(),
        public_key: vec![7u8; 32],
        kind: AddrKind::Normal,
        total_cnt: total,
        confidential_cnt: conf,
        non_confidential_amount: amount,
        non_confidential_amount_readable: String::new(),
    }
}

#[test]
fn float_str_whole_unit() {
    assert_eq!(to_float_str(1_000_000), "1");
}

#[test]
fn float_str_half() {
    assert_eq!(to_float_str(1_500_000), "1.5");
}

#[test]
fn float_str_zero() {
    assert_eq!(to_float_str(0), "0");
}

#[test]
fn float_str_all_places() {
    assert_eq!(to_float_str(1_234_567), "1.234567");
}

#[test]
fn float_str_leading_fraction_zeros() {
    assert_eq!(to_float_str(1_000_001), "1.000001");
    assert_eq!(to_float_str(123), "0.000123");
    assert_eq!(to_float_str(500_000), "0.5");
}

#[test]
fn float_str_largest() {
    assert_eq!(to_float_str(u64::MAX), "18446744073709.551615");
}

#[test]
fn readable_totals_are_entry_sums() {
    let rs = ReceiverSet {
        total_cnt: 2,
        confidential_cnt: 1,
        non_confidential_amount_readable: String::new(),
        entries: vec![entry("b", 3, 0, 1_500_000), entry("c", 2, 1, 250_000)],
    };
    let out = round_make_readable(rs);
    assert_eq!(out.total_cnt, 5);
    assert_eq!(out.confidential_cnt, 1);
    assert_eq!(out.non_confidential_amount_readable, "1.75");
    assert_eq!(out.entries[0].non_confidential_amount_readable, "1.5");
    assert_eq!(out.entries[1].non_confidential_amount_readable, "0.25");
    assert_eq!(out.entries[0].addr, "b");
}

#[test]
fn readable_twice_is_same() {
    let mut report = vec![
        ReceiverSet {
            total_cnt: 2,
            confidential_cnt: 0,
            non_confidential_amount_readable: String::new(),
            entries: vec![entry("b", 1, 0, 10), entry("c", 4, 4, 0)],
        },
        ReceiverSet {
            total_cnt: 0,
            confidential_cnt: 0,
            non_confidential_amount_readable: String::new(),
            entries: vec![],
        },
    ];
    report_make_readable(&mut report);
    let first: Vec<(u64, u64, String)> = report
        .iter()
        .map(|r| (r.total_cnt, r.confidential_cnt, r.non_confidential_amount_readable.clone()))
        .collect();
    report_make_readable(&mut report);
    let second: Vec<(u64, u64, String)> = report
        .iter()
        .map(|r| (r.total_cnt, r.confidential_cnt, r.non_confidential_amount_readable.clone()))
        .collect();
    assert_eq!(first, second);
    assert_eq!(first[0], (5, 4, "0.00001".to_string()));
    assert_eq!(first[1], (0, 0, "0".to_string()));
}
