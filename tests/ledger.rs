use finq::ledger::{days_to_start_height, keep_recent_successful, parse_u64, start_height, Pager};
use finq::model::Tx;

fn tx(height: u64, code: u64) -> Tx {
    Tx { height, code, operations: vec![] }
}

fn page(from: u64, n: u64) -> Vec<Tx> {
    (0..n).map(|i| tx(from - i, 0)).collect()
}

#[test]
fn days_to_blocks() {
    assert_eq!(days_to_start_height(0), 5400);
    assert_eq!(days_to_start_height(1), 5400);
    assert_eq!(days_to_start_height(7), 37800);
}

#[test]
fn start_height_saturates() {
    assert_eq!(start_height(100, 7), 0);
    assert_eq!(start_height(100_000, 1), 94_600);
    assert_eq!(start_height(37_800, 7), 0);
}

#[test]
fn keeps_recent_successful_in_order() {
    let txs = vec![tx(50, 0), tx(40, 1), tx(30, 0), tx(20, 0), tx(10, 0)];
    let kept = keep_recent_successful(txs, 20);
    let heights: Vec<u64> = kept.iter().map(|t| t.height).collect();
    assert_eq!(heights, vec![50, 30]);
}

#[test]
fn pages_until_total_received() {
    let mut p = Pager::new(0, 250, page(1000, 100));
    assert_eq!(p.next_page(), Some(2));
    p.add_page(page(900, 100));
    assert_eq!(p.next_page(), Some(3));
    p.add_page(page(800, 50));
    assert_eq!(p.txs.len(), 250);
    assert_eq!(p.next_page(), None);
    let kept = p.finish();
    assert_eq!(kept.len(), 250);
}

#[test]
fn pages_stop_at_cutoff() {
    let p = Pager::new(950, 250, page(1000, 100));
    assert_eq!(p.next_page(), None);
    let kept = p.finish();
    assert_eq!(kept.len(), 50);
    assert!(kept.iter().all(|t| t.height > 950));
}

#[test]
fn pages_stop_on_empty_page() {
    let mut p = Pager::new(0, 250, page(1000, 100));
    p.add_page(vec![]);
    assert_eq!(p.next_page(), None);
}

#[test]
fn failed_transactions_dropped() {
    let p = Pager::new(0, 3, vec![tx(9, 0), tx(8, 5), tx(7, 0)]);
    let kept = p.finish();
    let heights: Vec<u64> = kept.iter().map(|t| t.height).collect();
    assert_eq!(heights, vec![9, 7]);
}

#[test]
fn parses_service_numbers() {
    assert_eq!(parse_u64("250"), Some(250));
    assert_eq!(parse_u64("0"), Some(0));
    assert_eq!(parse_u64("18446744073709551615"), Some(u64::MAX));
    assert_eq!(parse_u64("18446744073709551616"), None);
    assert_eq!(parse_u64(""), None);
    assert_eq!(parse_u64("12a"), None);
    assert_eq!(parse_u64("-1"), None);
}
