use finq::address::pubkey_to_bech32;
use finq::classify::{gen_kind, get_nonconfidential_balance};
use finq::format::report_make_readable;
use finq::model::{AddrKind, Operation, RawOutput, TraceConfig, Tx, XfrAmount, XfrAssetType};
use finq::round::RoundAccumulator;
use finq::tracer::{trace_with_ledger, LedgerRecord, Tracer};

fn key(b: u8) -> Vec<u8> {
    vec![b; 32]
}

fn addr(b: u8) -> String {
    pubkey_to_bech32(&key(b))
}

fn plain(to: u8, n: u64) -> RawOutput {
    RawOutput {
        public_key: key(to),
        asset_type: XfrAssetType::NonConfidential(vec![0u8; 32]),
        amount: XfrAmount::NonConfidential(n),
    }
}

fn hidden(to: u8) -> RawOutput {
    RawOutput {
        public_key: key(to),
        asset_type: XfrAssetType::Confidential,
        amount: XfrAmount::Confidential,
    }
}

fn transfer(height: u64, outs: Vec<RawOutput>) -> Tx {
    Tx { height, code: 0, operations: vec![Operation::TransferAsset(outs)] }
}

fn record(from: u8, txs: Vec<Tx>) -> LedgerRecord {
    LedgerRecord { addr: addr(from), txs }
}

#[test]
fn address_encoding() {
    assert_eq!(
        addr(0),
        "fra1qqqqqqqqqqqqqqqqqqqqqqqqqqqqqqqqqqqqqqqqqqqqqqqqqqqqp748k7"
    );
    assert_eq!(
        addr(1),
        "fra1qyqszqgpqyqszqgpqyqszqgpqyqszqgpqyqszqgpqyqszqgpqyqsyvvaqu"
    );
}

#[test]
fn depth_zero_is_empty() {
    let cfg = TraceConfig::mainnet();
    let ledger = vec![record(2, vec![transfer(10, vec![plain(3, 5)])])];
    let (report, fetched) = trace_with_ledger(&cfg, &vec![addr(2)], 0, &ledger);
    assert!(report.is_empty());
    assert!(fetched.is_empty());
    let t = Tracer::new(&vec![addr(2)], 0);
    assert!(t.is_done());
}

#[test]
fn one_round_plain_and_hidden() {
    let cfg = TraceConfig::mainnet();
    let ledger = vec![record(2, vec![transfer(10, vec![hidden(4), plain(3, 500_000)])])];
    let (mut report, _) = trace_with_ledger(&cfg, &vec![addr(2)], 1, &ledger);
    assert_eq!(report.len(), 1);
    let r = &report[0];
    assert_eq!(r.entries.len(), 2);
    assert_eq!(r.total_cnt, 2);
    assert_eq!(r.confidential_cnt, 1);
    assert_eq!(r.entries[0].addr, addr(3));
    assert_eq!(r.entries[0].non_confidential_amount, 500_000);
    assert_eq!(r.entries[0].confidential_cnt, 0);
    assert_eq!(r.entries[1].addr, addr(4));
    assert_eq!(r.entries[1].non_confidential_amount, 0);
    assert_eq!(r.entries[1].confidential_cnt, 1);
    report_make_readable(&mut report);
    assert_eq!(report[0].non_confidential_amount_readable, "0.5");
    assert_eq!(report[0].entries[0].non_confidential_amount_readable, "0.5");
}

#[test]
fn entries_sorted_descending() {
    let cfg = TraceConfig::mainnet();
    let ledger = vec![record(
        2,
        vec![
            transfer(10, vec![plain(3, 5), plain(4, 50), plain(5, 7)]),
            transfer(11, vec![plain(3, 100), plain(6, 7)]),
        ],
    )];
    let (report, _) = trace_with_ledger(&cfg, &vec![addr(2)], 1, &ledger);
    let amounts: Vec<u64> = report[0].entries.iter().map(|e| e.non_confidential_amount).collect();
    assert_eq!(amounts, vec![105, 50, 7, 7]);
    assert_eq!(report[0].entries[0].total_cnt, 2);
    assert_eq!(report[0].entries[2].addr, addr(5));
    assert_eq!(report[0].entries[3].addr, addr(6));
}

#[test]
fn self_transfer_not_followed() {
    let cfg = TraceConfig::mainnet();
    let ledger = vec![record(2, vec![transfer(10, vec![plain(2, 900), plain(3, 1)])])];
    let (report, fetched) = trace_with_ledger(&cfg, &vec![addr(2)], 3, &ledger);
    assert_eq!(report[0].entries.len(), 1);
    assert_eq!(report[0].entries[0].addr, addr(3));
    assert_eq!(fetched, vec![addr(2), addr(3)]);
}

#[test]
fn visited_never_fetched_again() {
    let cfg = TraceConfig::mainnet();
    let ledger = vec![
        record(2, vec![transfer(10, vec![plain(3, 1)])]),
        record(3, vec![transfer(11, vec![plain(2, 1), plain(4, 1)])]),
        record(4, vec![transfer(12, vec![plain(2, 1), plain(3, 1)])]),
    ];
    let (report, fetched) = trace_with_ledger(&cfg, &vec![addr(2), addr(2)], 5, &ledger);
    assert_eq!(fetched, vec![addr(2), addr(3), addr(4)]);
    assert_eq!(report.len(), 3);
    assert_eq!(report[2].entries.len(), 2);
}

#[test]
fn failed_transaction_contributes_nothing() {
    let cfg = TraceConfig::mainnet();
    let mut failed = transfer(10, vec![plain(3, 77)]);
    failed.code = 1;
    let mut acc = RoundAccumulator::new();
    acc.merge_txs(&cfg, &addr(2), &vec![failed]);
    assert!(acc.entries.is_empty());
    assert!(acc.frontier.is_empty());
    let report = acc.into_report();
    assert_eq!(report.total_cnt, 0);
}

#[test]
fn issuance_counted_and_other_ops_ignored() {
    let cfg = TraceConfig::mainnet();
    let t = Tx {
        height: 5,
        code: 0,
        operations: vec![Operation::Ignored, Operation::IssueAsset(vec![plain(3, 4)])],
    };
    let mut acc = RoundAccumulator::new();
    acc.merge_txs(&cfg, &addr(2), &vec![t]);
    assert_eq!(acc.entries.len(), 1);
    assert_eq!(acc.frontier, vec![addr(3)]);
}

#[test]
fn receiver_kinds() {
    let mut cfg = TraceConfig::mainnet();
    cfg.reserved.push(addr(5));
    assert_eq!(gen_kind(&cfg, &plain(0, 1)), AddrKind::FeeOrBurn);
    assert_eq!(gen_kind(&cfg, &plain(1, 1)), AddrKind::StakingOrEvmConversion);
    assert_eq!(gen_kind(&cfg, &plain(5, 1)), AddrKind::Reserved);
    assert_eq!(gen_kind(&cfg, &plain(6, 1)), AddrKind::Normal);
}

#[test]
fn other_asset_counted_as_hidden() {
    let cfg = TraceConfig::mainnet();
    let other = RawOutput {
        public_key: key(3),
        asset_type: XfrAssetType::NonConfidential(vec![9u8; 32]),
        amount: XfrAmount::NonConfidential(40),
    };
    assert_eq!(get_nonconfidential_balance(&cfg, &other), None);
    assert_eq!(get_nonconfidential_balance(&cfg, &plain(3, 40)), Some(40));
    let t = transfer(3, vec![other]);
    let mut acc = RoundAccumulator::new();
    acc.merge_txs(&cfg, &addr(2), &vec![t]);
    assert_eq!(acc.entries[0].confidential_cnt, 1);
    assert_eq!(acc.entries[0].non_confidential_amount, 0);
}

#[test]
fn tracer_steps_through_rounds() {
    let cfg = TraceConfig::mainnet();
    let mut t = Tracer::new(&vec![addr(2), addr(3), addr(2)], 2);
    assert_eq!(t.sources, vec![addr(2), addr(3)]);
    assert_eq!(t.pending(), Some(&addr(2)));
    t.record(&cfg, &vec![transfer(9, vec![plain(3, 10), plain(4, 20)])]);
    assert_eq!(t.pending(), Some(&addr(3)));
    t.record(&cfg, &vec![transfer(9, vec![plain(4, 5), hidden(5)])]);
    assert_eq!(t.pending(), None);
    t.close_round();
    assert_eq!(t.visited, vec![addr(2), addr(3)]);
    assert_eq!(t.sources, vec![addr(4), addr(5)]);
    assert_eq!(t.report.len(), 1);
    assert_eq!(t.report[0].total_cnt, 3);
    assert_eq!(t.report[0].confidential_cnt, 1);
    assert_eq!(t.report[0].entries[0].addr, addr(4));
    assert_eq!(t.report[0].entries[0].non_confidential_amount, 25);
    assert_eq!(t.report[0].entries[0].total_cnt, 2);
    t.record(&cfg, &vec![]);
    t.record(&cfg, &vec![]);
    t.close_round();
    assert!(t.is_done());
    assert_eq!(t.into_report().len(), 2);
}

#[test]
fn reserved_addresses_listed() {
    let r = finq::classify::reserved_addresses();
    assert_eq!(r.len(), 9);
    assert_eq!(r[0], "fra1s9c6p0656as48w8su2gxntc3zfuud7m66847j6yh7n8wezazws3s68p0m9");
    assert_eq!(r[8], "fra1dkn9w5c674grdl6gmvj0s8zs0z2nf39zrmp3dpq5rqnnf9axwjrqexqnd6");
    assert_eq!(TraceConfig::mainnet().reserved, r);
    assert!(addr(9).starts_with("fra1"));
}

#[test]
fn lookup_finds_first_record() {
    let ledger = vec![record(2, vec![]), record(3, vec![]), record(2, vec![transfer(1, vec![])])];
    assert_eq!(finq::tracer::lookup(&ledger, &addr(2)), Some(0));
    assert_eq!(finq::tracer::lookup(&ledger, &addr(3)), Some(1));
    assert_eq!(finq::tracer::lookup(&ledger, &addr(4)), None);
}
