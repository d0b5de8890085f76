use crate::address::{address_of, pubkey_to_bech32};
use crate::classify::{gen_kind, get_nonconfidential_balance, kind_of, plain_amount};
use crate::model::{
    contains_str, contains_string, copy_bytes, op_outputs, sat_add, AddrKind, Operation,
    RawOutput, TraceConfig, Tx,
};
use vstd::prelude::*;

verus! {

/// One receiver of a round: its address and key, its kind, how many outputs it
/// received, how many of those were not counted, and the sum of the counted
/// ones.
#[derive(Debug)]
pub struct Receiver {
    pub addr: String,
    pub public_key: Vec<u8>,
    pub kind: AddrKind,
    pub total_cnt: u64,
    pub confidential_cnt: u64,
    pub non_confidential_amount: u64,
    pub non_confidential_amount_readable: String,
}

/// What a receiver entry holds, in mathematical terms.
pub struct ReceiverView {
    pub addr: Seq<char>,
    pub public_key: Seq<u8>,
    pub kind: AddrKind,
    pub total_cnt: u64,
    pub confidential_cnt: u64,
    pub non_confidential_amount: u64,
}

impl View for Receiver {
    type V = ReceiverView;

    open spec fn view(&self) -> ReceiverView {
        ReceiverView {
            addr: self.addr@,
            public_key: self.public_key@,
            kind: self.kind,
            total_cnt: self.total_cnt,
            confidential_cnt: self.confidential_cnt,
            non_confidential_amount: self.non_confidential_amount,
        }
    }
}

/// The report of one round.
#[derive(Debug)]
pub struct ReceiverSet {
    pub total_cnt: u64,
    pub confidential_cnt: u64,
    pub non_confidential_amount_readable: String,
    pub entries: Vec<Receiver>,
}

/// The state of a round in progress: one entry per receiver key, in the order
/// first seen, and the addresses found so far, each once.
pub struct RoundView {
    pub entries: Seq<ReceiverView>,
    pub frontier: Seq<Seq<char>>,
}

/// Accumulates the outputs of a round.
pub struct RoundAccumulator {
    pub entries: Vec<Receiver>,
    pub frontier: Vec<String>,
}

impl View for RoundAccumulator {
    type V = RoundView;

    open spec fn view(&self) -> RoundView {
        RoundView {
            entries: self.entries@.map_values(|r: Receiver| r@),
            frontier: self.frontier@.map_values(|s: String| s@),
        }
    }
}

/// A round before any output.
pub open spec fn empty_round() -> RoundView {
    RoundView { entries: Seq::empty(), frontier: Seq::empty() }
}

/// The views of a sequence of entries.
pub open spec fn views(s: Seq<Receiver>) -> Seq<ReceiverView> {
    s.map_values(|e: Receiver| e@)
}

/// Whether `i` is the first index of an entry with key `pk`.
pub open spec fn is_first_key(entries: Seq<ReceiverView>, pk: Seq<u8>, i: int) -> bool {
    &&& 0 <= i < entries.len()
    &&& entries[i].public_key == pk
    &&& forall|j: int| 0 <= j < i ==> (#[trigger] entries[j]).public_key != pk
}

/// The index of the entry with key `pk`, or -1 when there is none.
pub open spec fn key_index(entries: Seq<ReceiverView>, pk: Seq<u8>) -> int {
    if exists|i: int| is_first_key(entries, pk, i) {
        choose|i: int| is_first_key(entries, pk, i)
    } else {
        -1
    }
}

/// An entry before any output is counted.
pub open spec fn fresh_entry(addr: Seq<char>, pk: Seq<u8>, kind: AddrKind) -> ReceiverView {
    ReceiverView {
        addr,
        public_key: pk,
        kind,
        total_cnt: 0,
        confidential_cnt: 0,
        non_confidential_amount: 0,
    }
}

/// An entry after one more output, whose counted amount is `amt`.
pub open spec fn bump(r: ReceiverView, amt: Option<u64>) -> ReceiverView {
    ReceiverView {
        total_cnt: sat_add(r.total_cnt, 1),
        confidential_cnt: if amt is Some {
            r.confidential_cnt
        } else {
            sat_add(r.confidential_cnt, 1)
        },
        non_confidential_amount: match amt {
            Some(n) => sat_add(r.non_confidential_amount, n),
            None => r.non_confidential_amount,
        },
        ..r
    }
}

/// A round after one output of a transaction sent by `source`. An output back
/// to the source changes nothing.
pub open spec fn merge_spec(
    st: RoundView,
    cfg: &TraceConfig,
    source: Seq<char>,
    o: RawOutput,
) -> RoundView {
    let addr = address_of(o.public_key@);
    if addr == source {
        st
    } else {
        let amt = plain_amount(cfg, o);
        let i = key_index(st.entries, o.public_key@);
        RoundView {
            entries: if i >= 0 {
                st.entries.update(i, bump(st.entries[i], amt))
            } else {
                st.entries.push(
                    bump(fresh_entry(addr, o.public_key@, kind_of(cfg, o.public_key@)), amt),
                )
            },
            frontier: if st.frontier.contains(addr) {
                st.frontier
            } else {
                st.frontier.push(addr)
            },
        }
    }
}

/// A round after the outputs `outs`, in order.
pub open spec fn fold_outputs(
    st: RoundView,
    cfg: &TraceConfig,
    source: Seq<char>,
    outs: Seq<RawOutput>,
) -> RoundView
    decreases outs.len(),
{
    if outs.len() == 0 {
        st
    } else {
        merge_spec(fold_outputs(st, cfg, source, outs.drop_last()), cfg, source, outs.last())
    }
}

/// A round after the operations `ops`, in order.
pub open spec fn fold_ops(
    st: RoundView,
    cfg: &TraceConfig,
    source: Seq<char>,
    ops: Seq<Operation>,
) -> RoundView
    decreases ops.len(),
{
    if ops.len() == 0 {
        st
    } else {
        fold_outputs(fold_ops(st, cfg, source, ops.drop_last()), cfg, source, op_outputs(ops.last()))
    }
}

/// A round after the transactions `txs` of `source`, in order; a transaction
/// that failed contributes nothing.
pub open spec fn fold_txs(st: RoundView, cfg: &TraceConfig, source: Seq<char>, txs: Seq<Tx>) -> RoundView
    decreases txs.len(),
{
    if txs.len() == 0 {
        st
    } else {
        let prev = fold_txs(st, cfg, source, txs.drop_last());
        if txs.last().code == 0 {
            fold_ops(prev, cfg, source, txs.last().operations@)
        } else {
            prev
        }
    }
}

/// A transaction whose result code is not 0 contributes no output: the round is
/// the same with or without it.
pub proof fn lemma_failed_tx_ignored(
    st: RoundView,
    cfg: &TraceConfig,
    source: Seq<char>,
    txs: Seq<Tx>,
    t: Tx,
)
    requires
        t.code != 0,
    ensures
        fold_txs(st, cfg, source, txs.push(t)) == fold_txs(st, cfg, source, txs),
{
    assert(txs.push(t).drop_last() =~= txs);
}

/// An output back to the sender of its transaction changes nothing: no new
/// address to follow, and nothing counted.
pub proof fn lemma_self_transfer_ignored(
    st: RoundView,
    cfg: &TraceConfig,
    source: Seq<char>,
    o: RawOutput,
)
    requires
        address_of(o.public_key@) == source,
    ensures
        merge_spec(st, cfg, source, o) == st,
{
}

/// Entries in descending order of counted amount.
pub open spec fn sorted_desc(s: Seq<Receiver>) -> bool {
    forall|i: int, j: int|
        0 <= i < j < s.len() ==> s[i].non_confidential_amount >= s[j].non_confidential_amount
}

/// The saturating sum of the entries' uncounted outputs.
pub open spec fn sum_confidential(s: Seq<ReceiverView>) -> u64
    decreases s.len(),
{
    if s.len() == 0 {
        0
    } else {
        sat_add(sum_confidential(s.drop_last()), s.last().confidential_cnt)
    }
}

/// The index of the first entry with key `pk`.
fn find_key(entries: &Vec<Receiver>, pk: &Vec<u8>) -> (r: Option<usize>)
    ensures
        match r {
            Some(i) => i == key_index(entries@.map_values(|e: Receiver| e@), pk@),
            None => key_index(entries@.map_values(|e: Receiver| e@), pk@) == -1,
        },
{
    let ghost view = entries@.map_values(|e: Receiver| e@);
    let mut i: usize = 0;
    while i < entries.len()
        invariant
            i <= entries.len(),
            view == entries@.map_values(|e: Receiver| e@),
            forall|j: int| 0 <= j < i ==> (#[trigger] view[j]).public_key != pk@,
        decreases entries.len() - i,
    {
        if crate::model::bytes_eq(&entries[i].public_key, pk) {
            assert(is_first_key(view, pk@, i as int));
            let ghost k = choose|k: int| is_first_key(view, pk@, k);
            assert(k == i) by {
                if k < i {
                    assert(view[k].public_key != pk@);
                }
                if k > i {
                    assert(view[i as int].public_key == pk@);
                }
            }
            return Some(i);
        }
        i = i + 1;
    }
    assert(!exists|k: int| is_first_key(view, pk@, k)) by {
        if exists|k: int| is_first_key(view, pk@, k) {
            let k = choose|k: int| is_first_key(view, pk@, k);
            assert(view[k].public_key != pk@);
        }
    }
    None
}

impl RoundAccumulator {
    /// A round before any output.
    pub fn new() -> (r: RoundAccumulator)
        ensures
            r@ == empty_round(),
    {
        let r = RoundAccumulator { entries: Vec::new(), frontier: Vec::new() };
        assert(r@.entries =~= Seq::empty());
        assert(r@.frontier =~= Seq::empty());
        r
    }

    /// Adds `addr` to the addresses found, unless it is there already.
    fn add_to_frontier(&mut self, addr: String)
        ensures
            final(self)@.entries == old(self)@.entries,
            final(self)@.frontier == if old(self)@.frontier.contains(addr@) {
                old(self)@.frontier
            } else {
                old(self)@.frontier.push(addr@)
            },
    {
        let ghost fr = old(self)@.frontier;
        let present = contains_string(&self.frontier, &addr);
        if present {
            let ghost i = choose|i: int| 0 <= i < self.frontier@.len() && self.frontier@[i]@ == addr@;
            assert(fr[i] == addr@);
        } else {
            assert(!fr.contains(addr@)) by {
                if fr.contains(addr@) {
                    let i = choose|i: int| 0 <= i < fr.len() && fr[i] == addr@;
                    assert(self.frontier@[i]@ == addr@);
                }
            }
            self.frontier.push(addr);
            assert(self@.frontier =~= fr.push(addr@));
        }
    }

    /// Counts one output of a transaction sent by `source`.
    pub fn merge_output(&mut self, cfg: &TraceConfig, source: &String, o: &RawOutput)
        ensures
            final(self)@ == merge_spec(old(self)@, cfg, source@, *o),
    {
        let receiver = pubkey_to_bech32(&o.public_key);
        if receiver == *source {
            return;
        }
        let ghost st = old(self)@;
        let amt = get_nonconfidential_balance(cfg, o);
        let found = find_key(&self.entries, &o.public_key);
        let ghost target = merge_spec(st, cfg, source@, *o);
        match found {
            Some(i) => {
                let mut e = self.entries.remove(i);
                e.total_cnt = e.total_cnt.saturating_add(1);
                match amt {
                    Some(n) => {
                        e.non_confidential_amount = e.non_confidential_amount.saturating_add(n);
                    },
                    None => {
                        e.confidential_cnt = e.confidential_cnt.saturating_add(1);
                    },
                }
                self.entries.insert(i, e);
                assert(self@.entries =~= st.entries.update(i as int, bump(st.entries[i as int], amt)));
            },
            None => {
                let kind = gen_kind(cfg, o);
                let e = Receiver {
                    addr: receiver.clone(),
                    public_key: copy_bytes(&o.public_key),
                    kind,
                    total_cnt: 1,
                    confidential_cnt: if amt.is_some() { 0 } else { 1 },
                    non_confidential_amount: match amt {
                        Some(n) => n,
                        None => 0,
                    },
                    non_confidential_amount_readable: String::new(),
                };
                self.entries.push(e);
                assert(self@.entries =~= st.entries.push(
                    bump(fresh_entry(receiver@, o.public_key@, kind_of(cfg, o.public_key@)), amt),
                ));
            },
        }
        self.add_to_frontier(receiver);
        assert(self@.entries == target.entries);
        assert(self@.frontier == target.frontier);
    }

    /// Counts the outputs `outs` of a transaction sent by `source`.
    pub fn merge_outputs(&mut self, cfg: &TraceConfig, source: &String, outs: &Vec<RawOutput>)
        ensures
            final(self)@ == fold_outputs(old(self)@, cfg, source@, outs@),
    {
        let ghost st = old(self)@;
        let mut i: usize = 0;
        while i < outs.len()
            invariant
                i <= outs.len(),
                self@ == fold_outputs(st, cfg, source@, outs@.subrange(0, i as int)),
            decreases outs.len() - i,
        {
            assert(outs@.subrange(0, i + 1).drop_last() =~= outs@.subrange(0, i as int));
            self.merge_output(cfg, source, &outs[i]);
            i = i + 1;
        }
        assert(outs@.subrange(0, i as int) =~= outs@);
    }

    /// Counts the outputs of the operations `ops` of a transaction sent by `source`.
    pub fn merge_ops(&mut self, cfg: &TraceConfig, source: &String, ops: &Vec<Operation>)
        ensures
            final(self)@ == fold_ops(old(self)@, cfg, source@, ops@),
    {
        let ghost st = old(self)@;
        let mut i: usize = 0;
        while i < ops.len()
            invariant
                i <= ops.len(),
                self@ == fold_ops(st, cfg, source@, ops@.subrange(0, i as int)),
            decreases ops.len() - i,
        {
            assert(ops@.subrange(0, i + 1).drop_last() =~= ops@.subrange(0, i as int));
            match &ops[i] {
                Operation::TransferAsset(outs) => self.merge_outputs(cfg, source, outs),
                Operation::IssueAsset(outs) => self.merge_outputs(cfg, source, outs),
                Operation::Ignored => {
                    assert(fold_outputs(self@, cfg, source@, Seq::empty()) == self@);
                },
            }
            i = i + 1;
        }
        assert(ops@.subrange(0, i as int) =~= ops@);
    }

    /// Counts the outputs of the transactions `txs` sent by `source`.
    pub fn merge_txs(&mut self, cfg: &TraceConfig, source: &String, txs: &Vec<Tx>)
        ensures
            final(self)@ == fold_txs(old(self)@, cfg, source@, txs@),
    {
        let ghost st = old(self)@;
        let mut i: usize = 0;
        while i < txs.len()
            invariant
                i <= txs.len(),
                self@ == fold_txs(st, cfg, source@, txs@.subrange(0, i as int)),
            decreases txs.len() - i,
        {
            assert(txs@.subrange(0, i + 1).drop_last() =~= txs@.subrange(0, i as int));
            if txs[i].code == 0 {
                self.merge_ops(cfg, source, &txs[i].operations);
            }
            i = i + 1;
        }
        assert(txs@.subrange(0, i as int) =~= txs@);
    }
}

/// Sorts entries in descending order of counted amount; entries of equal
/// amount keep their order.
pub fn sort_desc(v: Vec<Receiver>) -> (r: Vec<Receiver>)
    ensures
        r@.to_multiset() == v@.to_multiset(),
        views(r@).to_multiset() == views(v@).to_multiset(),
        sorted_desc(r@),
{
    broadcast use vstd::seq_lib::group_to_multiset_ensures, vstd::seq_lib::to_multiset_insert;

    let mut src = v;
    let mut out: Vec<Receiver> = Vec::new();
    while src.len() > 0
        invariant
            out@.to_multiset().add(src@.to_multiset()) == v@.to_multiset(),
            views(out@).to_multiset().add(views(src@).to_multiset()) == views(v@).to_multiset(),
            sorted_desc(out@),
        decreases src.len(),
    {
        let ghost before = src@;
        let x = src.pop().unwrap();
        assert(before =~= src@.push(x));
        let mut j: usize = 0;
        while j < out.len() && out[j].non_confidential_amount > x.non_confidential_amount
            invariant
                j <= out.len(),
                forall|k: int| 0 <= k < j ==> (#[trigger] out@[k]).non_confidential_amount
                    > x.non_confidential_amount,
            decreases out.len() - j,
        {
            j = j + 1;
        }
        let ghost prev = out@;
        out.insert(j, x);
        assert(out@ =~= prev.insert(j as int, x));
        proof {
            vstd::seq_lib::to_multiset_insert(prev, j as int, x);
            vstd::seq_lib::to_multiset_build(src@, x);
        }
        assert(out@.to_multiset().add(src@.to_multiset()) =~= prev.to_multiset().add(
            before.to_multiset(),
        ));
        assert(views(out@) =~= views(prev).insert(j as int, x@));
        assert(views(before) =~= views(src@).push(x@));
        proof {
            vstd::seq_lib::to_multiset_insert(views(prev), j as int, x@);
            vstd::seq_lib::to_multiset_build(views(src@), x@);
        }
        assert(views(out@).to_multiset().add(views(src@).to_multiset()) =~= views(
            prev,
        ).to_multiset().add(views(before).to_multiset()));
        assert forall|a: int, b: int| 0 <= a < b < out@.len() implies out@[a].non_confidential_amount
            >= out@[b].non_confidential_amount by {
            if b < j {
            } else if a > j {
                assert(out@[a] == prev[a - 1]);
                assert(out@[b] == prev[b - 1]);
            } else if a == j {
                assert(out@[b] == prev[b - 1]);
            } else {
                if b > j {
                    assert(out@[b] == prev[b - 1]);
                    assert(prev[j as int].non_confidential_amount <= x.non_confidential_amount);
                }
            }
        }
    }
    out
}

/// The saturating sum of the uncounted outputs of `entries`.
fn confidential_total(entries: &Vec<Receiver>) -> (r: u64)
    ensures
        r == sum_confidential(entries@.map_values(|e: Receiver| e@)),
{
    let ghost view = entries@.map_values(|e: Receiver| e@);
    let mut total: u64 = 0;
    let mut i: usize = 0;
    while i < entries.len()
        invariant
            i <= entries.len(),
            view == entries@.map_values(|e: Receiver| e@),
            total == sum_confidential(view.subrange(0, i as int)),
        decreases entries.len() - i,
    {
        assert(view.subrange(0, i + 1).drop_last() =~= view.subrange(0, i as int));
        total = total.saturating_add(entries[i].confidential_cnt);
        i = i + 1;
    }
    assert(view.subrange(0, i as int) =~= view);
    total
}

impl RoundAccumulator {
    /// The report of the round: one entry per receiver, in descending order of
    /// counted amount, with the number of receivers and the number of
    /// uncounted outputs.
    pub fn into_report(self) -> (r: ReceiverSet)
        ensures
            r.total_cnt == self@.entries.len(),
            r.confidential_cnt == sum_confidential(self@.entries),
            r.entries@.to_multiset() == self.entries@.to_multiset(),
            views(r.entries@).to_multiset() == self@.entries.to_multiset(),
            sorted_desc(r.entries@),
            r.non_confidential_amount_readable@.len() == 0,
    {
        let confidential_cnt = confidential_total(&self.entries);
        let total_cnt = self.entries.len() as u64;
        let entries = sort_desc(self.entries);
        ReceiverSet {
            total_cnt,
            confidential_cnt,
            non_confidential_amount_readable: String::new(),
            entries,
        }
    }
}

/// No two entries share a receiver key, and no entry has more uncounted
/// outputs than outputs.
pub open spec fn entries_well_formed(entries: Seq<ReceiverView>) -> bool {
    &&& forall|i: int, j: int|
        0 <= i < j < entries.len() ==> entries[i].public_key != entries[j].public_key
    &&& forall|i: int|
        0 <= i < entries.len() ==> (#[trigger] entries[i]).confidential_cnt <= entries[i].total_cnt
}

proof fn lemma_merge_entries_well_formed(st: RoundView, cfg: &TraceConfig, source: Seq<char>, o: RawOutput)
    requires
        entries_well_formed(st.entries),
    ensures
        entries_well_formed(merge_spec(st, cfg, source, o).entries),
{
    let pk = o.public_key@;
    let e = st.entries;
    if key_index(e, pk) < 0 {
        assert forall|i: int| 0 <= i < e.len() implies e[i].public_key != pk by {
            if e[i].public_key == pk {
                assert(is_first_key(e, pk, i));
            }
        }
    }
}

proof fn lemma_fold_outputs_entries_well_formed(
    st: RoundView,
    cfg: &TraceConfig,
    source: Seq<char>,
    outs: Seq<RawOutput>,
)
    requires
        entries_well_formed(st.entries),
    ensures
        entries_well_formed(fold_outputs(st, cfg, source, outs).entries),
    decreases outs.len(),
{
    if outs.len() > 0 {
        lemma_fold_outputs_entries_well_formed(st, cfg, source, outs.drop_last());
        lemma_merge_entries_well_formed(
            fold_outputs(st, cfg, source, outs.drop_last()),
            cfg,
            source,
            outs.last(),
        );
    }
}

proof fn lemma_fold_ops_entries_well_formed(
    st: RoundView,
    cfg: &TraceConfig,
    source: Seq<char>,
    ops: Seq<Operation>,
)
    requires
        entries_well_formed(st.entries),
    ensures
        entries_well_formed(fold_ops(st, cfg, source, ops).entries),
    decreases ops.len(),
{
    if ops.len() > 0 {
        lemma_fold_ops_entries_well_formed(st, cfg, source, ops.drop_last());
        lemma_fold_outputs_entries_well_formed(
            fold_ops(st, cfg, source, ops.drop_last()),
            cfg,
            source,
            op_outputs(ops.last()),
        );
    }
}

/// A round keeps one entry per receiver key, and no entry counts more uncounted
/// outputs than outputs, whatever transactions it takes in.
pub proof fn lemma_fold_txs_entries_well_formed(
    st: RoundView,
    cfg: &TraceConfig,
    source: Seq<char>,
    txs: Seq<Tx>,
)
    requires
        entries_well_formed(st.entries),
    ensures
        entries_well_formed(fold_txs(st, cfg, source, txs).entries),
    decreases txs.len(),
{
    if txs.len() > 0 {
        lemma_fold_txs_entries_well_formed(st, cfg, source, txs.drop_last());
        lemma_fold_ops_entries_well_formed(
            fold_txs(st, cfg, source, txs.drop_last()),
            cfg,
            source,
            txs.last().operations@,
        );
    }
}

} // verus!
