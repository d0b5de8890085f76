use crate::model::{contains_string, lemma_contains_str, strs, TraceConfig, Tx};
use crate::round::{
    empty_round, views, RoundView, fold_txs, entries_well_formed, lemma_fold_txs_entries_well_formed, sorted_desc, sum_confidential, ReceiverSet,
    RoundAccumulator,
};
use vstd::prelude::*;

verus! {

/// The addresses of `cands` that are not in `visited`, each once, in the order
/// first seen.
pub open spec fn fresh_sources(cands: Seq<Seq<char>>, visited: Seq<Seq<char>>) -> Seq<Seq<char>>
    decreases cands.len(),
{
    if cands.len() == 0 {
        Seq::empty()
    } else {
        let p = fresh_sources(cands.drop_last(), visited);
        if visited.contains(cands.last()) || p.contains(cands.last()) {
            p
        } else {
            p.push(cands.last())
        }
    }
}

/// The sources chosen for a round are distinct, and none of them has been a
/// source before.
pub proof fn lemma_fresh_sources(cands: Seq<Seq<char>>, visited: Seq<Seq<char>>)
    ensures
        fresh_sources(cands, visited).no_duplicates(),
        forall|i: int|
            0 <= i < fresh_sources(cands, visited).len() ==> !visited.contains(
                #[trigger] fresh_sources(cands, visited)[i],
            ),
    decreases cands.len(),
{
    if cands.len() > 0 {
        lemma_fresh_sources(cands.drop_last(), visited);
        let p = fresh_sources(cands.drop_last(), visited);
        let f = fresh_sources(cands, visited);
        if !(visited.contains(cands.last()) || p.contains(cands.last())) {
            assert forall|i: int, j: int|
                0 <= i < f.len() && 0 <= j < f.len() && i != j implies f[i] != f[j] by {
                if i < p.len() && j < p.len() {
                } else if i == p.len() {
                    assert(p[j] == f[j]);
                } else {
                    assert(p[i] == f[i]);
                }
            }
            assert forall|i: int| 0 <= i < f.len() implies !visited.contains(#[trigger] f[i]) by {
                if i < p.len() {
                    assert(f[i] == p[i]);
                }
            }
        }
    }
}

/// The addresses of `cands` that are not in `visited`, each once.
pub fn select_sources(cands: &Vec<String>, visited: &Vec<String>) -> (r: Vec<String>)
    ensures
        strs(r@) == fresh_sources(strs(cands@), strs(visited@)),
{
    let ghost c = strs(cands@);
    let mut r: Vec<String> = Vec::new();
    let mut i: usize = 0;
    while i < cands.len()
        invariant
            i <= cands.len(),
            c == strs(cands@),
            strs(r@) == fresh_sources(c.subrange(0, i as int), strs(visited@)),
        decreases cands.len() - i,
    {
        let ghost sub = c.subrange(0, i + 1);
        assert(sub.drop_last() =~= c.subrange(0, i as int));
        assert(sub.last() == cands@[i as int]@);
        let seen = contains_string(visited, &cands[i]);
        let dup = contains_string(&r, &cands[i]);
        proof {
            lemma_contains_str(visited@, cands@[i as int]@);
            lemma_contains_str(r@, cands@[i as int]@);
        }
        if !seen && !dup {
            let ghost before = r@;
            r.push(cands[i].clone());
            assert(strs(r@) =~= strs(before).push(cands@[i as int]@));
        }
        i = i + 1;
    }
    assert(c.subrange(0, i as int) =~= c);
    r
}

/// A trace in progress: the rounds still allowed, the addresses that have been
/// sources, the sources of the current round and how many of them have been
/// recorded, the round being gathered and the rounds done. The trace is over
/// when the current round has no source.
pub struct Tracer {
    pub rounds_left: u8,
    pub visited: Vec<String>,
    pub sources: Vec<String>,
    pub next: usize,
    pub round: RoundAccumulator,
    pub report: Vec<ReceiverSet>,
}

impl Tracer {
    /// Sources are distinct and new, a round has sources only while rounds are
    /// left, and the round being gathered has one entry per receiver.
    pub open spec fn well_formed(&self) -> bool {
        &&& self.next <= self.sources@.len()
        &&& entries_well_formed(self.round@.entries)
        &&& strs(self.visited@).no_duplicates()
        &&& strs(self.sources@).no_duplicates()
        &&& forall|i: int|
            0 <= i < self.sources@.len() ==> !strs(self.visited@).contains(
                #[trigger] self.sources@[i]@,
            )
        &&& self.sources@.len() > 0 ==> self.rounds_left > 0
    }

    /// No address is fetched twice: the address a trace asks for next has never
    /// been a source before.
    pub proof fn lemma_pending_not_visited(&self)
        requires
            self.well_formed(),
            self.next < self.sources@.len(),
        ensures
            !strs(self.visited@).contains(self.sources@[self.next as int]@),
    {
    }

    /// Whether the trace is over.
    pub open spec fn done(&self) -> bool {
        self.sources@.len() == 0
    }

    /// A trace from `seeds` that runs at most `depth` rounds.
    pub fn new(seeds: &Vec<String>, depth: u8) -> (r: Tracer)
        ensures
            r.well_formed(),
            r.rounds_left == depth,
            r.visited@.len() == 0,
            r.report@.len() == 0,
            r.next == 0,
            r.round@ == empty_round(),
            strs(r.sources@) == if depth == 0 {
                Seq::empty()
            } else {
                fresh_sources(strs(seeds@), Seq::empty())
            },
    {
        let visited: Vec<String> = Vec::new();
        let sources = if depth == 0 {
            Vec::new()
        } else {
            select_sources(seeds, &visited)
        };
        proof {
            assert(strs(visited@) =~= Seq::<Seq<char>>::empty());
            lemma_fresh_sources(strs(seeds@), Seq::empty());
            if depth == 0 {
                assert(strs(sources@) =~= Seq::<Seq<char>>::empty());
            }
        }
        Tracer {
            rounds_left: depth,
            visited,
            sources,
            next: 0,
            round: RoundAccumulator::new(),
            report: Vec::new(),
        }
    }

    /// Whether the trace is over.
    pub fn is_done(&self) -> (r: bool)
        ensures
            r == self.done(),
    {
        self.sources.len() == 0
    }

    /// The next address whose transactions the current round needs, if any.
    pub fn pending(&self) -> (r: Option<&String>)
        ensures
            r == if self.next < self.sources@.len() {
                Some(&self.sources@[self.next as int])
            } else {
                None::<&String>
            },
    {
        if self.next < self.sources.len() {
            Some(&self.sources[self.next])
        } else {
            None
        }
    }

    /// Records the transactions sent by the pending address.
    pub fn record(&mut self, cfg: &TraceConfig, txs: &Vec<Tx>)
        requires
            old(self).well_formed(),
            old(self).next < old(self).sources@.len(),
        ensures
            final(self).well_formed(),
            final(self).round@ == fold_txs(
                old(self).round@,
                cfg,
                old(self).sources@[old(self).next as int]@,
                txs@,
            ),
            final(self).next == old(self).next + 1,
            final(self).sources == old(self).sources,
            final(self).visited == old(self).visited,
            final(self).report == old(self).report,
            final(self).rounds_left == old(self).rounds_left,
    {
        let i = self.next;
        let n = self.sources.len();
        proof {
            lemma_fold_txs_entries_well_formed(self.round@, cfg, self.sources@[i as int]@, txs@);
        }
        self.round.merge_txs(cfg, &self.sources[i], txs);
        assert(i < n);
        self.next = i + 1;
    }

    /// Closes the current round once every source is recorded: its report is
    /// added, its sources become visited, and the next round's sources are the
    /// new addresses it found, unless no round is left.
    pub fn close_round(&mut self)
        requires
            old(self).well_formed(),
            !old(self).done(),
            old(self).next == old(self).sources@.len(),
        ensures
            final(self).well_formed(),
            final(self).report@.len() == old(self).report@.len() + 1,
            final(self).report@.drop_last() == old(self).report@,
            final(self).report@.last().total_cnt == old(self).round@.entries.len(),
            final(self).report@.last().confidential_cnt == sum_confidential(
                old(self).round@.entries,
            ),
            final(self).report@.last().entries@.to_multiset()
                == old(self).round.entries@.to_multiset(),
            views(final(self).report@.last().entries@).to_multiset()
                == old(self).round@.entries.to_multiset(),
            entries_well_formed(old(self).round@.entries),
            sorted_desc(final(self).report@.last().entries@),
            strs(final(self).visited@) == strs(old(self).visited@) + strs(old(self).sources@),
            final(self).rounds_left == old(self).rounds_left - 1,
            strs(final(self).sources@) == if final(self).rounds_left == 0 {
                Seq::empty()
            } else {
                fresh_sources(old(self).round@.frontier, strs(final(self).visited@))
            },
            final(self).next == 0,
            final(self).round@ == empty_round(),
    {
        let ghost old_visited = strs(self.visited@);
        let ghost old_sources = strs(self.sources@);
        let ghost old_round = self.round@;
        let mut round = RoundAccumulator::new();
        std::mem::swap(&mut self.round, &mut round);
        let mut sources: Vec<String> = Vec::new();
        std::mem::swap(&mut self.sources, &mut sources);
        self.visited.append(&mut sources);
        let ghost nv = strs(self.visited@);
        assert(nv =~= old_visited + old_sources);
        assert forall|i: int, j: int|
            0 <= i < nv.len() && 0 <= j < nv.len() && i != j implies nv[i] != nv[j] by {
            let ov = old_visited.len();
            if i >= ov && j < ov {
                assert(!old_visited.contains(old(self).sources@[i - ov]@));
                assert(old_visited[j] == nv[j]);
            } else if i < ov && j >= ov {
                assert(!old_visited.contains(old(self).sources@[j - ov]@));
                assert(old_visited[i] == nv[i]);
            } else if i >= ov && j >= ov {
                assert(old_sources[i - ov] == nv[i]);
                assert(old_sources[j - ov] == nv[j]);
            }
        }
        self.rounds_left = self.rounds_left - 1;
        if self.rounds_left > 0 {
            self.sources = select_sources(&round.frontier, &self.visited);
            proof {
                lemma_fresh_sources(old_round.frontier, nv);
                assert forall|i: int| 0 <= i < self.sources@.len() implies !nv.contains(
                    #[trigger] self.sources@[i]@,
                ) by {
                    assert(strs(self.sources@)[i] == self.sources@[i]@);
                }
            }
        } else {
            assert(strs(self.sources@) =~= Seq::<Seq<char>>::empty());
        }
        let rs = round.into_report();
        let ghost prev_report = self.report@;
        self.report.push(rs);
        assert(self.report@.drop_last() =~= prev_report);
        self.next = 0;
    }

    /// The rounds done so far.
    pub fn into_report(self) -> (r: Vec<ReceiverSet>)
        ensures
            r == self.report,
    {
        self.report
    }
}

/// The transactions that an address sent, as an in-memory ledger holds them.
pub struct LedgerRecord {
    pub addr: String,
    pub txs: Vec<Tx>,
}

/// Whether `k` is the index of the first record of address `a`.
pub open spec fn is_first_record(ledger: Seq<LedgerRecord>, a: Seq<char>, k: int) -> bool {
    &&& 0 <= k < ledger.len()
    &&& ledger[k].addr@ == a
    &&& forall|j: int| 0 <= j < k ==> (#[trigger] ledger[j]).addr@ != a
}

/// The transactions that `a` sent according to `ledger`: those of its first
/// record, or none.
pub open spec fn ledger_txs(ledger: Seq<LedgerRecord>, a: Seq<char>) -> Seq<Tx> {
    if exists|k: int| is_first_record(ledger, a, k) {
        ledger[choose|k: int| is_first_record(ledger, a, k)].txs@
    } else {
        Seq::empty()
    }
}

proof fn lemma_ledger_txs_first(ledger: Seq<LedgerRecord>, a: Seq<char>, k: int)
    requires
        is_first_record(ledger, a, k),
    ensures
        ledger_txs(ledger, a) == ledger[k].txs@,
{
    let c = choose|c: int| is_first_record(ledger, a, c);
    assert(c == k) by {
        if c < k {
            assert(ledger[c].addr@ != a);
        }
        if c > k {
            assert(ledger[k].addr@ == a);
        }
    }
}

/// A round whose sources are `sources`, in order, over `ledger`.
pub open spec fn round_fold(cfg: &TraceConfig, ledger: Seq<LedgerRecord>, sources: Seq<Seq<char>>) -> RoundView
    decreases sources.len(),
{
    if sources.len() == 0 {
        empty_round()
    } else {
        fold_txs(
            round_fold(cfg, ledger, sources.drop_last()),
            cfg,
            sources.last(),
            ledger_txs(ledger, sources.last()),
        )
    }
}

/// The sources of the round after the round of `sources`: none when that was
/// the last round allowed, else the new addresses that it found.
pub open spec fn next_sources(
    cfg: &TraceConfig,
    ledger: Seq<LedgerRecord>,
    sources: Seq<Seq<char>>,
    visited: Seq<Seq<char>>,
    rounds_left: nat,
) -> Seq<Seq<char>> {
    if rounds_left <= 1 {
        Seq::empty()
    } else {
        fresh_sources(round_fold(cfg, ledger, sources).frontier, visited + sources)
    }
}

/// The rounds of a trace that starts from `sources`, with `visited` already
/// sources and `rounds_left` rounds allowed: it stops when no round is left or
/// a round has no source.
pub open spec fn trace_rounds(
    cfg: &TraceConfig,
    ledger: Seq<LedgerRecord>,
    sources: Seq<Seq<char>>,
    visited: Seq<Seq<char>>,
    rounds_left: nat,
) -> Seq<RoundView>
    decreases rounds_left,
{
    if rounds_left == 0 || sources.len() == 0 {
        Seq::empty()
    } else {
        seq![round_fold(cfg, ledger, sources)] + trace_rounds(
            cfg,
            ledger,
            next_sources(cfg, ledger, sources, visited, rounds_left),
            visited + sources,
            (rounds_left - 1) as nat,
        )
    }
}

/// The addresses whose transactions such a trace looks up, in order.
pub open spec fn trace_fetched(
    cfg: &TraceConfig,
    ledger: Seq<LedgerRecord>,
    sources: Seq<Seq<char>>,
    visited: Seq<Seq<char>>,
    rounds_left: nat,
) -> Seq<Seq<char>>
    decreases rounds_left,
{
    if rounds_left == 0 || sources.len() == 0 {
        Seq::empty()
    } else {
        sources + trace_fetched(
            cfg,
            ledger,
            next_sources(cfg, ledger, sources, visited, rounds_left),
            visited + sources,
            (rounds_left - 1) as nat,
        )
    }
}

/// The first sources of a trace from `seeds`: each seed once.
pub open spec fn seed_sources(seeds: Seq<String>) -> Seq<Seq<char>> {
    fresh_sources(strs(seeds), Seq::empty())
}

/// Whether a round's report is the round `rv`: the same entries, sorted by
/// descending amount, with the number of receivers and of uncounted outputs.
pub open spec fn round_matches(rs: ReceiverSet, rv: RoundView) -> bool {
    &&& rs.total_cnt == rv.entries.len()
    &&& rs.confidential_cnt == sum_confidential(rv.entries)
    &&& views(rs.entries@).to_multiset() == rv.entries.to_multiset()
    &&& sorted_desc(rs.entries@)
}

proof fn lemma_trace_rounds_len(
    cfg: &TraceConfig,
    ledger: Seq<LedgerRecord>,
    sources: Seq<Seq<char>>,
    visited: Seq<Seq<char>>,
    rounds_left: nat,
)
    ensures
        trace_rounds(cfg, ledger, sources, visited, rounds_left).len() <= rounds_left,
        rounds_left > 0 && sources.len() > 0 ==> trace_rounds(
            cfg,
            ledger,
            sources,
            visited,
            rounds_left,
        ).len() >= 1,
    decreases rounds_left,
{
    if rounds_left > 0 && sources.len() > 0 {
        lemma_trace_rounds_len(
            cfg,
            ledger,
            next_sources(cfg, ledger, sources, visited, rounds_left),
            visited + sources,
            (rounds_left - 1) as nat,
        );
    }
}

proof fn lemma_fresh_sources_nonempty(cands: Seq<Seq<char>>)
    requires
        cands.len() > 0,
    ensures
        fresh_sources(cands, Seq::empty()).len() > 0,
    decreases cands.len(),
{
    let p = fresh_sources(cands.drop_last(), Seq::empty());
    if p.contains(cands.last()) {
        assert(p.len() > 0);
    }
}

/// The index of the first record of `addr`, if any.
pub fn lookup(ledger: &Vec<LedgerRecord>, addr: &String) -> (r: Option<usize>)
    ensures
        match r {
            Some(k) => is_first_record(ledger@, addr@, k as int),
            None => forall|k: int| 0 <= k < ledger@.len() ==> (#[trigger] ledger@[k]).addr@ != addr@,
        },
{
    let mut k: usize = 0;
    while k < ledger.len()
        invariant
            k <= ledger.len(),
            forall|j: int| 0 <= j < k ==> (#[trigger] ledger@[j]).addr@ != addr@,
        decreases ledger.len() - k,
    {
        if ledger[k].addr == *addr {
            return Some(k);
        }
        k = k + 1;
    }
    None
}

/// Runs a whole trace from `seeds` for at most `depth` rounds against an
/// in-memory ledger; an address without a record sent nothing. Returns the
/// rounds and the addresses whose transactions were looked up, in order.
pub fn trace_with_ledger(
    cfg: &TraceConfig,
    seeds: &Vec<String>,
    depth: u8,
    ledger: &Vec<LedgerRecord>,
) -> (r: (Vec<ReceiverSet>, Vec<String>))
    ensures
        r.0@.len() == trace_rounds(cfg, ledger@, seed_sources(seeds@), Seq::empty(), depth as nat).len(),
        forall|k: int|
            0 <= k < r.0@.len() ==> round_matches(
                #[trigger] r.0@[k],
                trace_rounds(cfg, ledger@, seed_sources(seeds@), Seq::empty(), depth as nat)[k],
            ),
        strs(r.1@) == trace_fetched(cfg, ledger@, seed_sources(seeds@), Seq::empty(), depth as nat),
        r.0@.len() <= depth,
        depth > 0 && seeds@.len() > 0 ==> r.0@.len() >= 1,
        forall|k: int| 0 <= k < r.0@.len() ==> sorted_desc(#[trigger] r.0@[k].entries@),
        strs(r.1@).no_duplicates(),
{
    let ghost all = trace_rounds(cfg, ledger@, seed_sources(seeds@), Seq::empty(), depth as nat);
    let ghost fetched = trace_fetched(cfg, ledger@, seed_sources(seeds@), Seq::empty(), depth as nat);
    proof {
        lemma_trace_rounds_len(cfg, ledger@, seed_sources(seeds@), Seq::empty(), depth as nat);
        if seeds@.len() > 0 {
            lemma_fresh_sources_nonempty(strs(seeds@));
        }
    }
    let empty: Vec<Tx> = Vec::new();
    let mut t = Tracer::new(seeds, depth);
    proof {
        if depth == 0 {
            assert(all =~= Seq::<RoundView>::empty());
        }
        assert(strs(t.visited@) =~= Seq::<Seq<char>>::empty());
        assert(fetched =~= strs(t.visited@) + trace_fetched(
            cfg,
            ledger@,
            strs(t.sources@),
            strs(t.visited@),
            t.rounds_left as nat,
        ));
        assert(all.subrange(0, all.len() as int) =~= all);
    }
    while !t.is_done()
        invariant
            empty@ == Seq::<Tx>::empty(),
            t.well_formed(),
            t.next == 0,
            t.round@ == empty_round(),
            t.report@.len() <= all.len(),
            all.subrange(t.report@.len() as int, all.len() as int) == trace_rounds(
                cfg,
                ledger@,
                strs(t.sources@),
                strs(t.visited@),
                t.rounds_left as nat,
            ),
            forall|k: int| 0 <= k < t.report@.len() ==> round_matches(#[trigger] t.report@[k], all[k]),
            fetched == strs(t.visited@) + trace_fetched(
                cfg,
                ledger@,
                strs(t.sources@),
                strs(t.visited@),
                t.rounds_left as nat,
            ),
        decreases t.rounds_left,
    {
        let ghost rl = t.rounds_left;
        let ghost rep0 = t.report@;
        let ghost s0 = t.sources@;
        let ghost v0 = t.visited@;
        while t.next < t.sources.len()
            invariant
                empty@ == Seq::<Tx>::empty(),
                t.rounds_left == rl,
                t.report@ == rep0,
                t.sources@ == s0,
                t.visited@ == v0,
                t.well_formed(),
                !t.done(),
                t.round@ == round_fold(cfg, ledger@, strs(s0).subrange(0, t.next as int)),
            decreases t.sources@.len() - t.next,
        {
            let ghost i = t.next as int;
            let ghost sub = strs(s0).subrange(0, i + 1);
            assert(sub.drop_last() =~= strs(s0).subrange(0, i));
            assert(sub.last() == s0[i]@);
            match lookup(ledger, &t.sources[t.next]) {
                Some(k) => {
                    proof {
                        lemma_ledger_txs_first(ledger@, s0[i]@, k as int);
                    }
                    t.record(cfg, &ledger[k].txs);
                },
                None => {
                    assert(!exists|k: int| is_first_record(ledger@, s0[i]@, k));
                    assert(ledger_txs(ledger@, s0[i]@) == Seq::<Tx>::empty());
                    assert(empty@ =~= ledger_txs(ledger@, s0[i]@));
                    t.record(cfg, &empty);
                },
            }
        }
        assert(strs(s0).subrange(0, t.next as int) =~= strs(s0));
        let ghost k0 = rep0.len() as int;
        let ghost rest = all.subrange(k0, all.len() as int);
        let ghost next = next_sources(cfg, ledger@, strs(s0), strs(v0), rl as nat);
        assert(rest == seq![round_fold(cfg, ledger@, strs(s0))] + trace_rounds(
            cfg,
            ledger@,
            next,
            strs(v0) + strs(s0),
            (rl - 1) as nat,
        ));
        t.close_round();
        assert(strs(t.sources@) == next);
        assert(rest.len() > 0);
        assert(all[k0] == rest[0]);
        assert(all.subrange(k0 + 1, all.len() as int) =~= rest.subrange(1, rest.len() as int));
        assert(rest.subrange(1, rest.len() as int) =~= trace_rounds(
            cfg,
            ledger@,
            next,
            strs(v0) + strs(s0),
            (rl - 1) as nat,
        ));
        assert forall|k: int| 0 <= k < t.report@.len() implies round_matches(#[trigger] t.report@[k], all[k]) by {
            if k < k0 {
                assert(t.report@.drop_last()[k] == rep0[k]);
            }
        }
        assert(fetched =~= strs(t.visited@) + trace_fetched(
            cfg,
            ledger@,
            strs(t.sources@),
            strs(t.visited@),
            t.rounds_left as nat,
        ));
    }
    assert(all.subrange(t.report@.len() as int, all.len() as int).len() == 0);
    assert(strs(t.visited@) + Seq::<Seq<char>>::empty() =~= strs(t.visited@));
    let Tracer { visited, report, .. } = t;
    (report, visited)
}

} // verus!
