use crate::model::sat_add;
use crate::round::{sorted_desc, sum_confidential, Receiver, ReceiverSet, ReceiverView};
use vstd::prelude::*;

verus! {

/// Number of decimal places of the native asset's amounts.
pub const FRA_DECIMALS: u64 = 6;

/// One unit of the native asset, in its smallest amounts.
pub const FRA_UNIT: u64 = 1_000_000;

/// The character of a decimal digit.
pub open spec fn digit_char(d: nat) -> char {
    seq!['0', '1', '2', '3', '4', '5', '6', '7', '8', '9'][d as int]
}

/// The decimal digits of `n`, without leading zeros ("0" for zero).
pub open spec fn digits(n: nat) -> Seq<char>
    decreases n,
{
    if n < 10 {
        seq![digit_char(n)]
    } else {
        digits(n / 10).push(digit_char(n % 10))
    }
}

/// The last `width` decimal digits of `n`, with leading zeros.
pub open spec fn padded_digits(n: nat, width: nat) -> Seq<char>
    decreases width,
{
    if width == 0 {
        Seq::empty()
    } else {
        padded_digits(n / 10, (width - 1) as nat).push(digit_char(n % 10))
    }
}

/// `s` without its trailing zeros.
pub open spec fn trim_zeros(s: Seq<char>) -> Seq<char>
    decreases s.len(),
{
    if s.len() > 0 && s.last() == '0' {
        trim_zeros(s.drop_last())
    } else {
        s
    }
}

/// The decimal rendering of a fixed-point amount with six decimal places:
/// the whole units, then a point and the fraction without trailing zeros,
/// where there is a fraction.
pub open spec fn float_str(n: u64) -> Seq<char> {
    let frac = trim_zeros(padded_digits((n % 1_000_000) as nat, 6));
    if frac.len() == 0 {
        digits((n / 1_000_000) as nat)
    } else {
        digits((n / 1_000_000) as nat) + seq!['.'] + frac
    }
}

fn digit_str(d: u64) -> (r: &'static str)
    requires
        d < 10,
    ensures
        r@ == seq![digit_char(d as nat)],
{
    match d {
        0 => {
            proof {
                reveal_strlit("0");
            }
            "0"
        },
        1 => {
            proof {
                reveal_strlit("1");
            }
            "1"
        },
        2 => {
            proof {
                reveal_strlit("2");
            }
            "2"
        },
        3 => {
            proof {
                reveal_strlit("3");
            }
            "3"
        },
        4 => {
            proof {
                reveal_strlit("4");
            }
            "4"
        },
        5 => {
            proof {
                reveal_strlit("5");
            }
            "5"
        },
        6 => {
            proof {
                reveal_strlit("6");
            }
            "6"
        },
        7 => {
            proof {
                reveal_strlit("7");
            }
            "7"
        },
        8 => {
            proof {
                reveal_strlit("8");
            }
            "8"
        },
        _ => {
            proof {
                reveal_strlit("9");
            }
            "9"
        },
    }
}

fn push_digits(s: &mut String, n: u64)
    ensures
        final(s)@ == old(s)@ + digits(n as nat),
    decreases n,
{
    if n >= 10 {
        push_digits(s, n / 10);
    }
    s.append(digit_str(n % 10));
}

fn push_padded(s: &mut String, n: u64, width: u64)
    ensures
        final(s)@ == old(s)@ + padded_digits(n as nat, width as nat),
    decreases width,
{
    if width > 0 {
        push_padded(s, n / 10, width - 1);
        s.append(digit_str(n % 10));
    }
}

proof fn lemma_digit_char_zero(d: nat)
    requires
        d < 10,
    ensures
        (digit_char(d) == '0') == (d == 0),
{
}

/// Renders a fixed-point amount with six decimal places as a decimal string.
pub fn to_float_str(n: u64) -> (r: String)
    ensures
        r@ == float_str(n),
{
    let mut r = String::new();
    push_digits(&mut r, n / FRA_UNIT);
    let mut f: u64 = n % FRA_UNIT;
    let mut width: u64 = FRA_DECIMALS;
    let ghost full = padded_digits((n % 1_000_000) as nat, 6);
    while width > 0 && f % 10 == 0
        invariant
            width <= 6,
            trim_zeros(full) == trim_zeros(padded_digits(f as nat, width as nat)),
        decreases width,
    {
        proof {
            lemma_digit_char_zero((f % 10) as nat);
            let p = padded_digits(f as nat, width as nat);
            assert(p == padded_digits((f / 10) as nat, (width - 1) as nat).push(
                digit_char((f % 10) as nat),
            ));
            assert(p.drop_last() =~= padded_digits((f / 10) as nat, (width - 1) as nat));
        }
        f = f / 10;
        width = width - 1;
    }
    proof {
        let p = padded_digits(f as nat, width as nat);
        if width > 0 {
            lemma_digit_char_zero((f % 10) as nat);
            assert(p.last() != '0');
        }
        assert(trim_zeros(p) == p);
    }
    if width > 0 {
        r.append(".");
        proof {
            reveal_strlit(".");
        }
        push_padded(&mut r, f, width);
    }
    r
}

/// The saturating sum of the entries' output counts.
pub open spec fn sum_total(s: Seq<ReceiverView>) -> u64
    decreases s.len(),
{
    if s.len() == 0 {
        0
    } else {
        sat_add(sum_total(s.drop_last()), s.last().total_cnt)
    }
}

/// The saturating sum of the entries' counted amounts.
pub open spec fn sum_amount(s: Seq<ReceiverView>) -> u64
    decreases s.len(),
{
    if s.len() == 0 {
        0
    } else {
        sat_add(sum_amount(s.drop_last()), s.last().non_confidential_amount)
    }
}

/// The entries of a round, in mathematical terms.
pub open spec fn entries_view(r: ReceiverSet) -> Seq<ReceiverView> {
    r.entries@.map_values(|e: Receiver| e@)
}

/// `new` is the round `old` with its totals recomputed from its entries and
/// every amount rendered.
pub open spec fn formatted(old: ReceiverSet, new: ReceiverSet) -> bool {
    let v = entries_view(old);
    &&& entries_view(new) == v
    &&& new.total_cnt == sum_total(v)
    &&& new.confidential_cnt == sum_confidential(v)
    &&& new.non_confidential_amount_readable@ == float_str(sum_amount(v))
    &&& forall|i: int|
        0 <= i < new.entries@.len() ==> (#[trigger] new.entries@[i]).non_confidential_amount_readable@
            == float_str(new.entries@[i].non_confidential_amount)
}

/// Recomputes the totals of one round and renders its amounts.
pub fn round_make_readable(r: ReceiverSet) -> (out: ReceiverSet)
    ensures
        formatted(r, out),
{
    let ghost v = entries_view(r);
    let mut src = r.entries;
    let mut entries: Vec<Receiver> = Vec::new();
    let mut tc: u64 = 0;
    let mut cc: u64 = 0;
    let mut am: u64 = 0;
    let len = src.len();
    let ghost n = len as nat;
    let mut i: usize = 0;
    while src.len() > 0
        invariant
            n == v.len(),
            n <= usize::MAX,
            i + src@.len() == n,
            entries@.len() == i,
            src@.map_values(|e: Receiver| e@) == v.subrange(i as int, n as int),
            entries@.map_values(|e: Receiver| e@) == v.subrange(0, i as int),
            tc == sum_total(v.subrange(0, i as int)),
            cc == sum_confidential(v.subrange(0, i as int)),
            am == sum_amount(v.subrange(0, i as int)),
            forall|k: int|
                0 <= k < entries@.len() ==> (#[trigger] entries@[k]).non_confidential_amount_readable@
                    == float_str(entries@[k].non_confidential_amount),
        decreases src.len(),
    {
        let ghost before = src@;
        let mut e = src.remove(0);
        assert(e@ == v[i as int]) by {
            assert(before.map_values(|e: Receiver| e@)[0] == v.subrange(i as int, n as int)[0]);
        }
        assert(src@.map_values(|e: Receiver| e@) =~= v.subrange(i + 1, n as int)) by {
            let bv = before.map_values(|e: Receiver| e@);
            assert forall|k: int| 0 <= k < src@.len() implies #[trigger] src@[k]@ == v[i + 1 + k] by {
                assert(src@[k] == before[k + 1]);
                assert(bv[k + 1] == v.subrange(i as int, n as int)[k + 1]);
            }
        }
        assert(v.subrange(0, i + 1).drop_last() =~= v.subrange(0, i as int));
        tc = tc.saturating_add(e.total_cnt);
        cc = cc.saturating_add(e.confidential_cnt);
        am = am.saturating_add(e.non_confidential_amount);
        e.non_confidential_amount_readable = to_float_str(e.non_confidential_amount);
        let ghost prev = entries@;
        entries.push(e);
        assert(entries@.map_values(|e: Receiver| e@) =~= v.subrange(0, i + 1)) by {
            let pv = prev.map_values(|e: Receiver| e@);
            assert forall|k: int| 0 <= k < i + 1 implies #[trigger] entries@[k]@ == v[k] by {
                if k < i {
                    assert(entries@[k] == prev[k]);
                    assert(pv[k] == v.subrange(0, i as int)[k]);
                }
            }
        }
        i = i + 1;
    }
    assert(v.subrange(0, i as int) =~= v);
    ReceiverSet {
        total_cnt: tc,
        confidential_cnt: cc,
        non_confidential_amount_readable: to_float_str(am),
        entries,
    }
}

/// Recomputes the totals of every round and renders its amounts.
pub fn report_make_readable(report: &mut Vec<ReceiverSet>)
    ensures
        final(report)@.len() == old(report)@.len(),
        forall|k: int|
            0 <= k < old(report)@.len() ==> formatted(old(report)@[k], #[trigger] final(report)@[k]),
{
    let ghost orig = report@;
    let mut out: Vec<ReceiverSet> = Vec::new();
    while report.len() > 0
        invariant
            out@.len() + report@.len() == orig.len(),
            report@ == orig.subrange(out@.len() as int, orig.len() as int),
            forall|k: int| 0 <= k < out@.len() ==> formatted(orig[k], #[trigger] out@[k]),
        decreases report.len(),
    {
        let r = report.remove(0);
        assert(r == orig[out@.len() as int]);
        out.push(round_make_readable(r));
        assert(report@ =~= orig.subrange(out@.len() as int, orig.len() as int));
    }
    *report = out;
}

/// The exact sum of the entries' output counts.
pub open spec fn exact_total(s: Seq<ReceiverView>) -> nat
    decreases s.len(),
{
    if s.len() == 0 {
        0
    } else {
        exact_total(s.drop_last()) + s.last().total_cnt as nat
    }
}

/// The exact sum of the entries' uncounted outputs.
pub open spec fn exact_confidential(s: Seq<ReceiverView>) -> nat
    decreases s.len(),
{
    if s.len() == 0 {
        0
    } else {
        exact_confidential(s.drop_last()) + s.last().confidential_cnt as nat
    }
}

proof fn lemma_sum_total_exact(s: Seq<ReceiverView>)
    requires
        exact_total(s) <= u64::MAX,
    ensures
        sum_total(s) == exact_total(s),
    decreases s.len(),
{
    if s.len() > 0 {
        lemma_sum_total_exact(s.drop_last());
    }
}

proof fn lemma_sum_confidential_exact(s: Seq<ReceiverView>)
    requires
        exact_confidential(s) <= u64::MAX,
    ensures
        sum_confidential(s) == exact_confidential(s),
    decreases s.len(),
{
    if s.len() > 0 {
        lemma_sum_confidential_exact(s.drop_last());
    }
}

/// After formatting, a round's output count and uncounted-output count are the
/// sums of its entries' counts (where those sums fit in a `u64`).
pub proof fn lemma_formatted_totals(a: ReceiverSet, b: ReceiverSet)
    requires
        formatted(a, b),
        exact_total(entries_view(a)) <= u64::MAX,
        exact_confidential(entries_view(a)) <= u64::MAX,
    ensures
        b.total_cnt == exact_total(entries_view(b)),
        b.confidential_cnt == exact_confidential(entries_view(b)),
{
    lemma_sum_total_exact(entries_view(a));
    lemma_sum_confidential_exact(entries_view(a));
}

/// Formatting is idempotent: formatting a formatted round again yields the same
/// entries, totals and renderings.
pub proof fn lemma_format_idempotent(a: ReceiverSet, b: ReceiverSet, c: ReceiverSet)
    requires
        formatted(a, b),
        formatted(b, c),
    ensures
        entries_view(c) == entries_view(b),
        c.total_cnt == b.total_cnt,
        c.confidential_cnt == b.confidential_cnt,
        c.non_confidential_amount_readable@ == b.non_confidential_amount_readable@,
        c.entries@.len() == b.entries@.len(),
        forall|i: int|
            0 <= i < c.entries@.len() ==> (#[trigger] c.entries@[i]).non_confidential_amount_readable@
                == b.entries@[i].non_confidential_amount_readable@,
{
    assert forall|i: int| 0 <= i < c.entries@.len() implies (#[trigger] c.entries@[i]).non_confidential_amount_readable@
        == b.entries@[i].non_confidential_amount_readable@ by {
        assert(entries_view(c)[i] == entries_view(b)[i]);
    }
}

/// Formatting keeps the entries' order, so a sorted round stays sorted.
pub proof fn lemma_formatted_keeps_order(a: ReceiverSet, b: ReceiverSet)
    requires
        formatted(a, b),
        sorted_desc(a.entries@),
    ensures
        sorted_desc(b.entries@),
{
    assert forall|i: int, j: int| 0 <= i < j < b.entries@.len() implies b.entries@[i].non_confidential_amount
        >= b.entries@[j].non_confidential_amount by {
        assert(entries_view(b)[i] == entries_view(a)[i]);
        assert(entries_view(b)[j] == entries_view(a)[j]);
    }
}

} // verus!
