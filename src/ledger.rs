use crate::model::Tx;
use vstd::prelude::*;

verus! {

/// Seconds between two blocks.
pub const BLOCK_ITV_SECS: u64 = 16;

/// Seconds in a day.
pub const SECS_PER_DAY: u64 = 86400;

/// Transactions asked for in one page.
pub const PAGE_SIZE: u64 = 100;

/// The number of blocks in `days_within` days, counting at least one day.
pub open spec fn blocks_in_days(days_within: u64) -> int {
    let d = if days_within == 0 {
        1
    } else {
        days_within
    };
    d * 86400 / 16
}

/// The number of blocks produced in `days_within` days (at least one day).
pub fn days_to_start_height(days_within: u64) -> (r: u64)
    requires
        days_within <= u64::MAX / SECS_PER_DAY,
    ensures
        r == blocks_in_days(days_within),
{
    let d: u64 = if days_within == 0 {
        1
    } else {
        days_within
    };
    d * SECS_PER_DAY / BLOCK_ITV_SECS
}

/// The height after which transactions count: `days_within` days before
/// `latest_height`, and never below zero.
pub fn start_height(latest_height: u64, days_within: u64) -> (r: u64)
    requires
        days_within <= u64::MAX / SECS_PER_DAY,
    ensures
        r == if latest_height >= blocks_in_days(days_within) {
            latest_height - blocks_in_days(days_within)
        } else {
            0
        },
{
    latest_height.saturating_sub(days_to_start_height(days_within))
}

/// Whether a transaction is kept: it succeeded and is newer than `start`.
pub open spec fn is_recent_success(t: Tx, start: u64) -> bool {
    t.code == 0 && t.height > start
}

/// The transactions of `s` that succeeded and are newer than `start`, in order.
pub open spec fn recent_successful(s: Seq<Tx>, start: u64) -> Seq<Tx>
    decreases s.len(),
{
    if s.len() == 0 {
        Seq::empty()
    } else {
        let p = recent_successful(s.drop_last(), start);
        if is_recent_success(s.last(), start) {
            p.push(s.last())
        } else {
            p
        }
    }
}

/// Keeps the transactions that succeeded and are newer than `start`, in order.
pub fn keep_recent_successful(txs: Vec<Tx>, start: u64) -> (r: Vec<Tx>)
    ensures
        r@ == recent_successful(txs@, start),
{
    let ghost orig = txs@;
    let mut rest = txs;
    let mut r: Vec<Tx> = Vec::new();
    let ghost mut k: int = 0;
    while rest.len() > 0
        invariant
            0 <= k <= orig.len(),
            rest@ == orig.subrange(k, orig.len() as int),
            r@ == recent_successful(orig.subrange(0, k), start),
        decreases rest.len(),
    {
        let t = rest.remove(0);
        assert(t == orig[k]);
        assert(orig.subrange(0, k + 1).drop_last() =~= orig.subrange(0, k));
        if t.code == 0 && t.height > start {
            r.push(t);
        }
        proof {
            k = k + 1;
        }
        assert(rest@ =~= orig.subrange(k, orig.len() as int));
    }
    assert(orig.subrange(0, k) =~= orig);
    r
}

/// Every transaction kept succeeded and is newer than the start height.
pub proof fn lemma_recent_successful_kept(s: Seq<Tx>, start: u64)
    ensures
        forall|i: int|
            0 <= i < recent_successful(s, start).len() ==> is_recent_success(
                #[trigger] recent_successful(s, start)[i],
                start,
            ),
    decreases s.len(),
{
    if s.len() > 0 {
        lemma_recent_successful_kept(s.drop_last(), start);
        let p = recent_successful(s.drop_last(), start);
        assert forall|i: int| 0 <= i < recent_successful(s, start).len() implies is_recent_success(
            #[trigger] recent_successful(s, start)[i],
            start,
        ) by {
            if i < p.len() {
                assert(recent_successful(s, start)[i] == p[i]);
            }
        }
    }
}

/// The paging of one address's transaction history, newest first: the start
/// height, the total count the service reported, the last page asked for and
/// the transactions received so far.
pub struct Pager {
    pub start_height: u64,
    pub total_cnt: u64,
    pub page: u64,
    pub last_page_len: usize,
    pub txs: Vec<Tx>,
}

impl Pager {
    /// Whether one more page is asked for: the last page was not empty, fewer
    /// transactions than the total have come, and the oldest one received is
    /// still newer than the start height.
    pub open spec fn wants_more(&self) -> bool {
        &&& self.last_page_len > 0
        &&& self.txs@.len() > 0
        &&& self.txs@.len() < self.total_cnt
        &&& self.start_height < self.txs@.last().height
        &&& self.page < u64::MAX
    }

    /// Paging after the first page.
    pub fn new(start_height: u64, total_cnt: u64, first_page: Vec<Tx>) -> (r: Pager)
        ensures
            r.start_height == start_height,
            r.total_cnt == total_cnt,
            r.page == 1,
            r.last_page_len == first_page@.len(),
            r.txs@ == first_page@,
    {
        let n = first_page.len();
        Pager { start_height, total_cnt, page: 1, last_page_len: n, txs: first_page }
    }

    /// The number of the page to ask for next, if any.
    pub fn next_page(&self) -> (r: Option<u64>)
        ensures
            r == if self.wants_more() {
                Some((self.page + 1) as u64)
            } else {
                None::<u64>
            },
    {
        let n = self.txs.len();
        if self.last_page_len > 0 && n > 0 && (n as u64) < self.total_cnt && self.start_height
            < self.txs[n - 1].height && self.page < u64::MAX {
            Some(self.page + 1)
        } else {
            None
        }
    }

    /// Takes in the page asked for.
    pub fn add_page(&mut self, part: Vec<Tx>)
        requires
            old(self).wants_more(),
        ensures
            final(self).txs@ == old(self).txs@ + part@,
            final(self).page == old(self).page + 1,
            final(self).last_page_len == part@.len(),
            final(self).start_height == old(self).start_height,
            final(self).total_cnt == old(self).total_cnt,
    {
        let mut part = part;
        self.last_page_len = part.len();
        self.txs.append(&mut part);
        self.page = self.page + 1;
    }

    /// The transactions received that succeeded and are newer than the start
    /// height, newest first.
    pub fn finish(self) -> (r: Vec<Tx>)
        ensures
            r@ == recent_successful(self.txs@, self.start_height),
    {
        keep_recent_successful(self.txs, self.start_height)
    }
}

/// Whether `c` is a decimal digit.
pub open spec fn is_digit(c: char) -> bool {
    '0' <= c && c <= '9'
}

/// The value of a decimal digit.
pub open spec fn digit_value(c: char) -> nat {
    (c as u32 - '0' as u32) as nat
}

/// The value of a string of decimal digits.
pub open spec fn decimal_value(s: Seq<char>) -> nat
    decreases s.len(),
{
    if s.len() == 0 {
        0
    } else {
        decimal_value(s.drop_last()) * 10 + digit_value(s.last())
    }
}

/// Whether `s` is a number as the indexing service writes one: one or more
/// decimal digits whose value fits in a `u64`.
pub open spec fn is_u64_decimal(s: Seq<char>) -> bool {
    &&& s.len() > 0
    &&& forall|i: int| 0 <= i < s.len() ==> is_digit(#[trigger] s[i])
    &&& decimal_value(s) <= u64::MAX
}

proof fn lemma_prefix_value_le(s: Seq<char>, k: int)
    requires
        0 <= k <= s.len(),
        forall|i: int| 0 <= i < s.len() ==> is_digit(#[trigger] s[i]),
    ensures
        decimal_value(s.subrange(0, k)) <= decimal_value(s),
    decreases s.len() - k,
{
    if k < s.len() {
        lemma_prefix_value_le(s, k + 1);
        let p = s.subrange(0, k + 1);
        assert(p.drop_last() =~= s.subrange(0, k));
    } else {
        assert(s.subrange(0, k) =~= s);
    }
}

/// Reads a count or a height that the indexing service sent as a string.
pub fn parse_u64(s: &str) -> (r: Option<u64>)
    ensures
        r is Some <==> is_u64_decimal(s@),
        r matches Some(n) ==> n == decimal_value(s@),
{
    let len = s.unicode_len();
    if len == 0 {
        return None;
    }
    let mut i: usize = 0;
    while i < len
        invariant
            i <= len,
            len == s@.len(),
            forall|j: int| 0 <= j < i ==> is_digit(#[trigger] s@[j]),
        decreases len - i,
    {
        let c = s.get_char(i);
        if !('0' <= c && c <= '9') {
            return None;
        }
        i = i + 1;
    }
    let mut acc: u64 = 0;
    let mut i: usize = 0;
    while i < len
        invariant
            i <= len,
            len == s@.len(),
            forall|j: int| 0 <= j < len ==> is_digit(#[trigger] s@[j]),
            acc == decimal_value(s@.subrange(0, i as int)),
        decreases len - i,
    {
        let c = s.get_char(i);
        let d = (c as u32 - '0' as u32) as u64;
        let ghost p = s@.subrange(0, i + 1);
        assert(p.drop_last() =~= s@.subrange(0, i as int));
        assert(decimal_value(p) == acc * 10 + d);
        proof {
            lemma_prefix_value_le(s@, i + 1);
        }
        match acc.checked_mul(10) {
            Some(m) => match m.checked_add(d) {
                Some(v) => {
                    acc = v;
                },
                None => {
                    return None;
                },
            },
            None => {
                return None;
            },
        }
        i = i + 1;
    }
    assert(s@.subrange(0, i as int) =~= s@);
    Some(acc)
}

} // verus!
