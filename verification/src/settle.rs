//! Settling net balances with a minimal list of transfers.
//!
//! `settle` repeatedly matches the largest creditor with the largest
//! debtor (ties broken by ascending identifier) and transfers the smaller
//! of the two magnitudes, which zeroes at least one of the pair per round.
//! Applying the resulting transfers to the input balances zeroes every
//! participant, the list has at most `n - 1` entries for `n` participants
//! with a non-zero balance, and the whole procedure is a function of the
//! input alone (`settle_rec`), so repeated runs agree.

use vstd::prelude::*;
use vstd::math::abs;
use crate::order::lex_lt;
use crate::order::lemma_lex_lt_trichotomy;
use crate::balance::BalanceEntry;
use crate::balance::bal_views;
use crate::balance::lookup;
use crate::balance::has_key;
use crate::balance::sum_values;
use crate::balance::sum_abs;
use crate::balance::sorted_strict;
use crate::balance::lemma_lookup_concat;
use crate::balance::lemma_has_key_concat;
use crate::balance::lemma_sum_values_concat;
use crate::balance::lemma_sum_abs_concat;
use crate::balance::lemma_lookup_absent;
use crate::balance::lemma_has_key_index;
use crate::balance::lemma_sum_abs_nonneg;
use crate::balance::lemma_abs_sum_le;
use crate::balance::lemma_entry_abs_le_sum_abs;
use crate::balance::lemma_update_entry;
use crate::balance::lemma_lookup_at_index;

verus! {

/// A proposed payment: `from` pays `amount` minor units to `to`.
#[derive(Debug, Clone, PartialEq, Eq)]
pub struct Transfer {
    pub from: String,
    pub to: String,
    pub amount: i128,
}

/// Settlement was asked of balances that do not sum to zero: an internal
/// invariant violation that is reported, never silently corrected.
#[derive(Debug, PartialEq, Eq, Clone)]
pub enum SettlementError {
    Unbalanced,
}

/// The mathematical content of a transfer list: (from, to, amount) triples.
pub open spec fn transfer_views(ts: Seq<Transfer>) -> Seq<(Seq<char>, Seq<char>, int)> {
    ts.map(|n: int, t: Transfer| (t.from@, t.to@, t.amount as int))
}

/// The effect of one transfer on the balance of `x`: paying raises the
/// payer's (negative) balance, receiving lowers the receiver's.
pub open spec fn transfer_delta(t: (Seq<char>, Seq<char>, int), x: Seq<char>) -> int {
    (if t.0 == x {
        t.2
    } else {
        0int
    }) + (if t.1 == x {
        -t.2
    } else {
        0int
    })
}

/// The combined effect of a transfer list on the balance of `x`.
pub open spec fn transfers_delta(ts: Seq<(Seq<char>, Seq<char>, int)>, x: Seq<char>) -> int
    decreases ts.len(),
{
    if ts.len() == 0 {
        0
    } else {
        transfers_delta(ts.drop_last(), x) + transfer_delta(ts.last(), x)
    }
}

/// `m` is the first index carrying the maximum amount: the largest
/// creditor, with ties broken by ascending identifier on a sorted list.
pub open spec fn is_first_max(w: Seq<(Seq<char>, int)>, m: int) -> bool {
    &&& 0 <= m < w.len()
    &&& (forall|n: int| 0 <= n < w.len() ==> w[n].1 <= w[m].1)
    &&& (forall|n: int| 0 <= n < m ==> w[n].1 < w[m].1)
}

/// `m` is the first index carrying the minimum amount: the largest debtor.
pub open spec fn is_first_min(w: Seq<(Seq<char>, int)>, m: int) -> bool {
    &&& 0 <= m < w.len()
    &&& (forall|n: int| 0 <= n < w.len() ==> w[n].1 >= w[m].1)
    &&& (forall|n: int| 0 <= n < m ==> w[n].1 > w[m].1)
}

pub proof fn lemma_first_max_unique(w: Seq<(Seq<char>, int)>, m1: int, m2: int)
    requires
        is_first_max(w, m1),
        is_first_max(w, m2),
    ensures
        m1 == m2,
{
    if m1 < m2 {
        assert(w[m1].1 < w[m2].1);
        assert(w[m2].1 <= w[m1].1);
    } else if m2 < m1 {
        assert(w[m2].1 < w[m1].1);
        assert(w[m1].1 <= w[m2].1);
    }
}

pub proof fn lemma_first_min_unique(w: Seq<(Seq<char>, int)>, m1: int, m2: int)
    requires
        is_first_min(w, m1),
        is_first_min(w, m2),
    ensures
        m1 == m2,
{
    if m1 < m2 {
        assert(w[m1].1 > w[m2].1);
        assert(w[m2].1 >= w[m1].1);
    } else if m2 < m1 {
        assert(w[m2].1 > w[m1].1);
        assert(w[m1].1 >= w[m2].1);
    }
}

pub open spec fn first_max_idx(w: Seq<(Seq<char>, int)>) -> int {
    choose|m: int| is_first_max(w, m)
}

pub open spec fn first_min_idx(w: Seq<(Seq<char>, int)>) -> int {
    choose|m: int| is_first_min(w, m)
}

/// The entries with a non-zero amount, in order.
pub open spec fn remove_zeros(s: Seq<(Seq<char>, int)>) -> Seq<(Seq<char>, int)>
    decreases s.len(),
{
    if s.len() == 0 {
        Seq::empty()
    } else if s.last().1 == 0 {
        remove_zeros(s.drop_last())
    } else {
        remove_zeros(s.drop_last()).push(s.last())
    }
}

/// What filtering the zero entries of a sorted list preserves: order, the
/// non-zero keys, every lookup, and both sums.
pub proof fn lemma_rz(s: Seq<(Seq<char>, int)>)
    requires
        sorted_strict(s),
    ensures
        sorted_strict(remove_zeros(s)),
        remove_zeros(s).len() <= s.len(),
        forall|x: Seq<char>| has_key(remove_zeros(s), x) == (has_key(s, x) && lookup(s, x) != 0),
        forall|x: Seq<char>| lookup(remove_zeros(s), x) == lookup(s, x),
        sum_values(remove_zeros(s)) == sum_values(s),
        sum_abs(remove_zeros(s)) == sum_abs(s),
        forall|n: int| 0 <= n < remove_zeros(s).len() ==> (#[trigger] remove_zeros(s)[n].1) != 0,
        forall|n: int| 0 <= n < remove_zeros(s).len() ==> exists|m: int|
            0 <= m < s.len() && #[trigger] remove_zeros(s)[n] == s[m],
    decreases s.len(),
{
    if s.len() == 0 {
        assert(remove_zeros(s) =~= s);
    } else {
        let d = s.drop_last();
        let l = s.last();
        assert forall|i: int, j: int| 0 <= i < j < d.len() implies lex_lt(d[i].0, d[j].0) by {
            assert(d[i] == s[i]);
            assert(d[j] == s[j]);
            assert(lex_lt(s[i].0, s[j].0));
        }
        lemma_rz(d);
        let rd = remove_zeros(d);
        assert(s =~= d + seq![l]);
        // The last key is fresh: a sorted list repeats no key.
        assert forall|j: int| 0 <= j < d.len() implies d[j].0 != l.0 by {
            assert(lex_lt(s[j].0, s[s.len() - 1].0));
            lemma_lex_lt_trichotomy(d[j].0, l.0);
        }
        lemma_has_key_index(d, l.0);
        assert(!has_key(d, l.0));
        assert forall|x: Seq<char>| #[trigger] lookup(s, x) == (if has_key(d, x) {
            lookup(d, x)
        } else if l.0 == x {
            l.1
        } else {
            0int
        }) by {
            lemma_lookup_concat(d, seq![l], x);
            lemma_lookup_single_here(l, x);
        }
        assert forall|x: Seq<char>| #[trigger] has_key(s, x) == (has_key(d, x) || l.0 == x) by {
            lemma_has_key_concat(d, seq![l], x);
            lemma_has_key_single_here(l, x);
        }
        lemma_sum_values_concat(d, seq![l]);
        lemma_sum_abs_concat(d, seq![l]);
        lemma_sum_values_single_here(l);
        lemma_sum_abs_single_here(l);
        if l.1 == 0 {
            assert(remove_zeros(s) == rd);
            assert forall|x: Seq<char>| #[trigger] lookup(rd, x) == lookup(s, x) by {
                if !has_key(d, x) {
                    assert(!has_key(rd, x));
                    lemma_lookup_absent(rd, x);
                }
            }
            assert forall|x: Seq<char>| #[trigger] has_key(rd, x)
                == (has_key(s, x) && lookup(s, x) != 0) by {
                if l.0 == x && !has_key(d, x) {
                    assert(lookup(s, x) == 0);
                }
            }
        } else {
            assert(remove_zeros(s) == rd.push(l));
            let r = rd.push(l);
            assert(r =~= rd + seq![l]);
            assert(!has_key(rd, l.0));
            assert forall|x: Seq<char>| #[trigger] lookup(r, x) == lookup(s, x) by {
                lemma_lookup_concat(rd, seq![l], x);
                lemma_lookup_single_here(l, x);
                if !has_key(rd, x) {
                    lemma_lookup_absent(rd, x);
                    if has_key(d, x) {
                        assert(lookup(d, x) == 0);
                    }
                }
            }
            assert forall|x: Seq<char>| #[trigger] has_key(r, x)
                == (has_key(s, x) && lookup(s, x) != 0) by {
                lemma_has_key_concat(rd, seq![l], x);
                lemma_has_key_single_here(l, x);
                if has_key(d, x) && !has_key(rd, x) {
                    assert(lookup(d, x) == 0);
                }
            }
            lemma_sum_values_concat(rd, seq![l]);
            lemma_sum_abs_concat(rd, seq![l]);
            // Order: every kept entry of the prefix sits below the last key.
            assert forall|i: int, j: int| 0 <= i < j < r.len() implies lex_lt(r[i].0, r[j].0) by {
                if j == r.len() - 1 {
                    assert(r[j] == l);
                    let m = choose|m: int| 0 <= m < d.len() && #[trigger] rd[i] == d[m];
                    assert(lex_lt(s[m].0, s[s.len() - 1].0));
                } else {
                    assert(r[i] == rd[i] && r[j] == rd[j]);
                }
            }
            assert forall|n: int| 0 <= n < r.len() implies exists|m: int|
                0 <= m < s.len() && #[trigger] r[n] == s[m] by {
                if n == r.len() - 1 {
                    assert(r[n] == s[s.len() - 1]);
                } else {
                    let m = choose|m: int| 0 <= m < d.len() && #[trigger] rd[n] == d[m];
                    assert(r[n] == s[m]);
                }
            }
        }
    }
}

/// Filtering a sorted list with at least one zero entry shortens it.
pub proof fn lemma_rz_shorter(s: Seq<(Seq<char>, int)>, n: int)
    requires
        sorted_strict(s),
        0 <= n < s.len(),
        s[n].1 == 0,
    ensures
        remove_zeros(s).len() < s.len(),
    decreases s.len(),
{
    let d = s.drop_last();
    assert forall|i: int, j: int| 0 <= i < j < d.len() implies lex_lt(d[i].0, d[j].0) by {
        assert(d[i] == s[i]);
        assert(d[j] == s[j]);
        assert(lex_lt(s[i].0, s[j].0));
    }
    lemma_rz(d);
    if n == s.len() - 1 {
        assert(s.last().1 == 0);
    } else {
        lemma_rz_shorter(d, n);
    }
}

proof fn lemma_lookup_single_here(e: (Seq<char>, int), x: Seq<char>)
    ensures
        lookup(seq![e], x) == (if e.0 == x {
            e.1
        } else {
            0int
        }),
{
    assert(seq![e].drop_first() =~= Seq::<(Seq<char>, int)>::empty());
    assert(lookup(Seq::<(Seq<char>, int)>::empty(), x) == 0);
}

proof fn lemma_has_key_single_here(e: (Seq<char>, int), x: Seq<char>)
    ensures
        has_key(seq![e], x) == (e.0 == x),
{
    assert(seq![e].drop_first() =~= Seq::<(Seq<char>, int)>::empty());
    assert(!has_key(Seq::<(Seq<char>, int)>::empty(), x));
}

proof fn lemma_sum_values_single_here(e: (Seq<char>, int))
    ensures
        sum_values(seq![e]) == e.1,
{
    assert(seq![e].drop_first() =~= Seq::<(Seq<char>, int)>::empty());
    assert(sum_values(Seq::<(Seq<char>, int)>::empty()) == 0);
}

proof fn lemma_sum_abs_single_here(e: (Seq<char>, int))
    ensures
        sum_abs(seq![e]) == abs(e.1),
{
    assert(seq![e].drop_first() =~= Seq::<(Seq<char>, int)>::empty());
    assert(sum_abs(Seq::<(Seq<char>, int)>::empty()) == 0);
}

/// The greedy settlement of a balance list with no zero entries: match the
/// first maximum (largest creditor) with the first minimum (largest
/// debtor), transfer the smaller magnitude, drop whoever reached zero, and
/// recurse. The fuel only bounds the recursion; `w.len()` steps always
/// suffice because every round removes an entry.
pub open spec fn settle_rec(w: Seq<(Seq<char>, int)>, fuel: nat) -> Seq<(Seq<char>, Seq<char>, int)>
    decreases fuel,
{
    if fuel == 0 || w.len() == 0 {
        Seq::empty()
    } else {
        let ci = first_max_idx(w);
        let di = first_min_idx(w);
        if !(0 <= ci < w.len() && 0 <= di < w.len() && w[ci].1 > 0 && w[di].1 < 0) {
            Seq::empty()
        } else {
            let t = if w[ci].1 <= -w[di].1 {
                w[ci].1
            } else {
                -w[di].1
            };
            let w1 = w.update(ci, (w[ci].0, w[ci].1 - t));
            let w2 = w1.update(di, (w1[di].0, w1[di].1 + t));
            seq![(w[di].0, w[ci].0, t)] + settle_rec(remove_zeros(w2), (fuel - 1) as nat)
        }
    }
}

/// The index of the largest amount, earliest first: on a sorted list this
/// is the largest creditor with ties broken by ascending identifier.
fn find_max(work: &Vec<BalanceEntry>) -> (r: usize)
    requires
        work@.len() > 0,
    ensures
        is_first_max(bal_views(work@), r as int),
{
    let mut best: usize = 0;
    let mut m: usize = 1;
    while m < work.len()
        invariant
            0 <= best < m,
            1 <= m <= work@.len(),
            forall|n: int| 0 <= n < m
                ==> (#[trigger] bal_views(work@)[n].1) <= bal_views(work@)[best as int].1,
            forall|n: int| 0 <= n < best
                ==> (#[trigger] bal_views(work@)[n].1) < bal_views(work@)[best as int].1,
        decreases work@.len() - m,
    {
        if work[m].amount > work[best].amount {
            best = m;
        }
        m = m + 1;
    }
    best
}

/// The index of the smallest amount, earliest first: the largest debtor.
fn find_min(work: &Vec<BalanceEntry>) -> (r: usize)
    requires
        work@.len() > 0,
    ensures
        is_first_min(bal_views(work@), r as int),
{
    let mut best: usize = 0;
    let mut m: usize = 1;
    while m < work.len()
        invariant
            0 <= best < m,
            1 <= m <= work@.len(),
            forall|n: int| 0 <= n < m
                ==> (#[trigger] bal_views(work@)[n].1) >= bal_views(work@)[best as int].1,
            forall|n: int| 0 <= n < best
                ==> (#[trigger] bal_views(work@)[n].1) > bal_views(work@)[best as int].1,
        decreases work@.len() - m,
    {
        if work[m].amount < work[best].amount {
            best = m;
        }
        m = m + 1;
    }
    best
}

/// Replaces the amount at index `i`, keeping the identifier.
fn set_amount(work: &mut Vec<BalanceEntry>, i: usize, val: i128)
    requires
        i < old(work)@.len(),
    ensures
        bal_views(final(work)@) == bal_views(old(work)@).update(
            i as int,
            (old(work)@[i as int].id@, val as int),
        ),
{
    let e = work.remove(i);
    work.insert(i, BalanceEntry { id: e.id, amount: val });
    proof {
        assert(bal_views(work@) =~= bal_views(old(work)@).update(
            i as int,
            (old(work)@[i as int].id@, val as int),
        ));
    }
}

/// Copies the entries with a non-zero amount, in order.
fn drop_zero_entries(work: &Vec<BalanceEntry>) -> (r: Vec<BalanceEntry>)
    ensures
        bal_views(r@) == remove_zeros(bal_views(work@)),
{
    let ghost wv = bal_views(work@);
    let mut out: Vec<BalanceEntry> = Vec::new();
    let mut n: usize = 0;
    proof {
        assert(wv.take(0) =~= Seq::<(Seq<char>, int)>::empty());
        assert(bal_views(out@) =~= remove_zeros(wv.take(0)));
    }
    while n < work.len()
        invariant
            n <= work@.len(),
            wv == bal_views(work@),
            bal_views(out@) == remove_zeros(wv.take(n as int)),
        decreases work@.len() - n,
    {
        proof {
            assert(wv.take(n + 1).drop_last() =~= wv.take(n as int));
            assert(wv.take(n + 1).last() == wv[n as int]);
        }
        if work[n].amount != 0 {
            let entry = BalanceEntry { id: work[n].id.clone(), amount: work[n].amount };
            out.push(entry);
            proof {
                assert(bal_views(out@) =~= remove_zeros(wv.take(n as int)).push(wv[n as int]));
            }
        }
        n = n + 1;
    }
    proof {
        assert(wv.take(work@.len() as int) =~= wv);
    }
    out
}

/// Produces the transfers that settle the given balances, or reports that
/// they do not sum to zero. On success the transfers are exactly the
/// greedy matching of `settle_rec` (so repeated calls agree), applying
/// them zeroes every balance, each transfer moves a positive amount
/// between two distinct recorded participants, and at most `n - 1`
/// transfers are returned for `n` non-zero balances.
pub fn settle(balances: &Vec<BalanceEntry>) -> (r: Result<Vec<Transfer>, SettlementError>)
    requires
        sorted_strict(bal_views(balances@)),
        sum_abs(bal_views(balances@)) < i128::MAX,
    ensures
        r is Ok <==> sum_values(bal_views(balances@)) == 0,
        r matches Err(e) ==> e == SettlementError::Unbalanced,
        r matches Ok(ts) ==> transfer_views(ts@) == settle_rec(
            remove_zeros(bal_views(balances@)),
            remove_zeros(bal_views(balances@)).len(),
        ),
        r matches Ok(ts) ==> forall|x: Seq<char>|
            lookup(bal_views(balances@), x) + transfers_delta(transfer_views(ts@), x) == 0,
        r matches Ok(ts) ==> forall|n: int| 0 <= n < ts@.len()
            ==> (#[trigger] transfer_views(ts@)[n]).2 > 0
                && transfer_views(ts@)[n].0 != transfer_views(ts@)[n].1
                && has_key(bal_views(balances@), transfer_views(ts@)[n].0)
                && has_key(bal_views(balances@), transfer_views(ts@)[n].1),
        r matches Ok(ts) ==> ts@.len() <= (if remove_zeros(bal_views(balances@)).len() == 0 {
            0int
        } else {
            remove_zeros(bal_views(balances@)).len() - 1
        }),
{
    let ghost bv = bal_views(balances@);
    proof {
        lemma_sum_abs_nonneg(bv);
        assert(bv.take(0) =~= Seq::<(Seq<char>, int)>::empty());
    }
    let mut acc: i128 = 0;
    let mut n: usize = 0;
    while n < balances.len()
        invariant
            n <= balances@.len(),
            bv == bal_views(balances@),
            sum_abs(bv) < i128::MAX,
            acc as int == sum_values(bv.take(n as int)),
        decreases balances@.len() - n,
    {
        proof {
            assert(bv.take(n + 1) =~= bv.take(n as int) + seq![bv[n as int]]);
            lemma_sum_values_concat(bv.take(n as int), seq![bv[n as int]]);
            lemma_sum_values_single_here(bv[n as int]);
            assert(bv =~= bv.take(n + 1) + bv.skip(n + 1));
            lemma_sum_abs_concat(bv.take(n + 1), bv.skip(n + 1));
            lemma_sum_abs_nonneg(bv.skip(n + 1));
            lemma_sum_abs_nonneg(bv.take(n + 1));
            lemma_abs_sum_le(bv.take(n + 1));
        }
        acc = acc + balances[n].amount;
        n = n + 1;
    }
    proof {
        assert(bv.take(balances@.len() as int) =~= bv);
    }
    if acc != 0 {
        return Err(SettlementError::Unbalanced);
    }
    let mut work = drop_zero_entries(balances);
    let ghost w0 = remove_zeros(bv);
    proof {
        lemma_rz(bv);
    }
    let mut transfers: Vec<Transfer> = Vec::new();
    let ghost mut fuel: nat = w0.len();
    proof {
        assert(transfer_views(transfers@) =~= Seq::<(Seq<char>, Seq<char>, int)>::empty());
        assert(transfer_views(transfers@) + settle_rec(w0, fuel) =~= settle_rec(w0, w0.len()));
    }
    while work.len() > 0
        invariant
            bv == bal_views(balances@),
            sorted_strict(bal_views(work@)),
            forall|n2: int| 0 <= n2 < bal_views(work@).len()
                ==> (#[trigger] bal_views(work@)[n2].1) != 0,
            sum_values(bal_views(work@)) == 0,
            sum_abs(bal_views(work@)) >= 0,
            sum_abs(bal_views(work@)) < i128::MAX,
            fuel >= bal_views(work@).len(),
            transfer_views(transfers@) + settle_rec(bal_views(work@), fuel)
                == settle_rec(w0, w0.len()),
            forall|x: Seq<char>| lookup(bv, x) + transfers_delta(transfer_views(transfers@), x)
                == #[trigger] lookup(bal_views(work@), x),
            forall|x: Seq<char>| #[trigger] has_key(bal_views(work@), x) ==> has_key(bv, x),
            forall|n2: int| 0 <= n2 < transfers@.len()
                ==> (#[trigger] transfer_views(transfers@)[n2]).2 > 0
                    && transfer_views(transfers@)[n2].0 != transfer_views(transfers@)[n2].1
                    && has_key(bv, transfer_views(transfers@)[n2].0)
                    && has_key(bv, transfer_views(transfers@)[n2].1),
            bal_views(work@).len() > 0
                ==> transfers@.len() + bal_views(work@).len() <= w0.len(),
            bal_views(work@).len() == 0 ==> transfers@.len() <= (if w0.len() == 0 {
                0int
            } else {
                w0.len() - 1
            }),
        decreases bal_views(work@).len(),
    {
        let ghost wv = bal_views(work@);
        let ci = find_max(&work);
        let di = find_min(&work);
        proof {
            // A non-empty zero-sum list of non-zero amounts has entries of
            // both signs and at least two entries.
            if wv[ci as int].1 <= 0 {
                assert(forall|n2: int| 0 <= n2 < wv.len() ==> (#[trigger] wv[n2].1) < 0);
                lemma_sum_values_all_neg(wv);
            }
            if wv[di as int].1 >= 0 {
                assert(forall|n2: int| 0 <= n2 < wv.len() ==> (#[trigger] wv[n2].1) > 0);
                lemma_sum_values_all_pos(wv);
            }
            assert(wv[ci as int].1 > 0);
            assert(wv[di as int].1 < 0);
            assert(ci != di);
            if wv.len() == 1 {
                assert(sum_values(wv.drop_first()) == 0);
                assert(sum_values(wv) == wv[0].1);
            }
            assert(wv.len() >= 2);
            lemma_entry_abs_le_sum_abs(wv, ci as int);
            lemma_entry_abs_le_sum_abs(wv, di as int);
            lemma_lookup_at_index(wv, ci as int);
            lemma_lookup_at_index(wv, di as int);
            lemma_lex_lt_trichotomy(wv[ci as int].0, wv[di as int].0);
            if ci < di {
                assert(lex_lt(wv[ci as int].0, wv[di as int].0));
            } else {
                assert(lex_lt(wv[di as int].0, wv[ci as int].0));
            }
            assert(wv[ci as int].0 != wv[di as int].0);
        }
        let c = work[ci].amount;
        let d = work[di].amount;
        let nd = -d;
        let t = if c <= nd {
            c
        } else {
            nd
        };
        let ghost tv0 = transfer_views(transfers@);
        transfers.push(Transfer { from: work[di].id.clone(), to: work[ci].id.clone(), amount: t });
        set_amount(&mut work, ci, c - t);
        set_amount(&mut work, di, d + t);
        let next = drop_zero_entries(&work);
        work = next;
        proof {
            let w1 = wv.update(ci as int, (wv[ci as int].0, c - t as int));
            let w2 = w1.update(di as int, (w1[di as int].0, (d + t) as int));
            assert(w1[di as int] == wv[di as int]);
            assert(bal_views(work@) == remove_zeros(w2));
            lemma_update_entry(wv, ci as int, c - t as int);
            lemma_update_entry(w1, di as int, (d + t) as int);
            lemma_rz(w2);
            let wv2 = bal_views(work@);
            lemma_sum_abs_nonneg(wv2);
            // One of the matched pair reaches zero, so the list shrinks.
            if c <= nd {
                assert(w2[ci as int].1 == 0);
                lemma_rz_shorter(w2, ci as int);
            } else {
                assert(w2[di as int].1 == 0);
                lemma_rz_shorter(w2, di as int);
            }
            assert(wv2.len() < wv.len());
            // The step taken is exactly one unfolding of `settle_rec`.
            assert(is_first_max(wv, first_max_idx(wv)));
            assert(is_first_min(wv, first_min_idx(wv)));
            lemma_first_max_unique(wv, first_max_idx(wv), ci as int);
            lemma_first_min_unique(wv, first_min_idx(wv), di as int);
            assert(fuel > 0);
            let step = (wv[di as int].0, wv[ci as int].0, t as int);
            assert(settle_rec(wv, fuel) == seq![step] + settle_rec(wv2, (fuel - 1) as nat));
            let tv1 = transfer_views(transfers@);
            assert(tv1 =~= tv0 + seq![step]);
            assert(tv1 + settle_rec(wv2, (fuel - 1) as nat) =~= tv0 + settle_rec(wv, fuel));
            fuel = (fuel - 1) as nat;
            // The running transfers keep tracking the remaining balances.
            assert forall|x: Seq<char>|
                lookup(bv, x) + transfers_delta(tv1, x) == #[trigger] lookup(wv2, x) by {
                assert(tv1.drop_last() =~= tv0);
                assert(tv1.last() == step);
                assert(transfers_delta(tv1, x)
                    == transfers_delta(tv0, x) + transfer_delta(step, x));
                assert(lookup(wv2, x) == lookup(w2, x));
            }
            assert forall|x: Seq<char>| #[trigger] has_key(wv2, x) implies has_key(bv, x) by {
                assert(has_key(w2, x) == has_key(wv, x));
            }
            assert forall|n2: int| 0 <= n2 < transfers@.len()
                implies (#[trigger] transfer_views(transfers@)[n2]).2 > 0
                    && transfer_views(transfers@)[n2].0 != transfer_views(transfers@)[n2].1
                    && has_key(bv, transfer_views(transfers@)[n2].0)
                    && has_key(bv, transfer_views(transfers@)[n2].1) by {
                if n2 < transfers@.len() - 1 {
                    assert(transfer_views(transfers@)[n2] == tv0[n2]);
                } else {
                    assert(transfer_views(transfers@)[n2] == step);
                }
            }
        }
    }
    proof {
        assert(bal_views(work@).len() == 0);
        assert(settle_rec(bal_views(work@), fuel) == Seq::<(Seq<char>, Seq<char>, int)>::empty());
        assert(transfer_views(transfers@) =~= transfer_views(transfers@) + settle_rec(
            bal_views(work@),
            fuel,
        ));
        assert forall|x: Seq<char>|
            lookup(bv, x) + transfers_delta(transfer_views(transfers@), x) == 0 by {
            assert(lookup(bal_views(work@), x) == 0);
        }
    }
    Ok(transfers)
}

/// All amounts strictly negative forces a strictly negative sum.
proof fn lemma_sum_values_all_neg(s: Seq<(Seq<char>, int)>)
    requires
        s.len() > 0,
        forall|n: int| 0 <= n < s.len() ==> (#[trigger] s[n].1) < 0,
    ensures
        sum_values(s) < 0,
    decreases s.len(),
{
    assert(s[0].1 < 0);
    if s.len() == 1 {
        assert(sum_values(s.drop_first()) == 0);
    }
    if s.len() > 1 {
        assert(forall|n: int| 0 <= n < s.drop_first().len()
            ==> (#[trigger] s.drop_first()[n].1) == s[n + 1].1);
        lemma_sum_values_all_neg(s.drop_first());
    }
}

/// All amounts strictly positive forces a strictly positive sum.
proof fn lemma_sum_values_all_pos(s: Seq<(Seq<char>, int)>)
    requires
        s.len() > 0,
        forall|n: int| 0 <= n < s.len() ==> (#[trigger] s[n].1) > 0,
    ensures
        sum_values(s) > 0,
    decreases s.len(),
{
    assert(s[0].1 > 0);
    if s.len() == 1 {
        assert(sum_values(s.drop_first()) == 0);
    }
    if s.len() > 1 {
        assert(forall|n: int| 0 <= n < s.drop_first().len()
            ==> (#[trigger] s.drop_first()[n].1) == s[n + 1].1);
        lemma_sum_values_all_pos(s.drop_first());
    }
}

} // verus!
