//! Net balances as an association list sorted by participant identifier.
//!
//! A balance list maps each participant to a signed net amount in minor
//! units: positive means the participant is owed money, negative means the
//! participant owes money. The list is kept strictly sorted by identifier,
//! which makes the representation canonical: two balance lists with the
//! same keys and the same amounts are the same list
//! (`lemma_sorted_unique`), so every function that returns one is
//! deterministic by construction.

use vstd::prelude::*;
use vstd::math::abs;
use crate::order::lex_lt;
use crate::order::str_lt;
use crate::order::lemma_lex_lt_trichotomy;
use crate::order::lemma_lex_lt_transitive;
use crate::order::lemma_lex_lt_irreflexive;

verus! {

/// One participant's net position in minor units.
#[derive(Debug, Clone, PartialEq, Eq)]
pub struct BalanceEntry {
    pub id: String,
    pub amount: i128,
}

/// The mathematical content of a balance list: identifier and amount pairs.
pub open spec fn bal_views(s: Seq<BalanceEntry>) -> Seq<(Seq<char>, int)> {
    s.map(|i: int, e: BalanceEntry| (e.id@, e.amount as int))
}

/// The net amount recorded for `x`; zero when `x` has no entry.
pub open spec fn lookup(s: Seq<(Seq<char>, int)>, x: Seq<char>) -> int
    decreases s.len(),
{
    if s.len() == 0 {
        0
    } else if s[0].0 == x {
        s[0].1
    } else {
        lookup(s.drop_first(), x)
    }
}

/// Whether `x` has an entry in the list.
pub open spec fn has_key(s: Seq<(Seq<char>, int)>, x: Seq<char>) -> bool
    decreases s.len(),
{
    s.len() > 0 && (s[0].0 == x || has_key(s.drop_first(), x))
}

/// The sum of all recorded amounts.
pub open spec fn sum_values(s: Seq<(Seq<char>, int)>) -> int
    decreases s.len(),
{
    if s.len() == 0 {
        0
    } else {
        s[0].1 + sum_values(s.drop_first())
    }
}

/// The sum of the absolute values of all recorded amounts.
pub open spec fn sum_abs(s: Seq<(Seq<char>, int)>) -> int
    decreases s.len(),
{
    if s.len() == 0 {
        0
    } else {
        abs(s[0].1) + sum_abs(s.drop_first())
    }
}

/// Entries are strictly ascending by identifier: sorted and duplicate-free.
pub open spec fn sorted_strict(s: Seq<(Seq<char>, int)>) -> bool {
    forall|i: int, j: int| 0 <= i < j < s.len() ==> lex_lt(s[i].0, s[j].0)
}

pub proof fn lemma_lookup_concat(s1: Seq<(Seq<char>, int)>, s2: Seq<(Seq<char>, int)>, x: Seq<char>)
    ensures
        lookup(s1 + s2, x) == if has_key(s1, x) { lookup(s1, x) } else { lookup(s2, x) },
    decreases s1.len(),
{
    if s1.len() == 0 {
        assert(s1 + s2 =~= s2);
    } else {
        assert((s1 + s2).drop_first() =~= s1.drop_first() + s2);
        lemma_lookup_concat(s1.drop_first(), s2, x);
    }
}

pub proof fn lemma_has_key_concat(s1: Seq<(Seq<char>, int)>, s2: Seq<(Seq<char>, int)>, x: Seq<char>)
    ensures
        has_key(s1 + s2, x) == (has_key(s1, x) || has_key(s2, x)),
    decreases s1.len(),
{
    if s1.len() == 0 {
        assert(s1 + s2 =~= s2);
    } else {
        assert((s1 + s2).drop_first() =~= s1.drop_first() + s2);
        lemma_has_key_concat(s1.drop_first(), s2, x);
    }
}

pub proof fn lemma_sum_values_concat(s1: Seq<(Seq<char>, int)>, s2: Seq<(Seq<char>, int)>)
    ensures
        sum_values(s1 + s2) == sum_values(s1) + sum_values(s2),
    decreases s1.len(),
{
    if s1.len() == 0 {
        assert(s1 + s2 =~= s2);
    } else {
        assert((s1 + s2).drop_first() =~= s1.drop_first() + s2);
        lemma_sum_values_concat(s1.drop_first(), s2);
    }
}

pub proof fn lemma_sum_abs_concat(s1: Seq<(Seq<char>, int)>, s2: Seq<(Seq<char>, int)>)
    ensures
        sum_abs(s1 + s2) == sum_abs(s1) + sum_abs(s2),
    decreases s1.len(),
{
    if s1.len() == 0 {
        assert(s1 + s2 =~= s2);
    } else {
        assert((s1 + s2).drop_first() =~= s1.drop_first() + s2);
        lemma_sum_abs_concat(s1.drop_first(), s2);
    }
}

/// A key with no entry looks up to zero.
pub proof fn lemma_lookup_absent(s: Seq<(Seq<char>, int)>, x: Seq<char>)
    requires
        !has_key(s, x),
    ensures
        lookup(s, x) == 0,
    decreases s.len(),
{
    if s.len() > 0 {
        lemma_lookup_absent(s.drop_first(), x);
    }
}

/// `has_key` agrees with the existence of a matching index.
pub proof fn lemma_has_key_index(s: Seq<(Seq<char>, int)>, x: Seq<char>)
    ensures
        has_key(s, x) <==> exists|i: int| 0 <= i < s.len() && s[i].0 == x,
    decreases s.len(),
{
    if s.len() > 0 {
        lemma_has_key_index(s.drop_first(), x);
        if s[0].0 == x {
            assert(s[0].0 == x && 0 < s.len());
        } else if has_key(s.drop_first(), x) {
            let i = choose|i: int| 0 <= i < s.drop_first().len() && s.drop_first()[i].0 == x;
            assert(s[i + 1].0 == x);
        } else {
            assert(forall|i: int| 0 < i < s.len() ==> s[i].0 == s.drop_first()[i - 1].0);
        }
    }
}

pub proof fn lemma_sum_abs_nonneg(s: Seq<(Seq<char>, int)>)
    ensures
        sum_abs(s) >= 0,
    decreases s.len(),
{
    if s.len() > 0 {
        lemma_sum_abs_nonneg(s.drop_first());
    }
}

/// A strictly sorted balance list is determined by its keys and amounts:
/// the law behind determinism of every operation that returns balances.
pub proof fn lemma_sorted_unique(a: Seq<(Seq<char>, int)>, b: Seq<(Seq<char>, int)>)
    requires
        sorted_strict(a),
        sorted_strict(b),
        forall|x: Seq<char>| has_key(a, x) == has_key(b, x),
        forall|x: Seq<char>| lookup(a, x) == lookup(b, x),
    ensures
        a == b,
    decreases a.len(),
{
    if a.len() == 0 {
        if b.len() > 0 {
            assert(has_key(b, b[0].0));
        }
        assert(a =~= b);
    } else {
        assert(has_key(a, a[0].0));
        assert(b.len() > 0);
        // The two head keys are equal: each is present in the other list,
        // and a sorted list's head key is its least key.
        lemma_head_key_equal(a, b);
        assert(a[0].0 == b[0].0);
        assert(lookup(a, a[0].0) == a[0].1);
        assert(lookup(b, b[0].0) == b[0].1);
        // The heads absorb their key entirely: tails do not contain it.
        assert(!has_key(a.drop_first(), a[0].0)) by {
            lemma_tail_no_head_key(a);
        }
        assert(!has_key(b.drop_first(), b[0].0)) by {
            lemma_tail_no_head_key(b);
        }
        assert(forall|i: int, j: int| 0 <= i < j < a.drop_first().len()
            ==> lex_lt(a.drop_first()[i].0, a.drop_first()[j].0)) by {
            assert(forall|i: int| 0 <= i < a.drop_first().len() ==> a.drop_first()[i] == a[i + 1]);
        }
        assert(forall|i: int, j: int| 0 <= i < j < b.drop_first().len()
            ==> lex_lt(b.drop_first()[i].0, b.drop_first()[j].0)) by {
            assert(forall|i: int| 0 <= i < b.drop_first().len() ==> b.drop_first()[i] == b[i + 1]);
        }
        assert forall|x: Seq<char>| has_key(a.drop_first(), x) == has_key(b.drop_first(), x) by {
            if x == a[0].0 {
            } else {
                assert(has_key(a, x) == (a[0].0 == x || has_key(a.drop_first(), x)));
                assert(has_key(b, x) == (b[0].0 == x || has_key(b.drop_first(), x)));
            }
        }
        assert forall|x: Seq<char>| lookup(a.drop_first(), x) == lookup(b.drop_first(), x) by {
            if x == a[0].0 {
                lemma_lookup_absent(a.drop_first(), x);
                lemma_lookup_absent(b.drop_first(), x);
            } else {
                assert(lookup(a, x) == lookup(a.drop_first(), x));
                assert(lookup(b, x) == lookup(b.drop_first(), x));
            }
        }
        lemma_sorted_unique(a.drop_first(), b.drop_first());
        assert(a =~= b) by {
            assert(a.drop_first() =~= b.drop_first());
            assert(forall|i: int| 0 < i < a.len() ==> a[i] == a.drop_first()[i - 1]);
            assert(forall|i: int| 0 < i < b.len() ==> b[i] == b.drop_first()[i - 1]);
            assert(a[0].1 == b[0].1);
            assert(a[0] == b[0]);
        }
    }
}

/// In a strictly sorted list the head key does not recur in the tail.
proof fn lemma_tail_no_head_key(s: Seq<(Seq<char>, int)>)
    requires
        sorted_strict(s),
        s.len() > 0,
    ensures
        !has_key(s.drop_first(), s[0].0),
{
    lemma_has_key_index(s.drop_first(), s[0].0);
    if has_key(s.drop_first(), s[0].0) {
        let i = choose|i: int| 0 <= i < s.drop_first().len() && s.drop_first()[i].0 == s[0].0;
        assert(s[i + 1].0 == s[0].0);
        assert(lex_lt(s[0].0, s[i + 1].0));
        lemma_lex_lt_irreflexive(s[0].0);
    }
}

/// Heads of two sorted lists with the same key set carry the same key.
proof fn lemma_head_key_equal(a: Seq<(Seq<char>, int)>, b: Seq<(Seq<char>, int)>)
    requires
        sorted_strict(a),
        sorted_strict(b),
        a.len() > 0,
        b.len() > 0,
        forall|x: Seq<char>| has_key(a, x) == has_key(b, x),
    ensures
        a[0].0 == b[0].0,
{
    assert(has_key(a, a[0].0));
    assert(has_key(b, b[0].0));
    lemma_has_key_index(b, a[0].0);
    lemma_has_key_index(a, b[0].0);
    let i = choose|i: int| 0 <= i < b.len() && b[i].0 == a[0].0;
    let j = choose|j: int| 0 <= j < a.len() && a[j].0 == b[0].0;
    lemma_lex_lt_trichotomy(a[0].0, b[0].0);
    if lex_lt(a[0].0, b[0].0) {
        // a's head key occurs in b at position i; b[0] <= b[i] contradicts it.
        if i > 0 {
            assert(lex_lt(b[0].0, b[i].0));
            lemma_lex_lt_transitive(a[0].0, b[0].0, b[i].0);
            lemma_lex_lt_irreflexive(b[i].0);
        } else {
            lemma_lex_lt_irreflexive(a[0].0);
        }
    } else if lex_lt(b[0].0, a[0].0) {
        if j > 0 {
            assert(lex_lt(a[0].0, a[j].0));
            lemma_lex_lt_transitive(b[0].0, a[0].0, a[j].0);
            lemma_lex_lt_irreflexive(a[j].0);
        } else {
            lemma_lex_lt_irreflexive(b[0].0);
        }
    }
}

/// Adds `delta` to the entry of `id`, creating the entry when it is new,
/// and keeps the list strictly sorted.
pub fn add_to(bal: &mut Vec<BalanceEntry>, id: &String, delta: i128)
    requires
        sorted_strict(bal_views(old(bal)@)),
        sum_abs(bal_views(old(bal)@)) >= 0,
        sum_abs(bal_views(old(bal)@)) + abs(delta as int) < i128::MAX,
    ensures
        sorted_strict(bal_views(final(bal)@)),
        forall|x: Seq<char>| lookup(bal_views(final(bal)@), x)
            == lookup(bal_views(old(bal)@), x) + (if x == id@ { delta as int } else { 0 }),
        forall|x: Seq<char>| has_key(bal_views(final(bal)@), x)
            == (has_key(bal_views(old(bal)@), x) || x == id@),
        sum_values(bal_views(final(bal)@)) == sum_values(bal_views(old(bal)@)) + delta,
        sum_abs(bal_views(final(bal)@)) <= sum_abs(bal_views(old(bal)@)) + abs(delta as int),
        sum_abs(bal_views(final(bal)@)) >= 0,
{
    let ghost v0 = bal_views(old(bal)@);
    let mut i: usize = 0;
    while i < bal.len() && str_lt(bal[i].id.as_str(), id.as_str())
        invariant
            bal@ == old(bal)@,
            i <= bal@.len(),
            forall|j: int| 0 <= j < i ==> lex_lt(v0[j].0, id@),
            v0 == bal_views(bal@),
        decreases bal@.len() - i,
    {
        i = i + 1;
    }
    proof {
        assert(v0 =~= v0.take(i as int) + v0.skip(i as int));
        assert forall|j: int| 0 <= j < i implies v0[j].0 != id@ by {
            lemma_lex_lt_trichotomy(v0[j].0, id@);
        }
        lemma_has_key_index(v0.take(i as int), id@);
        assert(forall|j: int| 0 <= j < i ==> v0.take(i as int)[j] == v0[j]);
        assert(!has_key(v0.take(i as int), id@));
        lemma_sum_abs_nonneg(v0.take(i as int));
        lemma_sum_abs_nonneg(v0.skip(i as int));
        lemma_sum_abs_concat(v0.take(i as int), v0.skip(i as int));
        lemma_sum_values_concat(v0.take(i as int), v0.skip(i as int));
    }
    let eq_here = if i < bal.len() {
        !str_lt(id.as_str(), bal[i].id.as_str())
    } else {
        false
    };
    if eq_here {
        proof {
            lemma_lex_lt_trichotomy(v0[i as int].0, id@);
            assert(v0[i as int].0 == id@);
        }
        let entry = bal.remove(i);
        proof {
            assert(abs(v0[i as int].1) <= sum_abs(v0.skip(i as int))) by {
                assert(v0.skip(i as int)[0] == v0[i as int]);
                lemma_sum_abs_nonneg(v0.skip(i as int).drop_first());
            }
        }
        let updated = BalanceEntry { id: entry.id, amount: entry.amount + delta };
        bal.insert(i, updated);
        proof {
            let v1 = bal_views(bal@);
            let e = (id@, entry.amount + delta as int);
            assert(v1 =~= v0.take(i as int) + (seq![e] + v0.skip(i as int).drop_first()));
            finish_add_to(v0, v1, v0.take(i as int), v0.skip(i as int), e, id@, delta as int);
        }
    } else {
        let fresh = BalanceEntry { id: id.clone(), amount: delta };
        bal.insert(i, fresh);
        proof {
            let v1 = bal_views(bal@);
            let e = (id@, delta as int);
            assert(v1 =~= v0.take(i as int) + (seq![e] + v0.skip(i as int)));
            // `id` is absent from the suffix: its first element is already
            // above `id`, and the rest are above that.
            assert forall|j: int| i <= j < v0.len() implies lex_lt(id@, v0[j].0) by {
                lemma_lex_lt_trichotomy(v0[i as int].0, id@);
                lemma_lex_lt_trichotomy(id@, v0[j].0);
                if j > i {
                    if lex_lt(v0[j].0, id@) {
                        lemma_lex_lt_transitive(v0[i as int].0, v0[j].0, id@);
                        lemma_lex_lt_transitive(v0[i as int].0, id@, v0[j].0);
                        lemma_lex_lt_irreflexive(id@);
                    }
                    if v0[j].0 == id@ {
                        assert(lex_lt(v0[i as int].0, v0[j].0));
                    }
                }
            }
            lemma_has_key_index(v0.skip(i as int), id@);
            assert forall|j: int| 0 <= j < v0.skip(i as int).len()
                implies v0.skip(i as int)[j].0 != id@ by {
                assert(v0.skip(i as int)[j] == v0[j + i]);
                lemma_lex_lt_irreflexive(id@);
            }
            assert(!has_key(v0.skip(i as int), id@));
            lemma_lookup_absent(v0.skip(i as int), id@);
            finish_insert(v0, v1, v0.take(i as int), v0.skip(i as int), e, id@, delta as int);
        }
    }
}

/// Proof tail for the update branch of `add_to`: the new list is the old
/// one with the matched entry's amount shifted by `delta`.
proof fn finish_add_to(
    v0: Seq<(Seq<char>, int)>,
    v1: Seq<(Seq<char>, int)>,
    pre: Seq<(Seq<char>, int)>,
    suf: Seq<(Seq<char>, int)>,
    e: (Seq<char>, int),
    id: Seq<char>,
    delta: int,
)
    requires
        sorted_strict(v0),
        v0 == pre + suf,
        suf.len() > 0,
        suf[0].0 == id,
        e == (id, suf[0].1 + delta),
        !has_key(pre, id),
        v1 == pre + (seq![e] + suf.drop_first()),
    ensures
        sorted_strict(v1),
        forall|x: Seq<char>| lookup(v1, x) == lookup(v0, x) + (if x == id { delta } else { 0 }),
        forall|x: Seq<char>| has_key(v1, x) == (has_key(v0, x) || x == id),
        sum_values(v1) == sum_values(v0) + delta,
        sum_abs(v1) <= sum_abs(v0) + abs(delta),
        sum_abs(v1) >= 0,
{
    let single = seq![e];
    let tail = suf.drop_first();
    assert(suf =~= seq![suf[0]] + tail);
    assert(v1.len() == v0.len());
    assert forall|k: int| 0 <= k < v1.len() implies v1[k].0 == v0[k].0 by {
        assert(pre.len() <= k ==> v1[k] == (single + tail)[k - pre.len()]);
    }
    assert(sorted_strict(v1));
    assert forall|x: Seq<char>|
        lookup(v1, x) == lookup(v0, x) + (if x == id { delta } else { 0 }) by {
        lemma_lookup_concat(pre, single + tail, x);
        lemma_lookup_concat(single, tail, x);
        lemma_lookup_concat(pre, suf, x);
        lemma_lookup_concat(seq![suf[0]], tail, x);
        lemma_lookup_single(suf[0], x);
        lemma_lookup_single(e, x);
        lemma_has_key_single(suf[0], x);
        lemma_has_key_single(e, x);
    }
    assert forall|x: Seq<char>| has_key(v1, x) == (has_key(v0, x) || x == id) by {
        lemma_has_key_concat(pre, single + tail, x);
        lemma_has_key_concat(single, tail, x);
        lemma_has_key_concat(pre, suf, x);
        lemma_has_key_concat(seq![suf[0]], tail, x);
        lemma_has_key_single(suf[0], x);
        lemma_has_key_single(e, x);
    }
    lemma_sum_values_concat(pre, single + tail);
    lemma_sum_values_concat(single, tail);
    lemma_sum_values_concat(pre, suf);
    lemma_sum_values_concat(seq![suf[0]], tail);
    lemma_sum_values_single(suf[0]);
    lemma_sum_values_single(e);
    lemma_sum_abs_concat(pre, single + tail);
    lemma_sum_abs_concat(single, tail);
    lemma_sum_abs_concat(pre, suf);
    lemma_sum_abs_concat(seq![suf[0]], tail);
    lemma_sum_abs_single(suf[0]);
    lemma_sum_abs_single(e);
    lemma_sum_abs_nonneg(v1);
}

/// Proof tail for the insert branch of `add_to`: the new list carries a
/// fresh entry for `id` between the keys below it and the keys above it.
proof fn finish_insert(
    v0: Seq<(Seq<char>, int)>,
    v1: Seq<(Seq<char>, int)>,
    pre: Seq<(Seq<char>, int)>,
    suf: Seq<(Seq<char>, int)>,
    e: (Seq<char>, int),
    id: Seq<char>,
    delta: int,
)
    requires
        sorted_strict(v0),
        v0 == pre + suf,
        e == (id, delta),
        !has_key(pre, id),
        !has_key(suf, id),
        forall|j: int| 0 <= j < pre.len() ==> lex_lt(pre[j].0, id),
        forall|j: int| 0 <= j < suf.len() ==> lex_lt(id, suf[j].0),
        v1 == pre + (seq![e] + suf),
    ensures
        sorted_strict(v1),
        forall|x: Seq<char>| lookup(v1, x) == lookup(v0, x) + (if x == id { delta } else { 0 }),
        forall|x: Seq<char>| has_key(v1, x) == (has_key(v0, x) || x == id),
        sum_values(v1) == sum_values(v0) + delta,
        sum_abs(v1) <= sum_abs(v0) + abs(delta),
        sum_abs(v1) >= 0,
{
    let single = seq![e];
    assert(v1.len() == v0.len() + 1);
    assert forall|i: int, j: int| 0 <= i < j < v1.len() implies lex_lt(v1[i].0, v1[j].0) by {
        let p = pre.len() as int;
        assert(i < p ==> v1[i] == pre[i]);
        assert(i == p ==> v1[i] == e);
        assert(i > p ==> v1[i] == suf[i - p - 1]);
        assert(j < p ==> v1[j] == pre[j]);
        assert(j == p ==> v1[j] == e);
        assert(j > p ==> v1[j] == suf[j - p - 1]);
        assert(i < p && j < p ==> v0[i] == pre[i] && v0[j] == pre[j]);
        assert(i > p && j > p ==> v0[i - 1] == suf[i - p - 1] && v0[j - 1] == suf[j - p - 1]);
        if i < p && j > p {
            assert(v0[i] == pre[i] && v0[j - 1] == suf[j - p - 1]);
        }
    }
    assert forall|x: Seq<char>|
        lookup(v1, x) == lookup(v0, x) + (if x == id { delta } else { 0 }) by {
        lemma_lookup_concat(pre, single + suf, x);
        lemma_lookup_concat(single, suf, x);
        lemma_lookup_concat(pre, suf, x);
        lemma_lookup_single(e, x);
        lemma_has_key_single(e, x);
        if x == id {
            lemma_lookup_absent(pre, x);
            lemma_lookup_absent(suf, x);
        }
    }
    assert forall|x: Seq<char>| has_key(v1, x) == (has_key(v0, x) || x == id) by {
        lemma_has_key_concat(pre, single + suf, x);
        lemma_has_key_concat(single, suf, x);
        lemma_has_key_concat(pre, suf, x);
        lemma_has_key_single(e, x);
    }
    lemma_sum_values_concat(pre, single + suf);
    lemma_sum_values_concat(single, suf);
    lemma_sum_values_concat(pre, suf);
    lemma_sum_values_single(e);
    lemma_sum_abs_concat(pre, single + suf);
    lemma_sum_abs_concat(single, suf);
    lemma_sum_abs_concat(pre, suf);
    lemma_sum_abs_single(e);
    lemma_sum_abs_nonneg(v1);
}

/// The sum of amounts never exceeds the sum of absolute amounts.
pub proof fn lemma_abs_sum_le(s: Seq<(Seq<char>, int)>)
    ensures
        abs(sum_values(s)) <= sum_abs(s),
    decreases s.len(),
{
    if s.len() > 0 {
        lemma_abs_sum_le(s.drop_first());
    }
}

/// No single amount exceeds the sum of absolute amounts.
pub proof fn lemma_entry_abs_le_sum_abs(s: Seq<(Seq<char>, int)>, n: int)
    requires
        0 <= n < s.len(),
    ensures
        abs(s[n].1) <= sum_abs(s),
    decreases s.len(),
{
    lemma_sum_abs_nonneg(s.drop_first());
    if n > 0 {
        lemma_entry_abs_le_sum_abs(s.drop_first(), n - 1);
    }
}

/// In a sorted list, looking up the key at an index yields that entry.
pub proof fn lemma_lookup_at_index(s: Seq<(Seq<char>, int)>, n: int)
    requires
        sorted_strict(s),
        0 <= n < s.len(),
    ensures
        lookup(s, s[n].0) == s[n].1,
        has_key(s, s[n].0),
{
    let pre = s.take(n);
    let suf = s.skip(n);
    assert(s =~= pre + suf);
    assert forall|j: int| 0 <= j < n implies pre[j].0 != s[n].0 by {
        lemma_lex_lt_trichotomy(s[j].0, s[n].0);
    }
    lemma_has_key_index(pre, s[n].0);
    assert(!has_key(pre, s[n].0));
    lemma_lookup_concat(pre, suf, s[n].0);
    lemma_has_key_concat(pre, suf, s[n].0);
    assert(suf[0] == s[n]);
    assert(lookup(suf, s[n].0) == s[n].1);
    assert(has_key(suf, s[n].0));
}

/// Replacing the amount at index `i` (same key) shifts the sums exactly and
/// changes only that key's lookup.
pub proof fn lemma_update_entry(s: Seq<(Seq<char>, int)>, i: int, v: int)
    requires
        sorted_strict(s),
        0 <= i < s.len(),
    ensures
        sorted_strict(s.update(i, (s[i].0, v))),
        forall|x: Seq<char>| lookup(s.update(i, (s[i].0, v)), x) == (if x == s[i].0 {
            v
        } else {
            lookup(s, x)
        }),
        forall|x: Seq<char>| has_key(s.update(i, (s[i].0, v)), x) == has_key(s, x),
        sum_values(s.update(i, (s[i].0, v))) == sum_values(s) - s[i].1 + v,
        sum_abs(s.update(i, (s[i].0, v))) == sum_abs(s) - abs(s[i].1) + abs(v),
{
    let s2 = s.update(i, (s[i].0, v));
    let pre = s.take(i);
    let suf = s.skip(i + 1);
    let e0 = s[i];
    let e1 = (s[i].0, v);
    assert(s =~= pre + (seq![e0] + suf));
    assert(s2 =~= pre + (seq![e1] + suf));
    assert(forall|n: int| 0 <= n < s2.len() ==> s2[n].0 == s[n].0);
    assert(sorted_strict(s2));
    assert forall|j: int| 0 <= j < i implies pre[j].0 != s[i].0 by {
        lemma_lex_lt_trichotomy(s[j].0, s[i].0);
    }
    lemma_has_key_index(pre, s[i].0);
    assert(!has_key(pre, s[i].0));
    assert forall|x: Seq<char>| lookup(s2, x) == (if x == s[i].0 {
        v
    } else {
        lookup(s, x)
    }) by {
        lemma_lookup_concat(pre, seq![e0] + suf, x);
        lemma_lookup_concat(pre, seq![e1] + suf, x);
        lemma_lookup_concat(seq![e0], suf, x);
        lemma_lookup_concat(seq![e1], suf, x);
        lemma_lookup_single(e0, x);
        lemma_lookup_single(e1, x);
        lemma_has_key_single(e0, x);
        lemma_has_key_single(e1, x);
    }
    assert forall|x: Seq<char>| has_key(s2, x) == has_key(s, x) by {
        lemma_has_key_concat(pre, seq![e0] + suf, x);
        lemma_has_key_concat(pre, seq![e1] + suf, x);
        lemma_has_key_concat(seq![e0], suf, x);
        lemma_has_key_concat(seq![e1], suf, x);
        lemma_has_key_single(e0, x);
        lemma_has_key_single(e1, x);
    }
    lemma_sum_values_concat(pre, seq![e0] + suf);
    lemma_sum_values_concat(pre, seq![e1] + suf);
    lemma_sum_values_concat(seq![e0], suf);
    lemma_sum_values_concat(seq![e1], suf);
    lemma_sum_values_single(e0);
    lemma_sum_values_single(e1);
    lemma_sum_abs_concat(pre, seq![e0] + suf);
    lemma_sum_abs_concat(pre, seq![e1] + suf);
    lemma_sum_abs_concat(seq![e0], suf);
    lemma_sum_abs_concat(seq![e1], suf);
    lemma_sum_abs_single(e0);
    lemma_sum_abs_single(e1);
}

proof fn lemma_lookup_single(e: (Seq<char>, int), x: Seq<char>)
    ensures
        lookup(seq![e], x) == if e.0 == x { e.1 } else { 0 },
{
    assert(seq![e].drop_first() =~= Seq::<(Seq<char>, int)>::empty());
    assert(lookup(Seq::<(Seq<char>, int)>::empty(), x) == 0);
}

proof fn lemma_has_key_single(e: (Seq<char>, int), x: Seq<char>)
    ensures
        has_key(seq![e], x) == (e.0 == x),
{
    assert(seq![e].drop_first() =~= Seq::<(Seq<char>, int)>::empty());
    assert(!has_key(Seq::<(Seq<char>, int)>::empty(), x));
}

proof fn lemma_sum_values_single(e: (Seq<char>, int))
    ensures
        sum_values(seq![e]) == e.1,
{
    assert(seq![e].drop_first() =~= Seq::<(Seq<char>, int)>::empty());
    assert(sum_values(Seq::<(Seq<char>, int)>::empty()) == 0);
}

proof fn lemma_sum_abs_single(e: (Seq<char>, int))
    ensures
        sum_abs(seq![e]) == abs(e.1),
{
    assert(seq![e].drop_first() =~= Seq::<(Seq<char>, int)>::empty());
    assert(sum_abs(Seq::<(Seq<char>, int)>::empty()) == 0);
}

} // verus!
