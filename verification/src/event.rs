//! Shared expense events and their exact per-payee shares.
//!
//! An event records that one participant fronted `amount` minor units for a
//! group of payees. The cost of an event is split exactly: every payee owes
//! `amount / k` minor units, and the first `amount % k` payees in ascending
//! identifier order owe one extra minor unit, so the shares always sum to
//! `amount` with no rounding loss. The payee list of a well-formed event is
//! strictly sorted, which fixes who receives the extra units.

use vstd::prelude::*;
use crate::order::lex_lt;
use crate::order::str_lt;
use crate::order::lemma_lex_lt_trichotomy;
use crate::order::lemma_lex_lt_transitive;
use crate::order::lemma_lex_lt_irreflexive;

verus! {

/// One shared expense: `payer` fronted `amount` minor units, split among
/// `payees` (which may include the payer).
#[derive(Debug, Clone, PartialEq, Eq)]
pub struct ExpenseEvent {
    pub payer: String,
    pub payees: Vec<String>,
    pub description: String,
    pub amount: u64,
}

/// Rejected input to event construction.
#[derive(Debug, PartialEq, Eq, Clone)]
pub enum ValidationError {
    NonPositiveAmount,
    EmptyPayer,
    EmptyDescription,
    EmptyPayees,
    EmptyPayeeId,
}

/// The identifiers of a list of participants, as character sequences.
pub open spec fn id_views(p: Seq<String>) -> Seq<Seq<char>> {
    p.map(|i: int, s: String| s@)
}

/// Whether `x` occurs among the identifiers `s`.
pub open spec fn has_id(s: Seq<Seq<char>>, x: Seq<char>) -> bool
    decreases s.len(),
{
    s.len() > 0 && (s[0] == x || has_id(s.drop_first(), x))
}

/// `has_id` agrees with the existence of a matching index.
pub proof fn lemma_has_id_index(s: Seq<Seq<char>>, x: Seq<char>)
    ensures
        has_id(s, x) <==> exists|n: int| 0 <= n < s.len() && s[n] == x,
    decreases s.len(),
{
    if s.len() > 0 {
        lemma_has_id_index(s.drop_first(), x);
        if s[0] == x {
            assert(s[0] == x && 0 < s.len());
        } else if has_id(s.drop_first(), x) {
            let n = choose|n: int| 0 <= n < s.drop_first().len() && s.drop_first()[n] == x;
            assert(s[n + 1] == x);
        } else {
            assert(forall|n: int| 0 < n < s.len() ==> s[n] == s.drop_first()[n - 1]);
        }
    }
}

/// Identifiers in strictly ascending lexicographic order.
pub open spec fn strictly_sorted_ids(s: Seq<Seq<char>>) -> bool {
    forall|i: int, j: int| 0 <= i < j < s.len() ==> lex_lt(s[i], s[j])
}

/// A well-formed event: positive amount, non-empty identifiers, and a
/// non-empty, strictly sorted payee list.
pub open spec fn event_wf(e: ExpenseEvent) -> bool {
    &&& e.amount > 0
    &&& e.payer@.len() > 0
    &&& e.payees@.len() > 0
    &&& (forall|i: int| 0 <= i < e.payees@.len() ==> e.payees@[i]@.len() > 0)
    &&& strictly_sorted_ids(id_views(e.payees@))
}

pub open spec fn events_wf(events: Seq<ExpenseEvent>) -> bool {
    forall|i: int| 0 <= i < events.len() ==> event_wf(#[trigger] events[i])
}

/// The exact share of the payee at position `i` of `k` (sorted ascending):
/// the quotient, plus one extra minor unit for the first `amount % k` payees.
pub open spec fn share(amount: int, k: int, i: int) -> int {
    amount / k + if i < amount % k {
        1int
    } else {
        0int
    }
}

/// The sum of the shares of the first `i` payees.
pub open spec fn share_prefix_total(amount: int, k: int, i: int) -> int
    decreases i,
{
    if i <= 0 {
        0
    } else {
        share_prefix_total(amount, k, i - 1) + share(amount, k, i - 1)
    }
}

/// Every share lies between zero and the full amount.
pub proof fn lemma_share_range(amount: int, k: int, i: int)
    requires
        amount > 0,
        k > 0,
        0 <= i < k,
    ensures
        0 <= share(amount, k, i) <= amount,
{
    vstd::arithmetic::div_mod::lemma_fundamental_div_mod(amount, k);
    assert(0 <= amount % k < k) by {
        vstd::arithmetic::div_mod::lemma_mod_bound(amount, k);
    }
    assert(amount / k >= 0) by {
        vstd::arithmetic::div_mod::lemma_div_pos_is_pos(amount, k);
    }
    if i < amount % k {
        // The remainder is positive, so k does not divide amount and k >= 2.
        assert(k >= 2) by {
            if k == 1 {
                assert(amount % 1 == 0) by {
                    vstd::arithmetic::div_mod::lemma_mod_self_0(1);
                    vstd::arithmetic::div_mod::lemma_mod_bound(amount, 1);
                }
            }
        }
        assert(amount / k + 1 <= amount) by (nonlinear_arith)
            requires
                amount > 0,
                k >= 2,
                amount == k * (amount / k) + amount % k,
                amount % k >= 1,
                amount / k >= 0,
        ;
    } else {
        assert(amount / k <= amount) by (nonlinear_arith)
            requires
                amount > 0,
                k >= 1,
                amount == k * (amount / k) + amount % k,
                amount % k >= 0,
                amount / k >= 0,
        ;
    }
}

/// Partial share sums grow monotonically up to the full amount.
pub proof fn lemma_share_prefix_le(amount: int, k: int, i: int)
    requires
        amount > 0,
        k > 0,
        0 <= i <= k,
    ensures
        0 <= share_prefix_total(amount, k, i) <= share_prefix_total(amount, k, k),
    decreases k - i,
{
    if i == k {
        lemma_share_prefix_nonneg(amount, k, i);
    } else {
        lemma_share_prefix_le(amount, k, i + 1);
        lemma_share_range(amount, k, i);
        lemma_share_prefix_nonneg(amount, k, i);
    }
}

proof fn lemma_share_prefix_nonneg(amount: int, k: int, i: int)
    requires
        amount > 0,
        k > 0,
        0 <= i <= k,
    ensures
        share_prefix_total(amount, k, i) >= 0,
    decreases i,
{
    if i > 0 {
        lemma_share_prefix_nonneg(amount, k, i - 1);
        lemma_share_range(amount, k, i - 1);
    }
}

/// Conservation per event: the payee shares sum exactly to the amount.
pub proof fn lemma_share_total(amount: int, k: int)
    requires
        amount > 0,
        k > 0,
    ensures
        share_prefix_total(amount, k, k) == amount,
{
    let q = amount / k;
    let r = amount % k;
    vstd::arithmetic::div_mod::lemma_fundamental_div_mod(amount, k);
    vstd::arithmetic::div_mod::lemma_mod_bound(amount, k);
    vstd::arithmetic::div_mod::lemma_div_pos_is_pos(amount, k);
    lemma_share_prefix_closed(amount, k, k);
    assert(share_prefix_total(amount, k, k) == k * q + r) by (nonlinear_arith)
        requires
            share_prefix_total(amount, k, k) == k * q + (if k <= r {
                k as int
            } else {
                r
            }),
            0 <= r < k,
    ;
}

proof fn lemma_share_prefix_closed(amount: int, k: int, i: int)
    requires
        amount > 0,
        k > 0,
        0 <= i <= k,
    ensures
        share_prefix_total(amount, k, i) == i * (amount / k) + (if i <= amount % k {
            i
        } else {
            amount % k
        }),
    decreases i,
{
    vstd::arithmetic::div_mod::lemma_mod_bound(amount, k);
    let q = amount / k;
    let r = amount % k;
    if i == 0 {
        assert(share_prefix_total(amount, k, 0) == 0);
        assert(0 * q == 0) by (nonlinear_arith);
    } else {
        lemma_share_prefix_closed(amount, k, i - 1);
        assert(share_prefix_total(amount, k, i)
            == share_prefix_total(amount, k, i - 1) + share(amount, k, i - 1));
        assert(i * q == (i - 1) * q + q) by (nonlinear_arith);
        if i - 1 < r {
            assert(share(amount, k, i - 1) == q + 1);
            assert((if i <= r { i } else { r }) == i);
            assert((if i - 1 <= r { i - 1 } else { r }) == i - 1);
        } else {
            assert(share(amount, k, i - 1) == q);
            assert((if i <= r { i } else { r }) == r);
            assert((if i - 1 <= r { i - 1 } else { r }) == r);
        }
    }
}

/// What the event adds to the balance of `x` as payer: the fronted amount.
pub open spec fn payer_credit(e: ExpenseEvent, x: Seq<char>) -> int {
    if e.payer@ == x {
        e.amount as int
    } else {
        0
    }
}

/// What the first `i` payees of the event owe to `x`'s balance.
pub open spec fn payee_debit_upto(p: Seq<Seq<char>>, amount: int, i: int, x: Seq<char>) -> int
    decreases i,
{
    if i <= 0 {
        0
    } else {
        payee_debit_upto(p, amount, i - 1, x) + if p[i - 1] == x {
            share(amount, p.len() as int, i - 1)
        } else {
            0
        }
    }
}

/// The net effect of one event on the balance of `x`.
pub open spec fn event_delta(e: ExpenseEvent, x: Seq<char>) -> int {
    payer_credit(e, x) - payee_debit_upto(
        id_views(e.payees@),
        e.amount as int,
        e.payees@.len() as int,
        x,
    )
}

/// The net balance of `x` after a sequence of events.
pub open spec fn balance_of(events: Seq<ExpenseEvent>, x: Seq<char>) -> int
    decreases events.len(),
{
    if events.len() == 0 {
        0
    } else {
        balance_of(events.drop_last(), x) + event_delta(events.last(), x)
    }
}

/// Whether the first `i` payees or the payer of the event name `x`.
pub open spec fn event_mentions_upto(e: ExpenseEvent, i: int, x: Seq<char>) -> bool
    decreases i,
{
    if i <= 0 {
        e.payer@ == x
    } else {
        event_mentions_upto(e, i - 1, x) || id_views(e.payees@)[i - 1] == x
    }
}

pub open spec fn event_mentions(e: ExpenseEvent, x: Seq<char>) -> bool {
    event_mentions_upto(e, e.payees@.len() as int, x)
}

/// Whether any event of the sequence names `x` as payer or payee.
pub open spec fn mentions(events: Seq<ExpenseEvent>, x: Seq<char>) -> bool
    decreases events.len(),
{
    events.len() > 0 && (mentions(events.drop_last(), x) || event_mentions(events.last(), x))
}

/// The sum of all event amounts.
pub open spec fn total_amount(events: Seq<ExpenseEvent>) -> int
    decreases events.len(),
{
    if events.len() == 0 {
        0
    } else {
        total_amount(events.drop_last()) + events.last().amount as int
    }
}

pub proof fn lemma_total_amount_take_step(events: Seq<ExpenseEvent>, j: int)
    requires
        0 <= j < events.len(),
    ensures
        total_amount(events.take(j + 1)) == total_amount(events.take(j)) + events[j].amount as int,
{
    assert(events.take(j + 1).drop_last() =~= events.take(j));
    assert(events.take(j + 1).last() == events[j]);
}

pub proof fn lemma_total_amount_take_le(events: Seq<ExpenseEvent>, j: int)
    requires
        0 <= j <= events.len(),
    ensures
        total_amount(events.take(j)) <= total_amount(events),
    decreases events.len() - j,
{
    if j == events.len() {
        assert(events.take(j) =~= events);
    } else {
        lemma_total_amount_take_step(events, j);
        lemma_total_amount_take_le(events, j + 1);
    }
}

pub proof fn lemma_total_amount_nonneg(events: Seq<ExpenseEvent>)
    ensures
        total_amount(events) >= 0,
    decreases events.len(),
{
    if events.len() > 0 {
        lemma_total_amount_nonneg(events.drop_last());
    }
}

/// Inserts `id` into a strictly sorted identifier list, unless present.
fn insert_id(ids: &mut Vec<String>, id: &String)
    requires
        strictly_sorted_ids(id_views(old(ids)@)),
    ensures
        strictly_sorted_ids(id_views(final(ids)@)),
        forall|x: Seq<char>| has_id(id_views(final(ids)@), x)
            == (has_id(id_views(old(ids)@), x) || x == id@),
        final(ids)@.len() <= old(ids)@.len() + 1,
{
    let ghost v0 = id_views(old(ids)@);
    let mut i: usize = 0;
    while i < ids.len() && str_lt(ids[i].as_str(), id.as_str())
        invariant
            ids@ == old(ids)@,
            i <= ids@.len(),
            forall|j: int| 0 <= j < i ==> lex_lt(v0[j], id@),
            v0 == id_views(ids@),
        decreases ids@.len() - i,
    {
        i = i + 1;
    }
    let eq_here = if i < ids.len() {
        !str_lt(id.as_str(), ids[i].as_str())
    } else {
        false
    };
    if eq_here {
        proof {
            lemma_lex_lt_trichotomy(v0[i as int], id@);
            assert(v0[i as int] == id@);
            lemma_has_id_index(v0, id@);
            assert(has_id(v0, id@));
        }
    } else {
        ids.insert(i, id.clone());
        proof {
            let v1 = id_views(ids@);
            assert(v1 =~= v0.take(i as int) + (seq![id@] + v0.skip(i as int)));
            assert forall|j: int| i <= j < v0.len() implies lex_lt(id@, v0[j]) by {
                lemma_lex_lt_trichotomy(v0[i as int], id@);
                lemma_lex_lt_trichotomy(id@, v0[j]);
                if j > i {
                    if lex_lt(v0[j], id@) {
                        lemma_lex_lt_transitive(v0[i as int], v0[j], id@);
                        lemma_lex_lt_transitive(v0[i as int], id@, v0[j]);
                        lemma_lex_lt_irreflexive(id@);
                    }
                    if v0[j] == id@ {
                        assert(lex_lt(v0[i as int], v0[j]));
                    }
                }
            }
            let p = i as int;
            assert forall|a: int, b: int| 0 <= a < b < v1.len() implies lex_lt(v1[a], v1[b]) by {
                assert(a < p ==> v1[a] == v0[a]);
                assert(a == p ==> v1[a] == id@);
                assert(a > p ==> v1[a] == v0[a - 1]);
                assert(b < p ==> v1[b] == v0[b]);
                assert(b == p ==> v1[b] == id@);
                assert(b > p ==> v1[b] == v0[b - 1]);
            }
            assert forall|x: Seq<char>| has_id(v1, x) == (has_id(v0, x) || x == id@) by {
                lemma_has_id_index(v0, x);
                lemma_has_id_index(v1, x);
                if has_id(v0, x) {
                    let n = choose|n: int| 0 <= n < v0.len() && v0[n] == x;
                    if n < p {
                        assert(v1[n] == x);
                    } else {
                        assert(v1[n + 1] == x);
                    }
                }
                if x == id@ {
                    assert(v1[p] == x);
                }
                if has_id(v1, x) && x != id@ {
                    let n = choose|n: int| 0 <= n < v1.len() && v1[n] == x;
                    if n < p {
                        assert(v0[n] == x);
                    } else if n > p {
                        assert(v0[n - 1] == x);
                    }
                }
            }
        }
    }
}

impl ExpenseEvent {
    /// Validates the inputs of an `add` action and builds the event, with
    /// the payees deduplicated and sorted ascending. Fails exactly on the
    /// inputs the ledger rejects: a zero amount, an empty payer, an empty
    /// description, no payees, or an empty payee identifier.
    pub fn new(payer: String, payees: Vec<String>, description: String, amount: u64) -> (r: Result<
        ExpenseEvent,
        ValidationError,
    >)
        ensures
            r is Ok <==> amount > 0 && payer@.len() > 0 && description@.len() > 0
                && payees@.len() > 0
                && (forall|i: int| 0 <= i < payees@.len() ==> payees@[i]@.len() > 0),
            r matches Ok(e) ==> {
                &&& event_wf(e)
                &&& e.payer@ == payer@
                &&& e.description@ == description@
                &&& e.amount == amount
                &&& forall|x: Seq<char>|
                    has_id(id_views(e.payees@), x) == has_id(id_views(payees@), x)
            },
            r matches Err(err) ==> err == expected_validation_error(
                payer@,
                id_views(payees@),
                description@,
                amount,
            ),
    {
        if amount == 0 {
            return Err(ValidationError::NonPositiveAmount);
        }
        if payer.as_str().is_empty() {
            return Err(ValidationError::EmptyPayer);
        }
        if description.as_str().is_empty() {
            return Err(ValidationError::EmptyDescription);
        }
        if payees.len() == 0 {
            return Err(ValidationError::EmptyPayees);
        }
        let mut sorted: Vec<String> = Vec::new();
        let mut i: usize = 0;
        while i < payees.len()
            invariant
                i <= payees@.len(),
                amount > 0,
                payer@.len() > 0,
                description@.len() > 0,
                payees@.len() > 0,
                strictly_sorted_ids(id_views(sorted@)),
                forall|x: Seq<char>| has_id(id_views(sorted@), x)
                    == has_id(id_views(payees@).take(i as int), x),
                forall|j: int| 0 <= j < i ==> payees@[j]@.len() > 0,
            decreases payees@.len() - i,
        {
            if payees[i].as_str().is_empty() {
                return Err(ValidationError::EmptyPayeeId);
            }
            let ghost sv0 = id_views(sorted@);
            insert_id(&mut sorted, &payees[i]);
            proof {
                let pv = id_views(payees@);
                let sv1 = id_views(sorted@);
                assert forall|x: Seq<char>| has_id(sv1, x) == has_id(pv.take(i + 1), x) by {
                    lemma_has_id_index(pv.take(i + 1), x);
                    lemma_has_id_index(pv.take(i as int), x);
                    assert(has_id(sv1, x) == (has_id(sv0, x) || x == payees@[i as int]@));
                    assert(has_id(sv0, x) == has_id(pv.take(i as int), x));
                    if has_id(pv.take(i + 1), x) {
                        let n = choose|n: int| 0 <= n < i + 1 && #[trigger] pv.take(i + 1)[n] == x;
                        if n < i {
                            assert(pv.take(i as int)[n] == x);
                        } else {
                            assert(x == pv[i as int]);
                        }
                    }
                    if has_id(pv.take(i as int), x) {
                        let n = choose|n: int| 0 <= n < i && #[trigger] pv.take(i as int)[n] == x;
                        assert(pv.take(i + 1)[n] == x);
                    }
                    if x == pv[i as int] {
                        assert(pv.take(i + 1)[i as int] == x);
                    }
                }
            }
            i = i + 1;
        }
        proof {
            assert(id_views(payees@).take(payees@.len() as int) =~= id_views(payees@));
            assert(has_id(id_views(payees@), payees@[0]@)) by {
                lemma_has_id_index(id_views(payees@), payees@[0]@);
                assert(id_views(payees@)[0] == payees@[0]@);
            }
            assert(sorted@.len() > 0) by {
                assert(has_id(id_views(sorted@), payees@[0]@));
            }
            assert forall|j: int| 0 <= j < sorted@.len() implies sorted@[j]@.len() > 0 by {
                assert(has_id(id_views(sorted@), sorted@[j]@)) by {
                    lemma_has_id_index(id_views(sorted@), sorted@[j]@);
                    assert(id_views(sorted@)[j] == sorted@[j]@);
                }
                lemma_has_id_index(id_views(payees@), sorted@[j]@);
                let n = choose|n: int|
                    0 <= n < payees@.len() && #[trigger] id_views(payees@)[n] == sorted@[j]@;
                assert(payees@[n]@.len() > 0);
            }
        }
        Ok(ExpenseEvent { payer, payees: sorted, description, amount })
    }
}

/// The error that invalid `add` inputs produce, in the order the checks run.
pub open spec fn expected_validation_error(
    payer: Seq<char>,
    payees: Seq<Seq<char>>,
    description: Seq<char>,
    amount: u64,
) -> ValidationError {
    if amount == 0 {
        ValidationError::NonPositiveAmount
    } else if payer.len() == 0 {
        ValidationError::EmptyPayer
    } else if description.len() == 0 {
        ValidationError::EmptyDescription
    } else if payees.len() == 0 {
        ValidationError::EmptyPayees
    } else {
        ValidationError::EmptyPayeeId
    }
}

} // verus!
