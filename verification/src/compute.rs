//! Computing net balances from the full event sequence.
//!
//! `compute_balances` folds every event into a sorted balance list: the
//! payer is credited with the full amount and every payee is debited their
//! exact share. The resulting list is canonical (sorted, one entry per
//! mentioned participant), its amounts are exactly `balance_of`, and the
//! amounts always sum to zero: no minor unit is created or lost.

use vstd::prelude::*;
use crate::balance::BalanceEntry;
use crate::balance::bal_views;
use crate::balance::lookup;
use crate::balance::has_key;
use crate::balance::sum_values;
use crate::balance::sum_abs;
use crate::balance::sorted_strict;
use crate::balance::add_to;
use crate::event::ExpenseEvent;
use crate::event::events_wf;
use crate::event::event_wf;
use crate::event::id_views;
use crate::event::share;
use crate::event::share_prefix_total;
use crate::event::payer_credit;
use crate::event::payee_debit_upto;
use crate::event::event_delta;
use crate::event::balance_of;
use crate::event::mentions;
use crate::event::event_mentions;
use crate::event::event_mentions_upto;
use crate::event::total_amount;
use crate::event::lemma_share_range;
use crate::event::lemma_share_prefix_le;
use crate::event::lemma_share_total;
use crate::event::lemma_total_amount_take_step;
use crate::event::lemma_total_amount_take_le;
use crate::event::lemma_total_amount_nonneg;

verus! {

/// Computes every mentioned participant's net balance, in minor units,
/// from the whole event sequence. The result is the canonical sorted
/// balance list of `balance_of`, and its amounts sum to exactly zero.
pub fn compute_balances(events: &Vec<ExpenseEvent>) -> (r: Vec<BalanceEntry>)
    requires
        events_wf(events@),
        total_amount(events@) <= u64::MAX as int,
    ensures
        sorted_strict(bal_views(r@)),
        forall|x: Seq<char>| lookup(bal_views(r@), x) == balance_of(events@, x),
        forall|x: Seq<char>| has_key(bal_views(r@), x) == mentions(events@, x),
        sum_values(bal_views(r@)) == 0,
        sum_abs(bal_views(r@)) <= 2 * total_amount(events@),
        sum_abs(bal_views(r@)) >= 0,
{
    let mut bal: Vec<BalanceEntry> = Vec::new();
    let mut j: usize = 0;
    proof {
        assert(bal_views(bal@) =~= Seq::<(Seq<char>, int)>::empty());
        assert(events@.take(0) =~= Seq::<ExpenseEvent>::empty());
        lemma_total_amount_nonneg(events@);
    }
    while j < events.len()
        invariant
            j <= events@.len(),
            events_wf(events@),
            total_amount(events@) <= u64::MAX as int,
            sorted_strict(bal_views(bal@)),
            forall|x: Seq<char>| lookup(bal_views(bal@), x)
                == balance_of(events@.take(j as int), x),
            forall|x: Seq<char>| has_key(bal_views(bal@), x)
                == mentions(events@.take(j as int), x),
            sum_values(bal_views(bal@)) == 0,
            sum_abs(bal_views(bal@)) >= 0,
            sum_abs(bal_views(bal@)) <= 2 * total_amount(events@.take(j as int)),
        decreases events@.len() - j,
    {
        let ghost ev = events@[j as int];
        let ghost pre = events@.take(j as int);
        let ghost tj = total_amount(events@.take(j as int));
        proof {
            assert(event_wf(ev));
            lemma_total_amount_take_step(events@, j as int);
            lemma_total_amount_take_le(events@, j + 1);
            lemma_total_amount_nonneg(events@.take(j as int));
        }
        let e = &events[j];
        let a = e.amount;
        let k = e.payees.len();
        add_to(&mut bal, &e.payer, a as i128);
        proof {
            assert forall|x: Seq<char>| lookup(bal_views(bal@), x)
                == balance_of(pre, x) + payer_credit(ev, x)
                    - payee_debit_upto(id_views(ev.payees@), a as int, 0, x) by {
                assert(payee_debit_upto(id_views(ev.payees@), a as int, 0, x) == 0);
            }
            assert forall|x: Seq<char>| has_key(bal_views(bal@), x)
                == (mentions(pre, x) || event_mentions_upto(ev, 0, x)) by {
            }
        }
        let mut i: usize = 0;
        while i < k
            invariant
                i <= k,
                j < events@.len(),
                ev == events@[j as int],
                pre == events@.take(j as int),
                tj == total_amount(pre),
                event_wf(ev),
                events_wf(events@),
                total_amount(events@) <= u64::MAX as int,
                tj >= 0,
                tj + a as int <= total_amount(events@),
                a == ev.amount,
                k == ev.payees@.len(),
                e == &events@[j as int],
                sorted_strict(bal_views(bal@)),
                forall|x: Seq<char>| #[trigger] lookup(bal_views(bal@), x)
                    == balance_of(pre, x) + payer_credit(ev, x)
                        - payee_debit_upto(id_views(ev.payees@), a as int, i as int, x),
                forall|x: Seq<char>| #[trigger] has_key(bal_views(bal@), x)
                    == (mentions(pre, x) || event_mentions_upto(ev, i as int, x)),
                sum_values(bal_views(bal@))
                    == a as int - share_prefix_total(a as int, k as int, i as int),
                sum_abs(bal_views(bal@)) >= 0,
                sum_abs(bal_views(bal@))
                    <= 2 * tj + a as int + share_prefix_total(a as int, k as int, i as int),
            decreases k - i,
        {
            proof {
                lemma_share_range(a as int, k as int, i as int);
                lemma_share_prefix_le(a as int, k as int, i as int);
                lemma_share_total(a as int, k as int);
            }
            let k64 = k as u64;
            let share_q = a / k64;
            let rem = a % k64;
            let extra: u64 = if (i as u64) < rem {
                1
            } else {
                0
            };
            let s = share_q + extra;
            proof {
                assert(s as int == share(a as int, k as int, i as int));
            }
            let ghost bv0 = bal_views(bal@);
            add_to(&mut bal, &e.payees[i], -(s as i128));
            proof {
                let pv = id_views(ev.payees@);
                assert(pv[i as int] == ev.payees@[i as int]@);
                assert(e.payees@[i as int]@ == ev.payees@[i as int]@);
                assert forall|x: Seq<char>| lookup(bal_views(bal@), x)
                    == balance_of(pre, x) + payer_credit(ev, x)
                        - payee_debit_upto(pv, a as int, i + 1, x) by {
                    assert(payee_debit_upto(pv, a as int, i + 1, x)
                        == payee_debit_upto(pv, a as int, i as int, x) + (if pv[i as int] == x {
                        share(a as int, k as int, i as int)
                    } else {
                        0int
                    }));
                }
                assert forall|x: Seq<char>| has_key(bal_views(bal@), x)
                    == (mentions(pre, x) || event_mentions_upto(ev, i + 1, x)) by {
                    assert(has_key(bal_views(bal@), x)
                        == (has_key(bv0, x) || x == ev.payees@[i as int]@));
                    assert(has_key(bv0, x)
                        == (mentions(pre, x) || event_mentions_upto(ev, i as int, x)));
                    assert(event_mentions_upto(ev, i + 1, x)
                        == (event_mentions_upto(ev, i as int, x) || pv[i as int] == x));
                }
            }
            i = i + 1;
        }
        proof {
            lemma_share_total(a as int, k as int);
            assert(events@.take(j + 1).drop_last() =~= pre);
            assert(events@.take(j + 1).last() == ev);
            assert forall|x: Seq<char>| lookup(bal_views(bal@), x)
                == balance_of(events@.take(j + 1), x) by {
                assert(event_delta(ev, x) == payer_credit(ev, x)
                    - payee_debit_upto(id_views(ev.payees@), a as int, k as int, x));
                assert(balance_of(events@.take(j + 1), x)
                    == balance_of(pre, x) + event_delta(ev, x));
            }
            assert forall|x: Seq<char>| has_key(bal_views(bal@), x)
                == mentions(events@.take(j + 1), x) by {
                assert(has_key(bal_views(bal@), x)
                    == (mentions(pre, x) || event_mentions_upto(ev, k as int, x)));
                assert(k as int == ev.payees@.len());
                assert(event_mentions(ev, x) == event_mentions_upto(
                    ev,
                    ev.payees@.len() as int,
                    x,
                ));
                assert(mentions(events@.take(j + 1), x)
                    == (mentions(pre, x) || event_mentions(ev, x)));
            }
            lemma_total_amount_take_le(events@, j + 1);
        }
        j = j + 1;
    }
    proof {
        assert(events@.take(events@.len() as int) =~= events@);
    }
    bal
}

/// Determinism of balance computation: the canonical sorted balance list
/// of an event sequence is unique, so any two runs return the same list.
pub proof fn lemma_compute_balances_deterministic(
    events: Seq<ExpenseEvent>,
    b1: Seq<(Seq<char>, int)>,
    b2: Seq<(Seq<char>, int)>,
)
    requires
        sorted_strict(b1),
        sorted_strict(b2),
        forall|x: Seq<char>| lookup(b1, x) == balance_of(events, x),
        forall|x: Seq<char>| lookup(b2, x) == balance_of(events, x),
        forall|x: Seq<char>| has_key(b1, x) == mentions(events, x),
        forall|x: Seq<char>| has_key(b2, x) == mentions(events, x),
    ensures
        b1 == b2,
{
    crate::balance::lemma_sorted_unique(b1, b2);
}

} // verus!
