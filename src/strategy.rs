//! Strategy entries: the decision of one canonical hand, ready to encode.
use vstd::prelude::*;
use crate::canonical::{key_of, lemma_key_len, CanonicalHand};
use crate::encode::{entry_ok, StrategyEntry};
use crate::ev::{analyze_hand, ev_greater, hold_draws, hold_total};
use crate::paytable::{Paytable, MAX_PAYOUT};

verus! {

/// `best` and `evs` are the decision for `hand`: the exact EV of each hold,
/// and the lowest hold whose EV is the largest.
pub open spec fn is_decision(hand: Seq<u8>, pt: Paytable, best: u8, evs: Seq<crate::ev::HoldEv>) -> bool {
    &&& evs.len() == 32
    &&& best < 32
    &&& forall|m: int|
        0 <= m < 32 ==> (#[trigger] evs[m]).total == hold_total(hand, m as u8, pt) && evs[m].draws
            == hold_draws(hand, m as u8, pt.deck_size).len() && evs[m].total <= evs[m].draws * pt.royal_flush
    &&& forall|m: int| 0 <= m < 32 ==> !ev_greater(#[trigger] evs[m], evs[best as int])
    &&& forall|m: int| 0 <= m < best ==> ev_greater(evs[best as int], #[trigger] evs[m])
}

/// The strategy entry of one canonical hand under `pt`.
pub fn strategy_entry(hand: &CanonicalHand, pt: &Paytable) -> (e: StrategyEntry)
    requires
        hand.cards@.len() == 5,
        hand.key@ == key_of(hand.cards@),
        pt.wf(),
    ensures
        e.key@ == hand.key@,
        entry_ok(e),
        is_decision(hand.cards@, *pt, e.best_mask, e.evs@),
{
    let d = analyze_hand(hand.cards.as_slice(), pt);
    proof {
        lemma_key_len(hand.cards@);
        assert forall|m: int| 0 <= m < 32 implies (#[trigger] d.evs@[m]).total <= d.evs@[m].draws * MAX_PAYOUT by {
            let e = d.evs@[m];
            assert(e.total <= e.draws * MAX_PAYOUT) by (nonlinear_arith)
                requires e.total <= e.draws * pt.royal_flush, pt.royal_flush <= MAX_PAYOUT;
        }
    }
    StrategyEntry { key: hand.key.clone(), best_mask: d.best_mask, evs: d.evs }
}

} // verus!
