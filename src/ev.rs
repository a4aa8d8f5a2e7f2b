//! Exact expected value of each hold decision: the payouts of every draw
//! completion are summed in integers, so each EV is the exact fraction
//! `total / draws`.
use vstd::prelude::*;
use vstd::arithmetic::power2::{pow2, lemma2_to64, lemma2_to64_rest, lemma_pow2_pos, lemma_pow2_unfold, lemma_pow2_strictly_increases};
use itertools::Itertools;
use crate::card::{complement, pool_below};
use crate::evaluate::{payout, payout_of};
use crate::paytable::{Paytable, MAX_PAYOUT};

verus! {

/// The `k`-element selections of `pool`, each in pool order, listed in the
/// lexicographic order of the selected positions.
pub open spec fn combos(pool: Seq<u8>, k: nat) -> Seq<Seq<u8>>
    decreases pool.len(),
{
    if k == 0 {
        seq![Seq::empty()]
    } else if pool.len() == 0 {
        Seq::empty()
    } else {
        combos(pool.drop_first(), (k - 1) as nat).map_values(|c: Seq<u8>| seq![pool[0]] + c) + combos(
            pool.drop_first(),
            k,
        )
    }
}

/// Relies on itertools' `Itertools::combinations`: it yields each `k`-element
/// selection of the input's positions once, in lexicographic order of the
/// positions, as a vector of the selected items in input order.
#[verifier::external_body]
pub(crate) fn combinations(pool: &Vec<u8>, k: usize) -> (r: Vec<Vec<u8>>)
    ensures
        r.deep_view() == combos(pool@, k as nat),
{
    pool.iter().copied().combinations(k).collect()
}

/// Binomial coefficient, by Pascal's rule.
pub open spec fn binom(n: nat, k: nat) -> nat
    decreases n,
{
    if k == 0 {
        1
    } else if n == 0 {
        0
    } else {
        binom((n - 1) as nat, (k - 1) as nat) + binom((n - 1) as nat, k)
    }
}

pub proof fn lemma_combos_len(pool: Seq<u8>, k: nat)
    ensures
        combos(pool, k).len() == binom(pool.len(), k),
    decreases pool.len(),
{
    if k > 0 && pool.len() > 0 {
        lemma_combos_len(pool.drop_first(), (k - 1) as nat);
        lemma_combos_len(pool.drop_first(), k);
    }
}

proof fn lemma_binom_bounds(n: nat, k: nat)
    ensures
        binom(n, k) <= pow2(n),
        k <= n ==> binom(n, k) >= 1,
    decreases n,
{
    lemma_pow2_pos(n);
    if k > 0 && n > 0 {
        lemma_binom_bounds((n - 1) as nat, (k - 1) as nat);
        lemma_binom_bounds((n - 1) as nat, k);
        lemma_pow2_unfold(n);
    }
}

/// Number of cards below `n` that `hand` holds.
spec fn held_below(hand: Seq<u8>, n: int) -> nat
    decreases n,
{
    if n <= 0 {
        0
    } else if hand.contains((n - 1) as u8) {
        held_below(hand, n - 1) + 1
    } else {
        held_below(hand, n - 1)
    }
}

proof fn lemma_pool_len(hand: Seq<u8>, n: int)
    requires
        0 <= n <= 256,
    ensures
        pool_below(hand, n).len() + held_below(hand, n) == n,
        held_below(hand, n) == Set::new(|c: u8| (c as int) < n && hand.contains(c)).len(),
        Set::new(|c: u8| (c as int) < n && hand.contains(c)).finite(),
        held_below(hand, n) <= hand.len(),
    decreases n,
{
    let s = Set::new(|c: u8| (c as int) < n && hand.contains(c));
    hand.lemma_cardinality_of_set();
    if n > 0 {
        lemma_pool_len(hand, n - 1);
        let s0 = Set::new(|c: u8| (c as int) < n - 1 && hand.contains(c));
        if hand.contains((n - 1) as u8) {
            assert(s =~= s0.insert((n - 1) as u8));
        } else {
            assert(s =~= s0);
        }
    } else {
        assert(s =~= Set::empty());
    }
    assert(s.subset_of(hand.to_set()));
    vstd::set_lib::lemma_len_subset(s, hand.to_set());
}

/// The cards of `hand` at the positions below `n` whose bit is set in `mask`.
pub open spec fn held_of(hand: Seq<u8>, mask: u8, n: int) -> Seq<u8>
    decreases n,
{
    if n <= 0 {
        Seq::empty()
    } else if (mask >> ((n - 1) as u8)) & 1u8 == 1u8 {
        held_of(hand, mask, n - 1).push(hand[n - 1])
    } else {
        held_of(hand, mask, n - 1)
    }
}

/// Sum of the payouts of `held` completed by each draw of `draws`.
pub open spec fn draw_total(held: Seq<u8>, draws: Seq<Seq<u8>>, pt: Paytable) -> int
    decreases draws.len(),
{
    if draws.len() == 0 {
        0
    } else {
        draw_total(held, draws.drop_last(), pt) + payout_of(held + draws.last(), pt)
    }
}

/// The draws that follow holding `mask` of `hand`: every selection, from the
/// deck without the hand, of as many cards as were discarded.
pub open spec fn hold_draws(hand: Seq<u8>, mask: u8, deck_size: u8) -> Seq<Seq<u8>> {
    combos(pool_below(hand, deck_size as int), (5 - held_of(hand, mask, 5).len()) as nat)
}

/// Sum of the payouts over all draws that follow holding `mask`.
pub open spec fn hold_total(hand: Seq<u8>, mask: u8, pt: Paytable) -> int {
    draw_total(held_of(hand, mask, 5), hold_draws(hand, mask, pt.deck_size), pt)
}

/// The EV of one hold decision, as the exact fraction `total / draws`.
#[derive(Clone, Copy, Debug)]
pub struct HoldEv {
    pub total: u128,
    pub draws: u64,
}

proof fn lemma_held_len(hand: Seq<u8>, mask: u8, n: int)
    requires
        0 <= n,
    ensures
        held_of(hand, mask, n).len() <= n,
    decreases n,
{
    if n > 0 {
        lemma_held_len(hand, mask, n - 1);
    }
}

fn held_cards(hand: &[u8], mask: u8) -> (h: Vec<u8>)
    requires
        hand@.len() == 5,
    ensures
        h@ == held_of(hand@, mask, 5),
{
    let mut h: Vec<u8> = Vec::new();
    let mut i: u8 = 0;
    while i < 5
        invariant
            i <= 5,
            hand@.len() == 5,
            h@ == held_of(hand@, mask, i as int),
        decreases 5 - i,
    {
        if (mask >> i) & 1u8 == 1u8 {
            h.push(hand[i as usize]);
        }
        i = i + 1;
    }
    h
}

/// Exact EV of holding the cards of `hand` selected by `mask` (bit `i`
/// keeps card `i`) and drawing the rest from the deck without the hand.
pub fn hold_ev(hand: &[u8], mask: u8, pt: &Paytable) -> (e: HoldEv)
    requires
        hand@.len() == 5,
        pt.wf(),
    ensures
        e.total == hold_total(hand@, mask, *pt),
        e.draws == hold_draws(hand@, mask, pt.deck_size).len(),
        e.draws >= 1,
        e.total <= e.draws * pt.royal_flush,
        e.draws <= pow2(54),
{
    let pool = complement(hand, pt.deck_size);
    hold_ev_from_pool(hand, mask, pt, &pool)
}

fn hold_ev_from_pool(hand: &[u8], mask: u8, pt: &Paytable, pool: &Vec<u8>) -> (e: HoldEv)
    requires
        hand@.len() == 5,
        pt.wf(),
        pool@ == pool_below(hand@, pt.deck_size as int),
    ensures
        e.total == hold_total(hand@, mask, *pt),
        e.draws == hold_draws(hand@, mask, pt.deck_size).len(),
        e.draws >= 1,
        e.total <= e.draws * pt.royal_flush,
        e.draws <= pow2(54),
{
    let held = held_cards(hand, mask);
    proof {
        lemma_held_len(hand@, mask, 5);
    }
    let k = 5 - held.len();
    let draws = combinations(pool, k);
    let ghost ds = hold_draws(hand@, mask, pt.deck_size);
    proof {
        lemma_pool_len(hand@, pt.deck_size as int);
        lemma_combos_len(pool@, k as nat);
        lemma_binom_bounds(pool@.len(), k as nat);
        if pool@.len() < 54 {
            lemma_pow2_strictly_increases(pool@.len(), 54);
        }
        lemma2_to64_rest();
        assert(draws.deep_view() == ds);
        assert(draws@.len() == ds.len());
    }
    let mut total: u128 = 0;
    let mut i: usize = 0;
    while i < draws.len()
        invariant
            0 <= i <= draws@.len(),
            draws@.len() == ds.len(),
            draws.deep_view() == ds,
            ds.len() <= pow2(54),
            pow2(54) == 0x40000000000000,
            pt.wf(),
            total == draw_total(held@, ds.take(i as int), *pt),
            total <= i * pt.royal_flush,
        decreases draws@.len() - i,
    {
        let d = &draws[i];
        let mut fh: Vec<u8> = held.clone();
        let mut j: usize = 0;
        while j < d.len()
            invariant
                0 <= j <= d@.len(),
                fh@ == held@ + d@.take(j as int),
            decreases d@.len() - j,
        {
            fh.push(d[j]);
            proof {
                assert(d@.take(j as int + 1) =~= d@.take(j as int).push(d@[j as int]));
            }
            j = j + 1;
        }
        let p = payout(fh.as_slice(), pt);
        proof {
            assert(d@.take(d@.len() as int) =~= d@);
            assert(ds[i as int] == d@);
            assert(ds.take(i as int + 1).drop_last() =~= ds.take(i as int));
            assert(i * pt.royal_flush + p <= (i + 1) * pt.royal_flush) by (nonlinear_arith)
                requires p <= pt.royal_flush;
            assert((i + 1) * pt.royal_flush <= 0x40000000000000 * 10000) by (nonlinear_arith)
                requires i + 1 <= 0x40000000000000, pt.royal_flush <= 10000;
        }
        total = total + p as u128;
        i = i + 1;
    }
    proof {
        assert(ds.take(ds.len() as int) =~= ds);
    }
    HoldEv { total, draws: draws.len() as u64 }
}


/// EV `a` is strictly larger than EV `b`, as fractions.
pub open spec fn ev_greater(a: HoldEv, b: HoldEv) -> bool {
    a.total * b.draws > b.total * a.draws
}

proof fn lemma_greater_trans(a: HoldEv, b: HoldEv, c: HoldEv)
    requires
        a.draws > 0,
        b.draws > 0,
        c.draws > 0,
        !ev_greater(a, b),
        ev_greater(c, b),
    ensures
        ev_greater(c, a),
{
    let (at, ad, bt, bd, ct, cd) = (a.total as int, a.draws as int, b.total as int, b.draws as int, c.total as int, c.draws as int);
    assert(at * bd * cd <= bt * ad * cd) by (nonlinear_arith)
        requires at * bd <= bt * ad, cd > 0;
    assert(ct * bd * ad > bt * cd * ad) by (nonlinear_arith)
        requires ct * bd > bt * cd, ad > 0;
    assert(ct * ad * bd > at * cd * bd) by (nonlinear_arith)
        requires at * bd * cd <= bt * ad * cd, ct * bd * ad > bt * cd * ad;
    assert(ct * ad > at * cd) by (nonlinear_arith)
        requires ct * ad * bd > at * cd * bd, bd > 0;
}

fn greater(a: &HoldEv, b: &HoldEv) -> (r: bool)
    requires
        a.draws <= pow2(54),
        b.draws <= pow2(54),
        a.total <= a.draws * MAX_PAYOUT,
        b.total <= b.draws * MAX_PAYOUT,
    ensures
        r == ev_greater(*a, *b),
{
    proof {
        lemma2_to64_rest();
        assert(a.total * b.draws <= 0x40000000000000 * 10000 * 0x40000000000000) by (nonlinear_arith)
            requires a.draws <= 0x40000000000000, b.draws <= 0x40000000000000, a.total <= a.draws * 10000;
        assert(b.total * a.draws <= 0x40000000000000 * 10000 * 0x40000000000000) by (nonlinear_arith)
            requires a.draws <= 0x40000000000000, b.draws <= 0x40000000000000, b.total <= b.draws * 10000;
    }
    a.total * (b.draws as u128) > b.total * (a.draws as u128)
}

/// The 32 hold EVs of a hand and the decision that maximises EV.
#[derive(Debug)]
pub struct Decision {
    pub best_mask: u8,
    pub evs: Vec<HoldEv>,
}

/// Computes the EV of all 32 hold masks of `hand` and picks the best one:
/// the lowest mask whose EV equals the maximum.
pub fn analyze_hand(hand: &[u8], pt: &Paytable) -> (d: Decision)
    requires
        hand@.len() == 5,
        pt.wf(),
    ensures
        d.evs@.len() == 32,
        forall|m: int|
            0 <= m < 32 ==> (#[trigger] d.evs@[m]).total == hold_total(hand@, m as u8, *pt)
                && d.evs@[m].draws == hold_draws(hand@, m as u8, pt.deck_size).len()
                && d.evs@[m].draws >= 1 && d.evs@[m].total <= d.evs@[m].draws * pt.royal_flush
                && d.evs@[m].draws <= pow2(54),
        d.best_mask < 32,
        forall|m: int| 0 <= m < 32 ==> !ev_greater(#[trigger] d.evs@[m], d.evs@[d.best_mask as int]),
        forall|m: int| 0 <= m < d.best_mask ==> ev_greater(d.evs@[d.best_mask as int], #[trigger] d.evs@[m]),
{
    let pool = complement(hand, pt.deck_size);
    let mut evs: Vec<HoldEv> = Vec::new();
    let mut best: u8 = 0;
    let mut m: u8 = 0;
    while m < 32
        invariant
            m <= 32,
            hand@.len() == 5,
            pt.wf(),
            pool@ == pool_below(hand@, pt.deck_size as int),
            evs@.len() == m,
            m > 0 ==> best < m,
            m == 0 ==> best == 0,
            forall|j: int|
                0 <= j < m ==> (#[trigger] evs@[j]).total == hold_total(hand@, j as u8, *pt)
                    && evs@[j].draws == hold_draws(hand@, j as u8, pt.deck_size).len()
                    && evs@[j].draws >= 1 && evs@[j].total <= evs@[j].draws * pt.royal_flush
                    && evs@[j].draws <= pow2(54),
            m > 0 ==> forall|j: int| 0 <= j < m ==> !ev_greater(#[trigger] evs@[j], evs@[best as int]),
            forall|j: int| 0 <= j < best ==> ev_greater(evs@[best as int], #[trigger] evs@[j]),
        decreases 32 - m,
    {
        let e = hold_ev_from_pool(hand, m, pt, &pool);
        proof {
            assert(e.total <= e.draws * MAX_PAYOUT) by (nonlinear_arith)
                requires e.total <= e.draws * pt.royal_flush, pt.royal_flush <= MAX_PAYOUT;
        }
        if m == 0 {
            evs.push(e);
        } else {
            let ghost old_evs = evs@;
            let cur = evs[best as usize];
            proof {
                assert(cur.total <= cur.draws * MAX_PAYOUT) by (nonlinear_arith)
                    requires cur.total <= cur.draws * pt.royal_flush, pt.royal_flush <= MAX_PAYOUT;
            }
            let better = greater(&e, &cur);
            evs.push(e);
            if better {
                proof {
                    assert forall|j: int| 0 <= j < m implies ev_greater(e, #[trigger] evs@[j]) by {
                        assert(evs@[j] == old_evs[j]);
                        lemma_greater_trans(evs@[j], cur, e);
                    }
                    assert(!ev_greater(e, e));
                }
                best = m;
            } else {
                assert(forall|j: int| 0 <= j < m ==> evs@[j] == old_evs[j]);
            }
        }
        m = m + 1;
    }
    Decision { best_mask: best, evs }
}


proof fn lemma_binom_zero(n: nat, k: nat)
    requires
        k > n,
    ensures
        binom(n, k) == 0,
    decreases n,
{
    if n > 0 {
        lemma_binom_zero((n - 1) as nat, (k - 1) as nat);
        lemma_binom_zero((n - 1) as nat, k);
    }
}

/// The binomial coefficient C(n, k), for `n` up to 62 so that every
/// intermediate value fits.
pub fn binomial(n: u64, k: u64) -> (r: u64)
    requires
        n <= 62,
    ensures
        r == binom(n as nat, k as nat),
{
    if k > n {
        proof {
            lemma_binom_zero(n as nat, k as nat);
        }
        return 0;
    }
    let ku = k as usize;
    let mut row: Vec<u64> = Vec::new();
    let mut j: usize = 0;
    while j <= ku
        invariant
            ku <= 62,
            j <= ku + 1,
            row@.len() == j,
            forall|i: int| 0 <= i < j ==> #[trigger] row@[i] == binom(0, i as nat),
        decreases ku + 1 - j,
    {
        row.push(if j == 0 { 1 } else { 0 });
        j = j + 1;
    }
    proof {
        lemma2_to64();
        lemma2_to64_rest();
    }
    let mut m: u64 = 0;
    while m < n
        invariant
            m <= n <= 62,
            ku == k,
            row@.len() == ku + 1,
            forall|i: int| 0 <= i <= ku ==> #[trigger] row@[i] == binom(m as nat, i as nat),
            pow2(62) == 0x4000000000000000,
        decreases n - m,
    {
        let mut j: usize = ku;
        while j > 0
            invariant
                m < n <= 62,
                0 <= j <= ku,
                row@.len() == ku + 1,
                forall|i: int| 0 <= i <= j ==> #[trigger] row@[i] == binom(m as nat, i as nat),
                forall|i: int| j < i <= ku ==> #[trigger] row@[i] == binom((m + 1) as nat, i as nat),
                pow2(62) == 0x4000000000000000,
            decreases j,
        {
            proof {
                lemma_binom_bounds((m + 1) as nat, j as nat);
                if m + 1 < 62 {
                    lemma_pow2_strictly_increases((m + 1) as nat, 62);
                }
                assert(binom((m + 1) as nat, j as nat) == binom(m as nat, (j - 1) as nat) + binom(m as nat, j as nat));
            }
            let v = row[j] + row[j - 1];
            row.set(j, v);
            j = j - 1;
        }
        m = m + 1;
    }
    row[ku]
}


/// Every selection of `combos(pool, k)` has `k` items, each taken from `pool`.
pub proof fn lemma_combos_items(pool: Seq<u8>, k: nat)
    ensures
        forall|j: int|
            0 <= j < combos(pool, k).len() ==> (#[trigger] combos(pool, k)[j]).len() == k && forall|i: int|
                0 <= i < k ==> pool.contains(#[trigger] combos(pool, k)[j][i]),
    decreases pool.len(),
{
    if k > 0 && pool.len() > 0 {
        let t = pool.drop_first();
        lemma_combos_items(t, (k - 1) as nat);
        lemma_combos_items(t, k);
        let a = combos(t, (k - 1) as nat).map_values(|c: Seq<u8>| seq![pool[0]] + c);
        let b = combos(t, k);
        assert forall|j: int| 0 <= j < combos(pool, k).len() implies (#[trigger] combos(pool, k)[j]).len() == k
            && forall|i: int| 0 <= i < k ==> pool.contains(#[trigger] combos(pool, k)[j][i]) by {
            if j < a.len() {
                let c = combos(t, (k - 1) as nat)[j];
                assert(combos(pool, k)[j] == seq![pool[0]] + c);
                assert forall|i: int| 0 <= i < k implies pool.contains(#[trigger] combos(pool, k)[j][i]) by {
                    if i == 0 {
                        assert(pool[0] == combos(pool, k)[j][i]);
                    } else {
                        assert(combos(pool, k)[j][i] == c[i - 1]);
                        assert(t.contains(c[i - 1]));
                        let x = choose|x: int| 0 <= x < t.len() && t[x] == c[i - 1];
                        assert(pool[x + 1] == t[x]);
                    }
                }
            } else {
                let c = b[j - a.len()];
                assert(combos(pool, k)[j] == c);
                assert forall|i: int| 0 <= i < k implies pool.contains(#[trigger] combos(pool, k)[j][i]) by {
                    assert(t.contains(c[i]));
                    let x = choose|x: int| 0 <= x < t.len() && t[x] == c[i];
                    assert(pool[x + 1] == t[x]);
                }
            }
        }
    }
}

} // verus!
