//! Hand evaluation: the payout of a five-card hand under a paytable, for the
//! standard, deuces-wild and joker families.
use vstd::prelude::*;
use crate::card::rank_of;
use crate::card::suit_of;
use crate::paytable::{Family, Paytable};

verus! {

/// Whether card `c` plays as a wild card in family `fam`.
pub open spec fn is_wild(c: u8, fam: Family) -> bool {
    match fam {
        Family::Standard => false,
        Family::DeucesWild => c < 52 && c / 4 == 0,
        Family::Joker => c >= 52,
    }
}

/// Whether card `c` plays as itself: it has a rank and is not wild.
pub open spec fn is_natural(c: u8, fam: Family) -> bool {
    c < 52 && !is_wild(c, fam)
}

/// Number of natural cards of rank `r` in `h`.
pub open spec fn rank_count(h: Seq<u8>, fam: Family, r: int) -> nat
    decreases h.len(),
{
    if h.len() == 0 {
        0
    } else {
        rank_count(h.drop_last(), fam, r) + if is_natural(h.last(), fam) && rank_of(h.last()) == r {
            1nat
        } else {
            0nat
        }
    }
}

/// Number of wild cards in `h`.
pub open spec fn wild_count(h: Seq<u8>, fam: Family) -> nat
    decreases h.len(),
{
    if h.len() == 0 {
        0
    } else {
        wild_count(h.drop_last(), fam) + if is_wild(h.last(), fam) {
            1nat
        } else {
            0nat
        }
    }
}

/// The thirteen natural rank counts of `h`.
pub open spec fn counts_of(h: Seq<u8>, fam: Family) -> Seq<int> {
    Seq::new(13, |r: int| rank_count(h, fam, r) as int)
}

pub open spec fn as_ints(a: Seq<u8>) -> Seq<int> {
    a.map_values(|x: u8| x as int)
}

/// All natural cards of `h` share one suit (vacuously so when there is none).
pub open spec fn suited(h: Seq<u8>, fam: Family) -> bool {
    forall|i: int, j: int|
        0 <= i < h.len() && 0 <= j < h.len() && is_natural(#[trigger] h[i], fam) && is_natural(
            #[trigger] h[j],
            fam,
        ) ==> suit_of(h[i]) == suit_of(h[j])
}

/// Number of ranks below `n` whose count is `c`.
pub open spec fn num_with(cs: Seq<int>, c: int, n: int) -> int
    decreases n,
{
    if n <= 0 {
        0
    } else {
        num_with(cs, c, n - 1) + if cs[n - 1] == c {
            1int
        } else {
            0int
        }
    }
}

/// Lowest rank below `n` whose count is `c`, or 13 when there is none.
pub open spec fn first_with(cs: Seq<int>, c: int, n: int) -> int
    decreases n,
{
    if n <= 0 {
        13
    } else if first_with(cs, c, n - 1) < 13 {
        first_with(cs, c, n - 1)
    } else if cs[n - 1] == c {
        n - 1
    } else {
        13
    }
}

/// Largest count among the ranks below `n`.
pub open spec fn max_below(cs: Seq<int>, n: int) -> int
    decreases n,
{
    if n <= 0 {
        0
    } else if cs[n - 1] > max_below(cs, n - 1) {
        cs[n - 1]
    } else {
        max_below(cs, n - 1)
    }
}

/// Five consecutive ranks starting at `lo`, one card each.
pub open spec fn run_at(cs: Seq<int>, lo: int) -> bool {
    cs[lo] == 1 && cs[lo + 1] == 1 && cs[lo + 2] == 1 && cs[lo + 3] == 1 && cs[lo + 4] == 1
}

/// Five distinct consecutive ranks, or the wheel A-2-3-4-5.
pub open spec fn straight_counts(cs: Seq<int>) -> bool {
    (exists|lo: int| 0 <= lo <= 8 && #[trigger] run_at(cs, lo)) || (cs[0] == 1 && cs[1] == 1
        && cs[2] == 1 && cs[3] == 1 && cs[12] == 1)
}

/// One card each of T, J, Q, K and A.
pub open spec fn royal_counts(cs: Seq<int>) -> bool {
    run_at(cs, 8)
}

pub open spec fn gap(x: int) -> int {
    if x == 0 {
        1
    } else {
        0
    }
}

/// Slots of the five-rank window starting at `lo` that no natural card fills.
pub open spec fn missing(cs: Seq<int>, lo: int) -> int {
    gap(cs[lo]) + gap(cs[lo + 1]) + gap(cs[lo + 2]) + gap(cs[lo + 3]) + gap(cs[lo + 4])
}

/// Unfilled slots of the wheel. With deuces wild only 3, 4, 5 and A count:
/// the deuce slot is a wild card's.
pub open spec fn wheel_missing(cs: Seq<int>, fam: Family) -> int {
    (if fam == Family::DeucesWild {
        0
    } else {
        gap(cs[0])
    }) + gap(cs[1]) + gap(cs[2]) + gap(cs[3]) + gap(cs[12])
}

pub open spec fn no_dup(cs: Seq<int>) -> bool {
    forall|r: int| 0 <= r < 13 ==> #[trigger] cs[r] <= 1
}

/// A straight that `w` wild cards can complete: no paired natural rank, and
/// a window (or the wheel) whose unfilled slots the wild cards cover.
pub open spec fn wild_straight(cs: Seq<int>, w: int, fam: Family) -> bool {
    no_dup(cs) && ((exists|lo: int| 0 <= lo <= 8 && #[trigger] missing(cs, lo) <= w)
        || wheel_missing(cs, fam) <= w)
}

pub open spec fn short3(x: int) -> int {
    if x >= 3 {
        0
    } else {
        3 - x
    }
}

pub open spec fn short2(x: int) -> int {
    if x >= 2 {
        0
    } else {
        2 - x
    }
}

/// Two distinct ranks of the hand that `w` wild cards can fill out to
/// three and two cards.
pub open spec fn full_house_wild(cs: Seq<int>, w: int) -> bool {
    exists|a: int, b: int|
        0 <= a < 13 && 0 <= b < 13 && a != b && cs[b] >= 1 && cs[a] >= cs[b] && #[trigger] short3(cs[a])
            + #[trigger] short2(cs[b]) <= w
}

/// Whether a pair of rank `r` pays.
pub open spec fn pays_pair(pt: Paytable, r: int) -> bool {
    pt.min_pair_rank != 0 && r >= pt.min_pair_rank
}

/// A paying pair, where a wild card may stand in for one of its cards.
pub open spec fn pair_with_wild(pt: Paytable, cs: Seq<int>, w: int) -> bool {
    exists|r: int| 0 <= r < 13 && pays_pair(pt, r) && #[trigger] cs[r] + w >= 2
}

pub open spec fn low_kicker_for_aces(k: int) -> bool {
    0 <= k <= 2
}

pub open spec fn low_kicker_for_low_quads(k: int) -> bool {
    k == 12 || 0 <= k <= 2
}

/// Rate of four of a kind of rank `q` with kicker rank `k`.
pub open spec fn quad_rate(pt: Paytable, q: int, k: int) -> int {
    if q == 12 && pt.four_aces_with_kicker is Some && low_kicker_for_aces(k) {
        pt.four_aces_with_kicker->0 as int
    } else if 0 <= q <= 2 && pt.four_2_4_with_kicker is Some && low_kicker_for_low_quads(k) {
        pt.four_2_4_with_kicker->0 as int
    } else if q == 12 && pt.four_aces_with_face is Some && 9 <= k <= 11 {
        pt.four_aces_with_face->0 as int
    } else if 9 <= q <= 11 && pt.four_jqk_with_face is Some && 9 <= k <= 12 {
        pt.four_jqk_with_face->0 as int
    } else if q == 12 && pt.four_aces is Some {
        pt.four_aces->0 as int
    } else if 0 <= q <= 2 && pt.four_2_4 is Some {
        pt.four_2_4->0 as int
    } else if 9 <= q <= 11 && pt.four_jqk is Some {
        pt.four_jqk->0 as int
    } else if q == 6 && pt.four_8s is Some {
        pt.four_8s->0 as int
    } else if q == 5 && pt.four_7s is Some {
        pt.four_7s->0 as int
    } else if 3 <= q <= 11 && pt.four_5_k is Some {
        pt.four_5_k->0 as int
    } else {
        pt.four_of_a_kind as int
    }
}

/// Payout of a hand without wild cards; the first class that matches pays.
pub open spec fn standard_payout(h: Seq<u8>, pt: Paytable) -> int {
    let cs = counts_of(h, pt.family);
    let fl = suited(h, pt.family);
    let st = straight_counts(cs);
    let quad = first_with(cs, 4, 13);
    let trips = num_with(cs, 3, 13);
    let pairs = num_with(cs, 2, 13);
    if fl && st && royal_counts(cs) {
        pt.royal_flush as int
    } else if fl && st {
        pt.straight_flush as int
    } else if quad < 13 {
        quad_rate(pt, quad, first_with(cs, 1, 13))
    } else if trips > 0 && pairs > 0 {
        pt.full_house as int
    } else if fl {
        pt.flush as int
    } else if st {
        pt.straight as int
    } else if trips > 0 {
        pt.three_of_a_kind as int
    } else if pairs == 2 {
        pt.two_pair as int
    } else if pairs == 1 && pays_pair(pt, first_with(cs, 2, 13)) {
        pt.high_pair as int
    } else {
        0
    }
}

/// Payout of a hand of a wild-card family; the first class that matches pays.
pub open spec fn wild_payout(h: Seq<u8>, pt: Paytable) -> int {
    let fam = pt.family;
    let cs = counts_of(h, fam);
    let w = wild_count(h, fam) as int;
    let m = max_below(cs, 13);
    let fl = suited(h, fam);
    let st = wild_straight(cs, w, fam);
    let rw = fl && missing(cs, 8) <= w;
    if w == 0 && fl && st && royal_counts(cs) {
        pt.royal_flush as int
    } else if w == 4 {
        pt.four_deuces as int
    } else if rw && w > 0 {
        pt.wild_royal as int
    } else if m + w >= 5 {
        pt.five_of_a_kind as int
    } else if fl && st && !rw {
        pt.straight_flush as int
    } else if m + w >= 4 {
        pt.four_of_a_kind as int
    } else if full_house_wild(cs, w) && m + w < 4 {
        pt.full_house as int
    } else if fl && !st {
        pt.flush as int
    } else if st && !fl {
        pt.straight as int
    } else if m + w >= 3 {
        pt.three_of_a_kind as int
    } else if fam == Family::Joker && num_with(cs, 2, 13) >= 2 {
        pt.two_pair as int
    } else if fam == Family::Joker && pair_with_wild(pt, cs, w) {
        pt.high_pair as int
    } else {
        0
    }
}

/// Payout of a hand: zero unless it holds exactly five cards.
pub open spec fn payout_of(h: Seq<u8>, pt: Paytable) -> int {
    if h.len() != 5 {
        0
    } else if pt.family == Family::Standard {
        standard_payout(h, pt)
    } else {
        wild_payout(h, pt)
    }
}


fn wild_card(c: u8, fam: Family) -> (b: bool)
    ensures
        b == is_wild(c, fam),
{
    match fam {
        Family::Standard => false,
        Family::DeucesWild => c < 4,
        Family::Joker => c >= 52,
    }
}

/// Natural rank counts and number of wild cards of a five-card hand.
fn tally(hand: &[u8], fam: Family) -> (r: ([u8; 13], u8))
    requires
        hand@.len() == 5,
    ensures
        as_ints(r.0@) == counts_of(hand@, fam),
        r.1 as int == wild_count(hand@, fam),
        forall|k: int| 0 <= k < 13 ==> r.0@[k] <= 5,
        r.1 <= 5,
{
    let mut counts: [u8; 13] = [0u8; 13];
    let mut w: u8 = 0;
    let mut i: usize = 0;
    while i < 5
        invariant
            0 <= i <= 5,
            hand@.len() == 5,
            forall|k: int| 0 <= k < 13 ==> #[trigger] counts@[k] as int == rank_count(hand@.take(i as int), fam, k),
            forall|k: int| 0 <= k < 13 ==> #[trigger] counts@[k] <= i,
            w as int == wild_count(hand@.take(i as int), fam),
            w <= i,
        decreases 5 - i,
    {
        let c = hand[i];
        proof {
            assert(hand@.take(i as int + 1).drop_last() =~= hand@.take(i as int));
            assert(hand@.take(i as int + 1).last() == c);
        }
        if wild_card(c, fam) {
            w = w + 1;
        } else if c < 52 {
            let k = (c / 4) as usize;
            counts[k] = counts[k] + 1;
        }
        i = i + 1;
    }
    proof {
        assert(hand@.take(5) =~= hand@);
        assert(as_ints(counts@) =~= counts_of(hand@, fam));
    }
    (counts, w)
}

/// Whether all natural cards of the hand share one suit.
fn all_suited(hand: &[u8], fam: Family) -> (b: bool)
    ensures
        b == suited(hand@, fam),
{
    let mut suit: u8 = 4;
    let ghost mut first: int = 0;
    let mut i: usize = 0;
    while i < hand.len()
        invariant
            0 <= i <= hand@.len(),
            suit <= 4,
            suit == 4 ==> forall|k: int| 0 <= k < i ==> !is_natural(#[trigger] hand@[k], fam),
            suit < 4 ==> 0 <= first < i && is_natural(hand@[first], fam) && suit_of(hand@[first]) == suit,
            forall|k: int| 0 <= k < i && is_natural(#[trigger] hand@[k], fam) ==> suit_of(hand@[k]) == suit,
        decreases hand@.len() - i,
    {
        let c = hand[i];
        if c < 52 && !wild_card(c, fam) {
            if suit == 4 {
                suit = c % 4;
                proof {
                    first = i as int;
                }
            } else if c % 4 != suit {
                assert(!suited(hand@, fam)) by {
                    assert(is_natural(hand@[first], fam) && is_natural(hand@[i as int], fam));
                }
                return false;
            }
        }
        i = i + 1;
    }
    true
}


/// Summary of a count table: ranks with two and three cards, the first
/// ranks with four, one and two cards, and the largest count.
struct Shape {
    pairs: u8,
    trips: u8,
    quad: u8,
    single: u8,
    pair: u8,
    most: u8,
}

fn shape_of(counts: &[u8; 13]) -> (s: Shape)
    ensures
        s.pairs as int == num_with(as_ints(counts@), 2, 13),
        s.trips as int == num_with(as_ints(counts@), 3, 13),
        s.quad as int == first_with(as_ints(counts@), 4, 13),
        s.single as int == first_with(as_ints(counts@), 1, 13),
        s.pair as int == first_with(as_ints(counts@), 2, 13),
        s.most as int == max_below(as_ints(counts@), 13),
{
    let ghost cs = as_ints(counts@);
    let mut s = Shape { pairs: 0, trips: 0, quad: 13, single: 13, pair: 13, most: 0 };
    let mut r: usize = 0;
    while r < 13
        invariant
            0 <= r <= 13,
            cs == as_ints(counts@),
            s.pairs as int == num_with(cs, 2, r as int),
            s.trips as int == num_with(cs, 3, r as int),
            s.quad as int == first_with(cs, 4, r as int),
            s.single as int == first_with(cs, 1, r as int),
            s.pair as int == first_with(cs, 2, r as int),
            s.most as int == max_below(cs, r as int),
            s.pairs <= r && s.trips <= r,
        decreases 13 - r,
    {
        let c = counts[r];
        assert(cs[r as int] == c as int);
        if c == 2 {
            s.pairs = s.pairs + 1;
            if s.pair == 13 {
                s.pair = r as u8;
            }
        }
        if c == 3 {
            s.trips = s.trips + 1;
        }
        if c == 4 && s.quad == 13 {
            s.quad = r as u8;
        }
        if c == 1 && s.single == 13 {
            s.single = r as u8;
        }
        if c > s.most {
            s.most = c;
        }
        r = r + 1;
    }
    s
}

proof fn lemma_max_below(cs: Seq<int>, n: int, r: int)
    requires
        0 <= r < n,
    ensures
        cs[r] <= max_below(cs, n),
    decreases n,
{
    if r < n - 1 {
        lemma_max_below(cs, n - 1, r);
    }
}

fn is_straight_counts(counts: &[u8; 13]) -> (b: bool)
    ensures
        b == straight_counts(as_ints(counts@)),
{
    let ghost cs = as_ints(counts@);
    let mut lo: usize = 0;
    while lo <= 8
        invariant
            0 <= lo <= 9,
            cs == as_ints(counts@),
            forall|l: int| 0 <= l < lo ==> !#[trigger] run_at(cs, l),
        decreases 9 - lo,
    {
        if counts[lo] == 1 && counts[lo + 1] == 1 && counts[lo + 2] == 1 && counts[lo + 3] == 1
            && counts[lo + 4] == 1 {
            assert(run_at(cs, lo as int));
            return true;
        }
        lo = lo + 1;
    }
    counts[0] == 1 && counts[1] == 1 && counts[2] == 1 && counts[3] == 1 && counts[12] == 1
}

fn gap_of(x: u8) -> (g: u8)
    ensures
        g as int == gap(x as int),
{
    if x == 0 {
        1
    } else {
        0
    }
}

fn missing_at(counts: &[u8; 13], lo: usize) -> (m: u8)
    requires
        lo <= 8,
    ensures
        m as int == missing(as_ints(counts@), lo as int),
{
    gap_of(counts[lo]) + gap_of(counts[lo + 1]) + gap_of(counts[lo + 2]) + gap_of(counts[lo + 3])
        + gap_of(counts[lo + 4])
}

fn is_wild_straight(counts: &[u8; 13], w: u8, fam: Family) -> (b: bool)
    ensures
        b == wild_straight(as_ints(counts@), w as int, fam),
{
    let ghost cs = as_ints(counts@);
    let mut r: usize = 0;
    while r < 13
        invariant
            0 <= r <= 13,
            cs == as_ints(counts@),
            forall|k: int| 0 <= k < r ==> #[trigger] cs[k] <= 1,
        decreases 13 - r,
    {
        if counts[r] > 1 {
            assert(!no_dup(cs)) by {
                assert(cs[r as int] > 1);
            }
            return false;
        }
        r = r + 1;
    }
    assert(no_dup(cs));
    let mut lo: usize = 0;
    while lo <= 8
        invariant
            0 <= lo <= 9,
            cs == as_ints(counts@),
            no_dup(cs),
            forall|l: int| 0 <= l < lo ==> !(#[trigger] missing(cs, l) <= w),
        decreases 9 - lo,
    {
        if missing_at(counts, lo) <= w {
            assert(missing(cs, lo as int) <= w);
            return true;
        }
        lo = lo + 1;
    }
    let low = match fam {
        Family::DeucesWild => 0,
        _ => gap_of(counts[0]),
    };
    low + gap_of(counts[1]) + gap_of(counts[2]) + gap_of(counts[3]) + gap_of(counts[12]) <= w
}

fn can_fill_full_house(counts: &[u8; 13], w: u8, most: u8) -> (b: bool)
    requires
        most as int == max_below(as_ints(counts@), 13),
    ensures
        b == full_house_wild(as_ints(counts@), w as int),
{
    let ghost cs = as_ints(counts@);
    if most as u16 + w as u16 <= 2 {
        assert(!full_house_wild(cs, w as int)) by {
            assert forall|a: int, b: int|
                0 <= a < 13 && 0 <= b < 13 implies !(#[trigger] short3(cs[a]) + #[trigger] short2(cs[b]) <= w) by {
                lemma_max_below(cs, 13, a);
            }
        }
        return false;
    }
    let mut a: usize = 0;
    while a < 13
        invariant
            0 <= a <= 13,
            cs == as_ints(counts@),
            forall|x: int, y: int|
                0 <= x < a && 0 <= y < 13 && x != y && cs[y] >= 1 && cs[x] >= cs[y] ==> !(
                #[trigger] short3(cs[x]) + #[trigger] short2(cs[y]) <= w),
        decreases 13 - a,
    {
        let mut b: usize = 0;
        while b < 13
            invariant
                0 <= a < 13,
                0 <= b <= 13,
                cs == as_ints(counts@),
                forall|x: int, y: int|
                    0 <= x < a && 0 <= y < 13 && x != y && cs[y] >= 1 && cs[x] >= cs[y] ==> !(
                    #[trigger] short3(cs[x]) + #[trigger] short2(cs[y]) <= w),
                forall|y: int|
                    0 <= y < b && a != y && cs[y] >= 1 && cs[a as int] >= cs[y] ==> !(short3(cs[a as int])
                        + #[trigger] short2(cs[y]) <= w),
            decreases 13 - b,
        {
            let ca = counts[a];
            let cb = counts[b];
            if a != b && cb >= 1 && ca >= cb {
                let s3: u8 = if ca >= 3 { 0 } else { 3 - ca };
                let s2: u8 = if cb >= 2 { 0 } else { 2 - cb };
                if s3 as u16 + s2 as u16 <= w as u16 {
                    assert(short3(cs[a as int]) + short2(cs[b as int]) <= w);
                    return true;
                }
            }
            b = b + 1;
        }
        a = a + 1;
    }
    false
}

fn pays_pair_exec(pt: &Paytable, r: u8) -> (b: bool)
    ensures
        b == pays_pair(*pt, r as int),
{
    pt.min_pair_rank != 0 && r >= pt.min_pair_rank
}

fn has_pair_with_wild(pt: &Paytable, counts: &[u8; 13], w: u8) -> (b: bool)
    requires
        w <= 5,
        forall|k: int| 0 <= k < 13 ==> counts@[k] <= 5,
    ensures
        b == pair_with_wild(*pt, as_ints(counts@), w as int),
{
    let ghost cs = as_ints(counts@);
    let mut r: u8 = 0;
    while r < 13
        invariant
            0 <= r <= 13,
            cs == as_ints(counts@),
            forall|k: int| 0 <= k < 13 ==> counts@[k] <= 5,
            forall|k: int| 0 <= k < r && pays_pair(*pt, k) ==> !(#[trigger] cs[k] + w >= 2),
        decreases 13 - r,
    {
        if pays_pair_exec(pt, r) && counts[r as usize] as u16 + w as u16 >= 2 {
            assert(cs[r as int] + w >= 2);
            return true;
        }
        r = r + 1;
    }
    false
}

fn quad_rate_exec(pt: &Paytable, q: u8, k: u8) -> (v: u32)
    ensures
        v as int == quad_rate(*pt, q as int, k as int),
{
    if q == 12 && k <= 2 && pt.four_aces_with_kicker.is_some() {
        return pt.four_aces_with_kicker.unwrap();
    }
    if q <= 2 && (k == 12 || k <= 2) && pt.four_2_4_with_kicker.is_some() {
        return pt.four_2_4_with_kicker.unwrap();
    }
    if q == 12 && 9 <= k && k <= 11 && pt.four_aces_with_face.is_some() {
        return pt.four_aces_with_face.unwrap();
    }
    if 9 <= q && q <= 11 && 9 <= k && k <= 12 && pt.four_jqk_with_face.is_some() {
        return pt.four_jqk_with_face.unwrap();
    }
    if q == 12 && pt.four_aces.is_some() {
        return pt.four_aces.unwrap();
    }
    if q <= 2 && pt.four_2_4.is_some() {
        return pt.four_2_4.unwrap();
    }
    if 9 <= q && q <= 11 && pt.four_jqk.is_some() {
        return pt.four_jqk.unwrap();
    }
    if q == 6 && pt.four_8s.is_some() {
        return pt.four_8s.unwrap();
    }
    if q == 5 && pt.four_7s.is_some() {
        return pt.four_7s.unwrap();
    }
    if 3 <= q && q <= 11 && pt.four_5_k.is_some() {
        return pt.four_5_k.unwrap();
    }
    pt.four_of_a_kind
}


/// Payout of `hand` under `pt`: zero for a hand that does not hold exactly
/// five cards, else the rate of the first paying class, in the order of
/// the hand's family.
pub fn payout(hand: &[u8], pt: &Paytable) -> (r: u32)
    requires
        pt.wf(),
    ensures
        r as int == payout_of(hand@, *pt),
        r <= pt.royal_flush,
{
    if hand.len() != 5 {
        return 0;
    }
    let fam = pt.family;
    let (counts, w) = tally(hand, fam);
    let fl = all_suited(hand, fam);
    let s = shape_of(&counts);
    let ghost cs = as_ints(counts@);
    assert(cs =~= counts_of(hand@, fam));
    match fam {
        Family::Standard => {
            let st = is_straight_counts(&counts);
            if fl && st && counts[8] == 1 && counts[9] == 1 && counts[10] == 1 && counts[11] == 1
                && counts[12] == 1 {
                pt.royal_flush
            } else if fl && st {
                pt.straight_flush
            } else if s.quad < 13 {
                quad_rate_exec(pt, s.quad, s.single)
            } else if s.trips > 0 && s.pairs > 0 {
                pt.full_house
            } else if fl {
                pt.flush
            } else if st {
                pt.straight
            } else if s.trips > 0 {
                pt.three_of_a_kind
            } else if s.pairs == 2 {
                pt.two_pair
            } else if s.pairs == 1 && pays_pair_exec(pt, s.pair) {
                pt.high_pair
            } else {
                0
            }
        },
        _ => {
            proof {
                lemma_max_below(cs, 13, 0);
            }
            let m = s.most;
            let mw: u16 = m as u16 + w as u16;
            let st = is_wild_straight(&counts, w, fam);
            let rw = fl && missing_at(&counts, 8) <= w;
            if w == 0 && fl && st && counts[8] == 1 && counts[9] == 1 && counts[10] == 1
                && counts[11] == 1 && counts[12] == 1 {
                pt.royal_flush
            } else if w == 4 {
                pt.four_deuces
            } else if rw && w > 0 {
                pt.wild_royal
            } else if mw >= 5 {
                pt.five_of_a_kind
            } else if fl && st && !rw {
                pt.straight_flush
            } else if mw >= 4 {
                pt.four_of_a_kind
            } else if can_fill_full_house(&counts, w, m) && mw < 4 {
                pt.full_house
            } else if fl && !st {
                pt.flush
            } else if st && !fl {
                pt.straight
            } else if mw >= 3 {
                pt.three_of_a_kind
            } else if fam == Family::Joker && s.pairs >= 2 {
                pt.two_pair
            } else if fam == Family::Joker && has_pair_with_wild(pt, &counts, w) {
                pt.high_pair
            } else {
                0
            }
        },
    }
}


/// `a` pays at least `b` whenever both offer the bonus, and offers exactly
/// the bonuses that `b` offers.
pub open spec fn opt_at_least(a: Option<u32>, b: Option<u32>) -> bool {
    (a is Some <==> b is Some) && (a is Some ==> a->0 >= b->0)
}

/// Paytable `a` pays at least as much as `b` for every class, with the same
/// family, deck, pair threshold and set of quad bonuses.
pub open spec fn dominates(a: Paytable, b: Paytable) -> bool {
    &&& a.family == b.family
    &&& a.deck_size == b.deck_size
    &&& a.min_pair_rank == b.min_pair_rank
    &&& a.royal_flush >= b.royal_flush
    &&& a.straight_flush >= b.straight_flush
    &&& a.four_of_a_kind >= b.four_of_a_kind
    &&& a.full_house >= b.full_house
    &&& a.flush >= b.flush
    &&& a.straight >= b.straight
    &&& a.three_of_a_kind >= b.three_of_a_kind
    &&& a.two_pair >= b.two_pair
    &&& a.high_pair >= b.high_pair
    &&& opt_at_least(a.four_aces, b.four_aces)
    &&& opt_at_least(a.four_2_4, b.four_2_4)
    &&& opt_at_least(a.four_5_k, b.four_5_k)
    &&& opt_at_least(a.four_jqk, b.four_jqk)
    &&& opt_at_least(a.four_8s, b.four_8s)
    &&& opt_at_least(a.four_7s, b.four_7s)
    &&& opt_at_least(a.four_aces_with_kicker, b.four_aces_with_kicker)
    &&& opt_at_least(a.four_2_4_with_kicker, b.four_2_4_with_kicker)
    &&& opt_at_least(a.four_aces_with_face, b.four_aces_with_face)
    &&& opt_at_least(a.four_jqk_with_face, b.four_jqk_with_face)
    &&& a.four_deuces >= b.four_deuces
    &&& a.wild_royal >= b.wild_royal
    &&& a.five_of_a_kind >= b.five_of_a_kind
}

/// A paytable that pays at least as much as another for every class pays at
/// least as much for every hand.
pub proof fn lemma_payout_monotone(h: Seq<u8>, a: Paytable, b: Paytable)
    requires
        dominates(a, b),
    ensures
        payout_of(h, a) >= payout_of(h, b),
{
    let cs = counts_of(h, a.family);
    assert(quad_rate(a, first_with(cs, 4, 13), first_with(cs, 1, 13)) >= quad_rate(
        b,
        first_with(cs, 4, 13),
        first_with(cs, 1, 13),
    ));
    assert(pair_with_wild(a, cs, wild_count(h, a.family) as int) == pair_with_wild(
        b,
        cs,
        wild_count(h, a.family) as int,
    ));
}

} // verus!
