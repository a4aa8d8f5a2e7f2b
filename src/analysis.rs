//! Strategy classes of a canonical hand: every pattern of the hand that a
//! strategy table ranks (made hands, draws and high-card holds).
use vstd::prelude::*;
use crate::ev::{combinations, combos, lemma_combos_items};
use crate::canonical::{canonical_parts, digits, is_perm, key_code, lemma_key_digits, lemma_key_invariant, permute_suits};
use crate::canonical::value_ok;
use crate::classes::{
    suit_index,
    contains_value, has_value, lemma_high_count_range, max_of, min_of, span_of, within, distinct, high_count, inside_draw, is_inside_straight_draw, is_outside_straight_draw, is_straight_ranks,
    outside_draw, rank_is_high, rank_value, sf_draw_gaps_and_highs, sf_draw_type, sf_gaps, sf_type,
    straight_ranks, values_of, CanonicalSuit, HandClass, Rank,
};

verus! {

#[derive(Clone, Copy, Debug, PartialEq, Eq, Hash, PartialOrd, Ord, Structural)]
pub struct Card {
    pub rank: Rank,
    pub suit: CanonicalSuit,
}

impl Card {
    pub fn new(rank: Rank, suit: CanonicalSuit) -> (c: Card)
        ensures
            c.rank == rank && c.suit == suit,
    {
        Card { rank, suit }
    }
}

/// A hand of canonical cards.
#[derive(Debug)]
pub struct Hand {
    pub cards: Vec<Card>,
}

pub open spec fn ranks_of(cs: Seq<Card>) -> Seq<Rank> {
    cs.map_values(|c: Card| c.rank)
}

/// Number of cards of rank value `v`.
pub open spec fn rank_cnt(cs: Seq<Card>, v: int) -> int
    decreases cs.len(),
{
    if cs.len() == 0 {
        0
    } else {
        rank_cnt(cs.drop_last(), v) + if rank_value(cs.last().rank) == v {
            1int
        } else {
            0
        }
    }
}

/// Number of rank values below `n` held exactly `c` times.
pub open spec fn values_with(cs: Seq<Card>, c: int, n: int) -> int
    decreases n,
{
    if n <= 2 {
        0
    } else {
        values_with(cs, c, n - 1) + if rank_cnt(cs, n - 1) == c {
            1int
        } else {
            0
        }
    }
}

/// Lowest rank value below `n` held exactly `c` times, or 15.
pub open spec fn first_value_with(cs: Seq<Card>, c: int, n: int) -> int
    decreases n,
{
    if n <= 2 {
        15
    } else if first_value_with(cs, c, n - 1) < 15 {
        first_value_with(cs, c, n - 1)
    } else if rank_cnt(cs, n - 1) == c {
        n - 1
    } else {
        15
    }
}

/// All five cards share a suit.
pub open spec fn one_suit(cs: Seq<Card>) -> bool {
    cs.len() == 5 && forall|i: int| 0 <= i < 5 ==> #[trigger] cs[i].suit == cs[0].suit
}

pub open spec fn push_if(acc: Seq<HandClass>, cond: bool, c: HandClass) -> Seq<HandClass> {
    if cond {
        acc.push(c)
    } else {
        acc
    }
}

/// Appends `c` when `cond` holds and `c` is not listed yet.
pub open spec fn push_new(acc: Seq<HandClass>, cond: bool, c: HandClass) -> Seq<HandClass> {
    if cond && !acc.contains(c) {
        acc.push(c)
    } else {
        acc
    }
}

/// Made hands: quads, full house, flush, straight, trips, two pair, a pair.
pub open spec fn made_classes(cs: Seq<Card>) -> Seq<HandClass> {
    let pairs = values_with(cs, 2, 15);
    let trips = values_with(cs, 3, 15);
    let quads = values_with(cs, 4, 15);
    let fl = one_suit(cs);
    let st = straight_ranks(ranks_of(cs));
    let pv = first_value_with(cs, 2, 15);
    let a = push_if(Seq::empty(), quads == 1, HandClass::FourOfAKind);
    let a = push_if(a, trips == 1 && pairs == 1, HandClass::FullHouse);
    let a = push_if(a, fl && !st, HandClass::Flush);
    let a = push_if(a, st && !fl, HandClass::Straight);
    let a = push_if(a, trips == 1 && pairs == 0, HandClass::ThreeOfAKind);
    let a = push_if(a, pairs == 2, HandClass::TwoPair);
    let a = push_if(a, pairs == 1 && trips == 0 && 11 <= pv <= 14, HandClass::HighPair);
    push_if(a, pairs == 1 && trips == 0 && !(11 <= pv <= 14), HandClass::LowPair)
}


fn push_when(acc: &mut Vec<HandClass>, cond: bool, c: HandClass)
    ensures
        final(acc)@ == push_if(old(acc)@, cond, c),
{
    if cond {
        acc.push(c);
    }
}

fn listed(acc: &Vec<HandClass>, c: HandClass) -> (b: bool)
    ensures
        b == acc@.contains(c),
{
    let mut i: usize = 0;
    while i < acc.len()
        invariant
            0 <= i <= acc@.len(),
            forall|k: int| 0 <= k < i ==> acc@[k] != c,
        decreases acc@.len() - i,
    {
        if acc[i] == c {
            assert(acc@[i as int] == c);
            return true;
        }
        i = i + 1;
    }
    false
}

fn push_unlisted(acc: &mut Vec<HandClass>, cond: bool, c: HandClass)
    ensures
        final(acc)@ == push_new(old(acc)@, cond, c),
{
    if cond && !listed(acc, c) {
        acc.push(c);
    }
}

/// Cards held of each rank value 2 to 14.
fn rank_table(cs: &[Card]) -> (t: [u8; 15])
    requires
        cs@.len() == 5,
    ensures
        forall|v: int| 2 <= v < 15 ==> #[trigger] t@[v] as int == rank_cnt(cs@, v),
{
    let mut t: [u8; 15] = [0u8; 15];
    let mut i: usize = 0;
    while i < 5
        invariant
            0 <= i <= 5,
            cs@.len() == 5,
            forall|v: int| 2 <= v < 15 ==> #[trigger] t@[v] as int == rank_cnt(cs@.take(i as int), v),
            forall|v: int| 0 <= v < 15 ==> #[trigger] t@[v] <= i,
        decreases 5 - i,
    {
        let v = cs[i].rank.value() as usize;
        proof {
            assert(cs@.take(i as int + 1).drop_last() =~= cs@.take(i as int));
        }
        t[v] = t[v] + 1;
        i = i + 1;
    }
    assert(cs@.take(5) =~= cs@);
    t
}

fn made_into(cs: &[Card], acc: &mut Vec<HandClass>)
    requires
        cs@.len() == 5,
        old(acc)@ == Seq::<HandClass>::empty(),
    ensures
        final(acc)@ == made_classes(cs@),
{
    let t = rank_table(cs);
    let mut pairs: u8 = 0;
    let mut trips: u8 = 0;
    let mut quads: u8 = 0;
    let mut pv: u8 = 15;
    let mut v: usize = 2;
    while v < 15
        invariant
            2 <= v <= 15,
            cs@.len() == 5,
            forall|x: int| 2 <= x < 15 ==> #[trigger] t@[x] as int == rank_cnt(cs@, x),
            pairs as int == values_with(cs@, 2, v as int),
            trips as int == values_with(cs@, 3, v as int),
            quads as int == values_with(cs@, 4, v as int),
            pv as int == first_value_with(cs@, 2, v as int),
            pairs <= v && trips <= v && quads <= v,
        decreases 15 - v,
    {
        let c = t[v];
        if c == 2 {
            pairs = pairs + 1;
            if pv == 15 {
                pv = v as u8;
            }
        }
        if c == 3 {
            trips = trips + 1;
        }
        if c == 4 {
            quads = quads + 1;
        }
        v = v + 1;
    }
    let mut fl = true;
    let mut i: usize = 1;
    while i < 5
        invariant
            1 <= i <= 5,
            cs@.len() == 5,
            fl == (forall|k: int| 0 <= k < i ==> #[trigger] cs@[k].suit == cs@[0].suit),
        decreases 5 - i,
    {
        if cs[i].suit != cs[0].suit {
            fl = false;
        }
        i = i + 1;
    }
    let mut ranks: Vec<Rank> = Vec::new();
    let mut i: usize = 0;
    while i < 5
        invariant
            0 <= i <= 5,
            cs@.len() == 5,
            ranks@ == ranks_of(cs@).take(i as int),
        decreases 5 - i,
    {
        ranks.push(cs[i].rank);
        proof {
            assert(ranks@ =~= ranks_of(cs@).take(i as int + 1));
        }
        i = i + 1;
    }
    assert(ranks@ =~= ranks_of(cs@));
    let st = is_straight_ranks(ranks.as_slice());
    push_when(acc, quads == 1, HandClass::FourOfAKind);
    push_when(acc, trips == 1 && pairs == 1, HandClass::FullHouse);
    push_when(acc, fl && !st, HandClass::Flush);
    push_when(acc, st && !fl, HandClass::Straight);
    push_when(acc, trips == 1 && pairs == 0, HandClass::ThreeOfAKind);
    push_when(acc, pairs == 2, HandClass::TwoPair);
    push_when(acc, pairs == 1 && trips == 0 && 11 <= pv && pv <= 14, HandClass::HighPair);
    push_when(acc, pairs == 1 && trips == 0 && !(11 <= pv && pv <= 14), HandClass::LowPair);
}


/// The cards of suit `s`, in hand order.
pub open spec fn suited_of(cs: Seq<Card>, s: CanonicalSuit) -> Seq<Card>
    decreases cs.len(),
{
    if cs.len() == 0 {
        Seq::empty()
    } else if cs.last().suit == s {
        suited_of(cs.drop_last(), s).push(cs.last())
    } else {
        suited_of(cs.drop_last(), s)
    }
}

/// Four suited cards: to a royal, to a straight flush (a span of at most
/// five values, or A-2-3-4), or to a flush.
pub open spec fn four_suited(acc: Seq<HandClass>, sc: Seq<Card>) -> Seq<HandClass> {
    let vs = values_of(ranks_of(sc));
    if sc.len() != 4 {
        acc
    } else if max_of(vs) - min_of(vs) <= 4 || (contains_value(vs, 2) && contains_value(vs, 3) && contains_value(
        vs,
        4,
    ) && contains_value(vs, 14)) {
        if within(vs, 10, 14) {
            acc.push(HandClass::FourToRoyalFlush)
        } else {
            acc.push(HandClass::FourToStraightFlush)
        }
    } else {
        acc.push(HandClass::FourToFlush)
    }
}

pub open spec fn triple_ranks(sc: Seq<Card>, t: Seq<u8>) -> Seq<Rank> {
    seq![sc[t[0] as int].rank, sc[t[1] as int].rank, sc[t[2] as int].rank]
}

/// One three-card straight-flush draw that is not three to a royal.
pub open spec fn triple_step(acc: Seq<HandClass>, sc: Seq<Card>, t: Seq<u8>) -> Seq<HandClass> {
    let rs = triple_ranks(sc, t);
    if high_count(rs) == 3 || !distinct(values_of(rs)) {
        acc
    } else {
        match sf_gaps(rs) {
            Some(p) => match sf_type(p.0, p.1, rs) {
                Some(k) => if k == 1 {
                    push_new(acc, true, HandClass::ThreeToSFType1)
                } else if k == 2 {
                    push_new(acc, true, HandClass::ThreeToSFType2)
                } else {
                    push_new(acc, true, HandClass::ThreeToSFType3)
                },
                None => acc,
            },
            None => acc,
        }
    }
}

pub open spec fn triples_fold(acc: Seq<HandClass>, sc: Seq<Card>, ts: Seq<Seq<u8>>) -> Seq<HandClass>
    decreases ts.len(),
{
    if ts.len() == 0 {
        acc
    } else {
        triple_step(triples_fold(acc, sc, ts.drop_last()), sc, ts.last())
    }
}

pub open spec fn positions(n: nat) -> Seq<u8> {
    Seq::new(n, |i: int| i as u8)
}

pub open spec fn holds_value(sc: Seq<Card>, v: int) -> bool {
    contains_value(values_of(ranks_of(sc)), v)
}

/// Two suited high cards.
pub open spec fn suited_pairs(acc: Seq<HandClass>, sc: Seq<Card>) -> Seq<HandClass> {
    if sc.len() < 2 {
        acc
    } else {
        let a = push_if(acc, holds_value(sc, 12) && holds_value(sc, 11), HandClass::SuitedQJ);
        let a = push_if(a, holds_value(sc, 13) && holds_value(sc, 12), HandClass::SuitedKQOrKJ);
        let a = push_new(a, holds_value(sc, 13) && holds_value(sc, 11), HandClass::SuitedKQOrKJ);
        let a = push_if(a, holds_value(sc, 14) && holds_value(sc, 13), HandClass::SuitedAKAQAJ);
        let a = push_new(a, holds_value(sc, 14) && holds_value(sc, 12), HandClass::SuitedAKAQAJ);
        let a = push_new(a, holds_value(sc, 14) && holds_value(sc, 11), HandClass::SuitedAKAQAJ);
        let a = push_if(a, holds_value(sc, 10) && holds_value(sc, 11), HandClass::SuitedTJ);
        let a = push_if(a, holds_value(sc, 10) && holds_value(sc, 12), HandClass::SuitedTQ);
        push_if(a, holds_value(sc, 10) && holds_value(sc, 13), HandClass::SuitedTK)
    }
}

/// Classes from the cards of one suit.
pub open spec fn suit_section(acc: Seq<HandClass>, cs: Seq<Card>, s: CanonicalSuit) -> Seq<HandClass> {
    let sc = suited_of(cs, s);
    let a = four_suited(acc, sc);
    let a = push_if(a, sc.len() >= 3 && high_count(ranks_of(sc)) >= 3, HandClass::ThreeToRoyalFlush);
    let a = triples_fold(a, sc, combos(positions(sc.len()), 3));
    suited_pairs(a, sc)
}

/// Straight draws among the four cards left when card `skip` is set aside.
pub open spec fn four_step(acc: Seq<HandClass>, cs: Seq<Card>, skip: int) -> Seq<HandClass> {
    let rs = ranks_of(cs.remove(skip));
    let a = match outside_draw(rs) {
        Some(h) => push_new(acc, h <= 2, HandClass::FourToOutsideStraight),
        None => acc,
    };
    match inside_draw(rs) {
        Some(h) => if h == 4 {
            push_new(a, true, HandClass::FourToInsideStraight4High)
        } else {
            push_new(a, h == 3, HandClass::FourToInsideStraight3High)
        },
        None => a,
    }
}

/// Cards with rank values in `lo..=hi` come in at least two suits.
pub open spec fn mixed(cs: Seq<Card>, lo: int, hi: int) -> bool {
    exists|i: int, j: int|
        0 <= i < cs.len() && 0 <= j < cs.len() && lo <= rank_value(#[trigger] cs[i].rank) <= hi && lo
            <= rank_value(#[trigger] cs[j].rank) <= hi && cs[i].suit != cs[j].suit
}

/// Unsuited high-card holds and single high cards.
pub open spec fn high_section(acc: Seq<HandClass>, cs: Seq<Card>) -> Seq<HandClass> {
    let (t, j, q, k, a_) = (holds_value(cs, 10), holds_value(cs, 11), holds_value(cs, 12), holds_value(cs, 13), holds_value(cs, 14));
    let a = push_if(acc, t && j && q && k && mixed(cs, 10, 13), HandClass::UnsuitedTJQK);
    let a = push_if(a, j && q && k && mixed(cs, 11, 13), HandClass::UnsuitedJQK);
    let a = push_if(a, j && q && mixed(cs, 11, 12), HandClass::UnsuitedJQ);
    let a = push_if(a, k && (j || q) && !a_ && mixed(cs, 11, 13), HandClass::TwoUnsuitedHighKing);
    let a = push_if(a, a_ && (j || q || k) && mixed(cs, 11, 14), HandClass::TwoUnsuitedHighAce);
    let a = push_if(a, j, HandClass::JOnly);
    let a = push_if(a, q, HandClass::QOnly);
    let a = push_if(a, k, HandClass::KOnly);
    push_if(a, a_, HandClass::AOnly)
}

/// Every strategy class of a five-card hand, in the order the analysis
/// finds them: made hands, then per suit `a` to `d` its suited draws, then
/// four-card straight draws, then high-card holds, and garbage last.
pub open spec fn hand_classes(cs: Seq<Card>) -> Seq<HandClass> {
    let a = made_classes(cs);
    let a = suit_section(a, cs, CanonicalSuit::A);
    let a = suit_section(a, cs, CanonicalSuit::B);
    let a = suit_section(a, cs, CanonicalSuit::C);
    let a = suit_section(a, cs, CanonicalSuit::D);
    let a = four_step(a, cs, 4);
    let a = four_step(a, cs, 3);
    let a = four_step(a, cs, 2);
    let a = four_step(a, cs, 1);
    let a = four_step(a, cs, 0);
    high_section(a, cs).push(HandClass::Garbage)
}


fn ranks_vec(cs: &[Card]) -> (r: Vec<Rank>)
    ensures
        r@ == ranks_of(cs@),
{
    let mut r: Vec<Rank> = Vec::new();
    let mut i: usize = 0;
    while i < cs.len()
        invariant
            0 <= i <= cs@.len(),
            r@ == ranks_of(cs@).take(i as int),
        decreases cs@.len() - i,
    {
        r.push(cs[i].rank);
        proof {
            assert(r@ =~= ranks_of(cs@).take(i as int + 1));
        }
        i = i + 1;
    }
    assert(r@ =~= ranks_of(cs@));
    r
}

fn suited_cards(cs: &[Card], s: CanonicalSuit) -> (r: Vec<Card>)
    ensures
        r@ == suited_of(cs@, s),
{
    let mut r: Vec<Card> = Vec::new();
    let mut i: usize = 0;
    while i < cs.len()
        invariant
            0 <= i <= cs@.len(),
            r@ == suited_of(cs@.take(i as int), s),
        decreases cs@.len() - i,
    {
        proof {
            assert(cs@.take(i as int + 1).drop_last() =~= cs@.take(i as int));
        }
        if cs[i].suit == s {
            r.push(cs[i]);
        }
        i = i + 1;
    }
    assert(cs@.take(cs@.len() as int) =~= cs@);
    r
}

fn four_suited_into(acc: &mut Vec<HandClass>, sc: &Vec<Card>)
    ensures
        final(acc)@ == four_suited(old(acc)@, sc@),
{
    if sc.len() != 4 {
        return;
    }
    let rs = ranks_vec(sc.as_slice());
    let sp = span_of(rs.as_slice());
    let ace_low = has_value(rs.as_slice(), 2) && has_value(rs.as_slice(), 3) && has_value(rs.as_slice(), 4)
        && has_value(rs.as_slice(), 14);
    if sp.hi - sp.lo <= 4 || ace_low {
        if sp.lo >= 10 && sp.hi <= 14 {
            acc.push(HandClass::FourToRoyalFlush);
        } else {
            proof {
                let vs = values_of(rs@);
                if within(vs, 10, 14) {
                    assert(contains_value(vs, sp.lo as int));
                    assert(contains_value(vs, sp.hi as int));
                    let a = choose|a: int| 0 <= a < vs.len() && vs[a] == sp.lo;
                    let b = choose|b: int| 0 <= b < vs.len() && vs[b] == sp.hi;
                }
            }
            acc.push(HandClass::FourToStraightFlush);
        }
    } else {
        acc.push(HandClass::FourToFlush);
    }
}


fn triple_into(acc: &mut Vec<HandClass>, sc: &Vec<Card>, t: &Vec<u8>)
    requires
        t@.len() == 3,
        forall|i: int| 0 <= i < 3 ==> (#[trigger] t@[i]) < sc@.len(),
    ensures
        final(acc)@ == triple_step(old(acc)@, sc@, t@),
{
    let rs: Vec<Rank> = vec![sc[t[0] as usize].rank, sc[t[1] as usize].rank, sc[t[2] as usize].rank];
    assert(rs@ =~= triple_ranks(sc@, t@));
    let sp = span_of(rs.as_slice());
    if sp.highs == 3 || !sp.distinct {
        return;
    }
    match sf_draw_gaps_and_highs(rs.as_slice()) {
        Some((g, h)) => {
            match sf_draw_type(g, h, rs.as_slice()) {
                Some(k) => {
                    if k == 1 {
                        push_unlisted(acc, true, HandClass::ThreeToSFType1);
                    } else if k == 2 {
                        push_unlisted(acc, true, HandClass::ThreeToSFType2);
                    } else {
                        push_unlisted(acc, true, HandClass::ThreeToSFType3);
                    }
                },
                None => {},
            }
        },
        None => {},
    }
}

fn triples_into(acc: &mut Vec<HandClass>, sc: &Vec<Card>)
    requires
        sc@.len() <= 5,
    ensures
        final(acc)@ == triples_fold(old(acc)@, sc@, combos(positions(sc@.len()), 3)),
{
    let mut pos: Vec<u8> = Vec::new();
    let mut i: u8 = 0;
    while (i as usize) < sc.len()
        invariant
            sc@.len() <= 5,
            i <= sc@.len(),
            pos@ == positions(i as nat),
        decreases sc@.len() - i,
    {
        pos.push(i);
        i = i + 1;
        assert(pos@ =~= positions(i as nat));
    }
    let ts = combinations(&pos, 3);
    let ghost tv = combos(positions(sc@.len()), 3);
    proof {
        lemma_combos_items(positions(sc@.len()), 3);
    }
    let ghost start = acc@;
    let mut j: usize = 0;
    while j < ts.len()
        invariant
            0 <= j <= ts@.len(),
            ts.deep_view() == tv,
            ts@.len() == tv.len(),
            tv == combos(positions(sc@.len()), 3),
            forall|a: int|
                0 <= a < tv.len() ==> (#[trigger] tv[a]).len() == 3 && forall|i: int|
                    0 <= i < 3 ==> positions(sc@.len()).contains(#[trigger] tv[a][i]),
            acc@ == triples_fold(start, sc@, tv.take(j as int)),
        decreases ts@.len() - j,
    {
        let t = &ts[j];
        proof {
            assert(t@ == tv[j as int]);
            assert forall|i: int| 0 <= i < 3 implies (#[trigger] t@[i]) < sc@.len() by {
                assert(positions(sc@.len()).contains(tv[j as int][i]));
                let x = choose|x: int| 0 <= x < sc@.len() && positions(sc@.len())[x] == tv[j as int][i];
            }
            assert(tv.take(j as int + 1).drop_last() =~= tv.take(j as int));
        }
        triple_into(acc, sc, t);
        j = j + 1;
    }
    assert(tv.take(tv.len() as int) =~= tv);
}


fn suited_pairs_into(acc: &mut Vec<HandClass>, sc: &Vec<Card>)
    ensures
        final(acc)@ == suited_pairs(old(acc)@, sc@),
{
    if sc.len() < 2 {
        return;
    }
    let rs = ranks_vec(sc.as_slice());
    let t = has_value(rs.as_slice(), 10);
    let j = has_value(rs.as_slice(), 11);
    let q = has_value(rs.as_slice(), 12);
    let k = has_value(rs.as_slice(), 13);
    let a = has_value(rs.as_slice(), 14);
    push_when(acc, q && j, HandClass::SuitedQJ);
    push_when(acc, k && q, HandClass::SuitedKQOrKJ);
    push_unlisted(acc, k && j, HandClass::SuitedKQOrKJ);
    push_when(acc, a && k, HandClass::SuitedAKAQAJ);
    push_unlisted(acc, a && q, HandClass::SuitedAKAQAJ);
    push_unlisted(acc, a && j, HandClass::SuitedAKAQAJ);
    push_when(acc, t && j, HandClass::SuitedTJ);
    push_when(acc, t && q, HandClass::SuitedTQ);
    push_when(acc, t && k, HandClass::SuitedTK);
}

fn suit_section_into(acc: &mut Vec<HandClass>, cs: &[Card], s: CanonicalSuit)
    requires
        cs@.len() == 5,
    ensures
        final(acc)@ == suit_section(old(acc)@, cs@, s),
{
    let sc = suited_cards(cs, s);
    proof {
        lemma_suited_len(cs@, s);
    }
    four_suited_into(acc, &sc);
    if sc.len() >= 3 {
        let rs = ranks_vec(sc.as_slice());
        let sp = span_of(rs.as_slice());
        push_when(acc, sp.highs >= 3, HandClass::ThreeToRoyalFlush);
    }
    triples_into(acc, &sc);
    suited_pairs_into(acc, &sc);
}

proof fn lemma_suited_len(cs: Seq<Card>, s: CanonicalSuit)
    ensures
        suited_of(cs, s).len() <= cs.len(),
    decreases cs.len(),
{
    if cs.len() > 0 {
        lemma_suited_len(cs.drop_last(), s);
    }
}

fn four_step_into(acc: &mut Vec<HandClass>, cs: &[Card], skip: usize)
    requires
        cs@.len() == 5,
        skip < 5,
    ensures
        final(acc)@ == four_step(old(acc)@, cs@, skip as int),
{
    let mut rs: Vec<Rank> = Vec::new();
    let mut i: usize = 0;
    let ghost rest = cs@.remove(skip as int);
    while i < 5
        invariant
            0 <= i <= 5,
            cs@.len() == 5,
            skip < 5,
            rest == cs@.remove(skip as int),
            rs@ == ranks_of(rest).take(if i <= skip { i as int } else { i as int - 1 }),
        decreases 5 - i,
    {
        if i != skip {
            rs.push(cs[i].rank);
            proof {
                let n = if i < skip { i as int } else { i as int - 1 };
                assert(rest[n] == cs@[i as int]);
                assert(rs@ =~= ranks_of(rest).take(n + 1));
            }
        }
        i = i + 1;
    }
    assert(rs@ =~= ranks_of(rest));
    match is_outside_straight_draw(rs.as_slice()) {
        Some(h) => push_unlisted(acc, h <= 2, HandClass::FourToOutsideStraight),
        None => {},
    }
    match is_inside_straight_draw(rs.as_slice()) {
        Some(h) => {
            if h == 4 {
                push_unlisted(acc, true, HandClass::FourToInsideStraight4High);
            } else {
                push_unlisted(acc, h == 3, HandClass::FourToInsideStraight3High);
            }
        },
        None => {},
    }
}

fn is_mixed(cs: &[Card], lo: u8, hi: u8) -> (b: bool)
    ensures
        b == mixed(cs@, lo as int, hi as int),
{
    let mut i: usize = 0;
    while i < cs.len()
        invariant
            0 <= i <= cs@.len(),
            forall|x: int, y: int|
                0 <= x < i && 0 <= y < cs@.len() && lo <= rank_value(#[trigger] cs@[x].rank) <= hi && lo
                    <= rank_value(#[trigger] cs@[y].rank) <= hi ==> cs@[x].suit == cs@[y].suit,
        decreases cs@.len() - i,
    {
        let mut j: usize = 0;
        while j < cs.len()
            invariant
                0 <= i < cs@.len(),
                0 <= j <= cs@.len(),
                forall|x: int, y: int|
                    0 <= x < i && 0 <= y < cs@.len() && lo <= rank_value(#[trigger] cs@[x].rank) <= hi && lo
                        <= rank_value(#[trigger] cs@[y].rank) <= hi ==> cs@[x].suit == cs@[y].suit,
                forall|y: int|
                    0 <= y < j && lo <= rank_value(cs@[i as int].rank) <= hi && lo <= rank_value(#[trigger] cs@[y].rank)
                        <= hi ==> cs@[i as int].suit == cs@[y].suit,
            decreases cs@.len() - j,
        {
            let vi = cs[i].rank.value();
            let vj = cs[j].rank.value();
            if lo <= vi && vi <= hi && lo <= vj && vj <= hi && cs[i].suit != cs[j].suit {
                assert(lo <= rank_value(cs@[i as int].rank) <= hi && lo <= rank_value(cs@[j as int].rank) <= hi);
                return true;
            }
            j = j + 1;
        }
        i = i + 1;
    }
    false
}

fn high_section_into(acc: &mut Vec<HandClass>, cs: &[Card])
    ensures
        final(acc)@ == high_section(old(acc)@, cs@),
{
    let rs = ranks_vec(cs);
    let t = has_value(rs.as_slice(), 10);
    let j = has_value(rs.as_slice(), 11);
    let q = has_value(rs.as_slice(), 12);
    let k = has_value(rs.as_slice(), 13);
    let a = has_value(rs.as_slice(), 14);
    push_when(acc, t && j && q && k && is_mixed(cs, 10, 13), HandClass::UnsuitedTJQK);
    push_when(acc, j && q && k && is_mixed(cs, 11, 13), HandClass::UnsuitedJQK);
    push_when(acc, j && q && is_mixed(cs, 11, 12), HandClass::UnsuitedJQ);
    push_when(acc, k && (j || q) && !a && is_mixed(cs, 11, 13), HandClass::TwoUnsuitedHighKing);
    push_when(acc, a && (j || q || k) && is_mixed(cs, 11, 14), HandClass::TwoUnsuitedHighAce);
    push_when(acc, j, HandClass::JOnly);
    push_when(acc, q, HandClass::QOnly);
    push_when(acc, k, HandClass::KOnly);
    push_when(acc, a, HandClass::AOnly);
}

/// Every strategy class of a five-card hand, in the order of discovery.
pub fn get_hand_classes(hand: &Hand) -> (r: Vec<HandClass>)
    requires
        hand.cards@.len() == 5,
    ensures
        r@ == hand_classes(hand.cards@),
{
    let cs = hand.cards.as_slice();
    let mut acc: Vec<HandClass> = Vec::new();
    made_into(cs, &mut acc);
    suit_section_into(&mut acc, cs, CanonicalSuit::A);
    suit_section_into(&mut acc, cs, CanonicalSuit::B);
    suit_section_into(&mut acc, cs, CanonicalSuit::C);
    suit_section_into(&mut acc, cs, CanonicalSuit::D);
    four_step_into(&mut acc, cs, 4);
    four_step_into(&mut acc, cs, 3);
    four_step_into(&mut acc, cs, 2);
    four_step_into(&mut acc, cs, 1);
    four_step_into(&mut acc, cs, 0);
    high_section_into(&mut acc, cs);
    acc.push(HandClass::Garbage);
    acc
}


/// Sort position of a card: by rank, then by suit.
pub open spec fn card_key(c: Card) -> int {
    rank_value(c.rank) * 4 + suit_index(c.suit)
}

/// `s` with `x` inserted before its first card that does not sort below `x`.
pub open spec fn insert_card(s: Seq<Card>, x: Card) -> Seq<Card>
    decreases s.len(),
{
    if s.len() == 0 {
        seq![x]
    } else if card_key(x) <= card_key(s[0]) {
        seq![x] + s
    } else {
        seq![s[0]] + insert_card(s.drop_first(), x)
    }
}

/// The cards sorted by rank, then suit (stable for equal cards).
pub open spec fn sort_by_rank(cs: Seq<Card>) -> Seq<Card>
    decreases cs.len(),
{
    if cs.len() == 0 {
        Seq::empty()
    } else {
        insert_card(sort_by_rank(cs.drop_last()), cs.last())
    }
}

proof fn lemma_insert_card_at(s: Seq<Card>, x: Card, p: int)
    requires
        0 <= p <= s.len(),
        forall|i: int| 0 <= i < p ==> card_key(x) > card_key(#[trigger] s[i]),
        p < s.len() ==> card_key(x) <= card_key(s[p]),
    ensures
        insert_card(s, x) == s.insert(p, x),
    decreases s.len(),
{
    if s.len() == 0 || card_key(x) <= card_key(s[0]) {
        assert(insert_card(s, x) =~= s.insert(p, x));
    } else {
        let t = s.drop_first();
        assert forall|i: int| 0 <= i < p - 1 implies card_key(x) > card_key(#[trigger] t[i]) by {
            assert(t[i] == s[i + 1]);
        }
        lemma_insert_card_at(t, x, p - 1);
        assert(insert_card(s, x) =~= s.insert(p, x));
    }
}

fn card_key_of(c: &Card) -> (k: u8)
    ensures
        k as int == card_key(*c),
{
    let s: u8 = match c.suit {
        CanonicalSuit::A => 0,
        CanonicalSuit::B => 1,
        CanonicalSuit::C => 2,
        CanonicalSuit::D => 3,
    };
    c.rank.value() * 4 + s
}

impl Hand {
    /// A hand with its cards sorted by rank, then suit.
    pub fn new(cards: Vec<Card>) -> (h: Hand)
        ensures
            h.cards@ == sort_by_rank(cards@),
    {
        let mut sorted: Vec<Card> = Vec::new();
        let mut i: usize = 0;
        while i < cards.len()
            invariant
                0 <= i <= cards@.len(),
                sorted@ == sort_by_rank(cards@.take(i as int)),
            decreases cards@.len() - i,
        {
            let x = cards[i];
            let kx = card_key_of(&x);
            let mut p: usize = 0;
            while p < sorted.len() && kx > card_key_of(&sorted[p])
                invariant
                    0 <= p <= sorted@.len(),
                    kx as int == card_key(x),
                    forall|k: int| 0 <= k < p ==> card_key(x) > card_key(#[trigger] sorted@[k]),
                decreases sorted@.len() - p,
            {
                p = p + 1;
            }
            proof {
                lemma_insert_card_at(sorted@, x, p as int);
                assert(cards@.take(i as int + 1).drop_last() =~= cards@.take(i as int));
            }
            sorted.insert(p, x);
            i = i + 1;
        }
        assert(cards@.take(cards@.len() as int) =~= cards@);
        Hand { cards: sorted }
    }

    pub fn ranks(&self) -> (r: Vec<Rank>)
        ensures
            r@ == ranks_of(self.cards@),
    {
        ranks_vec(self.cards.as_slice())
    }

    /// The cards of suit `suit`, in hand order.
    pub fn cards_of_suit(&self, suit: CanonicalSuit) -> (r: Vec<Card>)
        ensures
            r@ == suited_of(self.cards@, suit),
    {
        suited_cards(self.cards.as_slice(), suit)
    }
}


pub open spec fn pair_key(x: (int, int)) -> int {
    x.0 * 8 + x.1
}

pub open spec fn insert_pair(s: Seq<(int, int)>, x: (int, int)) -> Seq<(int, int)>
    decreases s.len(),
{
    if s.len() == 0 {
        seq![x]
    } else if pair_key(x) <= pair_key(s[0]) {
        seq![x] + s
    } else {
        seq![s[0]] + insert_pair(s.drop_first(), x)
    }
}

pub open spec fn sort_pairs(s: Seq<(int, int)>) -> Seq<(int, int)>
    decreases s.len(),
{
    if s.len() == 0 {
        Seq::empty()
    } else {
        insert_pair(sort_pairs(s.drop_last()), s.last())
    }
}

/// Deck index of a card: four per rank, deuces first.
pub open spec fn card_index(c: Card) -> u8 {
    ((rank_value(c.rank) - 2) * 4 + suit_index(c.suit)) as u8
}

pub open spec fn indices_of(cs: Seq<Card>) -> Seq<u8> {
    cs.map_values(|c: Card| card_index(c))
}

/// Rank value and suit label of a key value.
pub open spec fn value_pair(v: int) -> (int, int) {
    (v / 5 + 2, v % 5)
}

/// Canonical form of a hand: the (rank, suit label) pairs of its canonical
/// key, in ascending order. Every relabelling of the suits has the same form.
pub open spec fn canonical_pairs(cs: Seq<Card>) -> Seq<(int, int)> {
    sort_pairs(digits(key_code(indices_of(cs)), cs.len()).map_values(|v: int| value_pair(v)))
}

pub open spec fn suit_at(i: int) -> CanonicalSuit {
    if i == 0 {
        CanonicalSuit::A
    } else if i == 1 {
        CanonicalSuit::B
    } else if i == 2 {
        CanonicalSuit::C
    } else {
        CanonicalSuit::D
    }
}

/// The hand with every suit `s` replaced by suit `p[s]`.
pub open spec fn relabel_cards(p: Seq<int>, cs: Seq<Card>) -> Seq<Card> {
    cs.map_values(|c: Card| Card { rank: c.rank, suit: suit_at(p[suit_index(c.suit)]) })
}

/// Relabelling the suits of a hand leaves its canonical form unchanged.
pub proof fn lemma_canonicalize_invariant(p: Seq<int>, cs: Seq<Card>)
    requires
        is_perm(p),
        cs.len() == 5,
    ensures
        canonical_pairs(relabel_cards(p, cs)) == canonical_pairs(cs),
{
    let rc = relabel_cards(p, cs);
    assert forall|i: int| 0 <= i < 5 implies #[trigger] indices_of(rc)[i] == permute_suits(p, indices_of(cs))[i] by {
        let c = cs[i];
        let v = rank_value(c.rank) - 2;
        let si = suit_index(c.suit);
        assert(0 <= p[si] < 4);
        assert(suit_index(suit_at(p[si])) == p[si]);
        let x = v * 4 + si;
        assert(x / 4 == v && x % 4 == si);
    }
    assert(indices_of(rc) =~= permute_suits(p, indices_of(cs)));
    lemma_key_invariant(p, indices_of(cs));
}

pub open spec fn pairs_view(v: Seq<(u8, u8)>) -> Seq<(int, int)> {
    v.map_values(|p: (u8, u8)| (p.0 as int, p.1 as int))
}

proof fn lemma_insert_pair_at(s: Seq<(int, int)>, x: (int, int), p: int)
    requires
        0 <= p <= s.len(),
        forall|i: int| 0 <= i < p ==> pair_key(x) > pair_key(#[trigger] s[i]),
        p < s.len() ==> pair_key(x) <= pair_key(s[p]),
    ensures
        insert_pair(s, x) == s.insert(p, x),
    decreases s.len(),
{
    if s.len() == 0 || pair_key(x) <= pair_key(s[0]) {
        assert(insert_pair(s, x) =~= s.insert(p, x));
    } else {
        let t = s.drop_first();
        assert forall|i: int| 0 <= i < p - 1 implies pair_key(x) > pair_key(#[trigger] t[i]) by {
            assert(t[i] == s[i + 1]);
        }
        lemma_insert_pair_at(t, x, p - 1);
        assert(insert_pair(s, x) =~= s.insert(p, x));
    }
}

proof fn lemma_digits_len(m: int, n: nat)
    ensures
        digits(m, n).len() == n,
    decreases n,
{
    if n > 0 {
        lemma_digits_len(m / 70, (n - 1) as nat);
    }
}

fn digits_exec(m: u64, n: usize) -> (r: Vec<u8>)
    requires
        n <= 5,
    ensures
        r@.len() == n,
        forall|i: int| 0 <= i < n ==> #[trigger] r@[i] as int == digits(m as int, n as nat)[i],
    decreases n,
{
    if n == 0 {
        Vec::new()
    } else {
        let mut r = digits_exec(m / 70, n - 1);
        r.push((m % 70) as u8);
        proof {
            lemma_digits_len((m / 70) as int, (n - 1) as nat);
            let d = digits((m / 70) as int, (n - 1) as nat);
            assert(digits(m as int, n as nat) == d.push((m % 70) as int));
            assert forall|i: int| 0 <= i < n implies #[trigger] r@[i] as int == digits(m as int, n as nat)[i] by {
                if i < n - 1 {
                    assert(r@[i] as int == d[i]);
                }
            }
        }
        r
    }
}

/// The canonical form of a five-card hand.
pub fn canonicalize(cards: &[Card]) -> (r: Vec<(u8, u8)>)
    requires
        cards@.len() == 5,
    ensures
        pairs_view(r@) == canonical_pairs(cards@),
{
    let mut idx: Vec<u8> = Vec::new();
    let mut i: usize = 0;
    while i < 5
        invariant
            0 <= i <= 5,
            cards@.len() == 5,
            idx@ == indices_of(cards@).take(i as int),
        decreases 5 - i,
    {
        let c = cards[i];
        let s: u8 = match c.suit {
            CanonicalSuit::A => 0,
            CanonicalSuit::B => 1,
            CanonicalSuit::C => 2,
            CanonicalSuit::D => 3,
        };
        idx.push((c.rank.value() - 2) * 4 + s);
        i = i + 1;
        assert(idx@ =~= indices_of(cards@).take(i as int));
    }
    assert(idx@ =~= indices_of(cards@));
    let (_, code) = canonical_parts(idx.as_slice());
    let ds = digits_exec(code, 5);
    let ghost vs = digits(code as int, 5).map_values(|v: int| value_pair(v));
    proof {
        lemma_key_digits(idx@);
    }
    let mut out: Vec<(u8, u8)> = Vec::new();
    let mut i: usize = 0;
    while i < 5
        invariant
            0 <= i <= 5,
            ds@.len() == 5,
            forall|k: int| 0 <= k < 5 ==> #[trigger] ds@[k] as int == digits(code as int, 5)[k],
            forall|k: int| 0 <= k < 5 ==> value_ok(#[trigger] digits(code as int, 5)[k]),
            digits(code as int, 5).len() == 5,
            vs == digits(code as int, 5).map_values(|v: int| value_pair(v)),
            pairs_view(out@) == sort_pairs(vs.take(i as int)),
            forall|k: int| 0 <= k < out@.len() ==> (#[trigger] out@[k]).1 <= 4 && out@[k].0 <= 15,
            out@.len() == i,
        decreases 5 - i,
    {
        let d = ds[i];
        assert(value_ok(d as int));
        let x: (u8, u8) = (d / 5 + 2, d % 5);
        assert((x.0 as int, x.1 as int) == vs[i as int]);
        let mut p: usize = 0;
        while p < out.len() && (x.0 as u16) * 8 + (x.1 as u16) > (out[p].0 as u16) * 8 + (out[p].1 as u16)
            invariant
                0 <= p <= out@.len(),
                x.0 <= 15 && x.1 <= 4,
                forall|k: int| 0 <= k < out@.len() ==> (#[trigger] out@[k]).1 <= 4 && out@[k].0 <= 15,
                forall|k: int| 0 <= k < p ==> pair_key((x.0 as int, x.1 as int)) > pair_key(#[trigger] pairs_view(out@)[k]),
            decreases out@.len() - p,
        {
            p = p + 1;
        }
        proof {
            lemma_insert_pair_at(pairs_view(out@), (x.0 as int, x.1 as int), p as int);
            assert(vs.take(i as int + 1).drop_last() =~= vs.take(i as int));
        }
        out.insert(p, x);
        proof {
            assert(pairs_view(out@) =~= sort_pairs(vs.take(i as int + 1)));
        }
        i = i + 1;
    }
    assert(vs.take(5) =~= vs);
    out
}

} // verus!
