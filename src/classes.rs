//! Ranks and suits of canonical hands as the strategy-class analysis names
//! them, and the rank-pattern tests that the class analysis is built from.
use vstd::prelude::*;

verus! {

#[derive(Clone, Copy, Debug, PartialEq, Eq, Hash, PartialOrd, Ord, Structural)]
pub enum Rank {
    Two,
    Three,
    Four,
    Five,
    Six,
    Seven,
    Eight,
    Nine,
    Ten,
    Jack,
    Queen,
    King,
    Ace,
}

/// Face value of a rank: 2 for a deuce up to 14 for an ace.
pub open spec fn rank_value(r: Rank) -> int {
    match r {
        Rank::Two => 2,
        Rank::Three => 3,
        Rank::Four => 4,
        Rank::Five => 5,
        Rank::Six => 6,
        Rank::Seven => 7,
        Rank::Eight => 8,
        Rank::Nine => 9,
        Rank::Ten => 10,
        Rank::Jack => 11,
        Rank::Queen => 12,
        Rank::King => 13,
        Rank::Ace => 14,
    }
}

pub open spec fn rank_is_high(r: Rank) -> bool {
    rank_value(r) >= 10
}

impl Rank {
    /// The thirteen ranks, deuce first.
    pub fn all() -> (r: Vec<Rank>)
        ensures
            r@.len() == 13,
            forall|i: int| 0 <= i < 13 ==> rank_value(#[trigger] r@[i]) == i + 2,
    {
        vec![
            Rank::Two,
            Rank::Three,
            Rank::Four,
            Rank::Five,
            Rank::Six,
            Rank::Seven,
            Rank::Eight,
            Rank::Nine,
            Rank::Ten,
            Rank::Jack,
            Rank::Queen,
            Rank::King,
            Rank::Ace,
        ]
    }

    /// Ten through ace.
    pub fn is_high(&self) -> (b: bool)
        ensures
            b == rank_is_high(*self),
    {
        match self {
            Rank::Ten | Rank::Jack | Rank::Queen | Rank::King | Rank::Ace => true,
            _ => false,
        }
    }

    pub fn value(&self) -> (v: u8)
        ensures
            v as int == rank_value(*self),
    {
        match self {
            Rank::Two => 2,
            Rank::Three => 3,
            Rank::Four => 4,
            Rank::Five => 5,
            Rank::Six => 6,
            Rank::Seven => 7,
            Rank::Eight => 8,
            Rank::Nine => 9,
            Rank::Ten => 10,
            Rank::Jack => 11,
            Rank::Queen => 12,
            Rank::King => 13,
            Rank::Ace => 14,
        }
    }

    pub fn to_char(&self) -> (c: char)
        ensures
            c == crate::card::rank_ascii(rank_value(*self) - 2) as char,
    {
        match self {
            Rank::Two => '2',
            Rank::Three => '3',
            Rank::Four => '4',
            Rank::Five => '5',
            Rank::Six => '6',
            Rank::Seven => '7',
            Rank::Eight => '8',
            Rank::Nine => '9',
            Rank::Ten => 'T',
            Rank::Jack => 'J',
            Rank::Queen => 'Q',
            Rank::King => 'K',
            Rank::Ace => 'A',
        }
    }
}

/// Suit labels of a canonical hand, in order of first appearance.
#[derive(Clone, Copy, Debug, PartialEq, Eq, Hash, PartialOrd, Ord, Structural)]
pub enum CanonicalSuit {
    A,
    B,
    C,
    D,
}

pub open spec fn suit_index(s: CanonicalSuit) -> int {
    match s {
        CanonicalSuit::A => 0,
        CanonicalSuit::B => 1,
        CanonicalSuit::C => 2,
        CanonicalSuit::D => 3,
    }
}

impl CanonicalSuit {
    pub fn to_char(&self) -> (c: char)
        ensures
            c as int == 'a' as int + suit_index(*self),
    {
        match self {
            CanonicalSuit::A => 'a',
            CanonicalSuit::B => 'b',
            CanonicalSuit::C => 'c',
            CanonicalSuit::D => 'd',
        }
    }
}

pub open spec fn values_of(ranks: Seq<Rank>) -> Seq<int> {
    ranks.map_values(|r: Rank| rank_value(r))
}

pub open spec fn distinct(vs: Seq<int>) -> bool {
    forall|i: int, j: int| 0 <= i < vs.len() && 0 <= j < vs.len() && i != j ==> #[trigger] vs[i] != #[trigger] vs[j]
}

/// Every value lies in `lo..=hi`.
pub open spec fn within(vs: Seq<int>, lo: int, hi: int) -> bool {
    forall|i: int| 0 <= i < vs.len() ==> lo <= #[trigger] vs[i] <= hi
}

pub open spec fn min_of(vs: Seq<int>) -> int
    decreases vs.len(),
{
    if vs.len() <= 1 {
        vs[0]
    } else if vs.last() < min_of(vs.drop_last()) {
        vs.last()
    } else {
        min_of(vs.drop_last())
    }
}

pub open spec fn max_of(vs: Seq<int>) -> int
    decreases vs.len(),
{
    if vs.len() <= 1 {
        vs[0]
    } else if vs.last() > max_of(vs.drop_last()) {
        vs.last()
    } else {
        max_of(vs.drop_last())
    }
}

pub open spec fn contains_value(vs: Seq<int>, v: int) -> bool {
    exists|i: int| 0 <= i < vs.len() && vs[i] == v
}

/// Number of high ranks.
pub open spec fn high_count(ranks: Seq<Rank>) -> int
    decreases ranks.len(),
{
    if ranks.len() == 0 {
        0
    } else {
        high_count(ranks.drop_last()) + if rank_is_high(ranks.last()) {
            1int
        } else {
            0
        }
    }
}

/// Every value lies in `lo..=lo + 4`.
pub open spec fn in_window(vs: Seq<int>, lo: int) -> bool {
    within(vs, lo, lo + 4)
}

pub proof fn lemma_high_count_range(ranks: Seq<Rank>)
    ensures
        0 <= high_count(ranks) <= ranks.len(),
    decreases ranks.len(),
{
    if ranks.len() > 0 {
        lemma_high_count_range(ranks.drop_last());
    }
}

/// Five distinct ranks that are consecutive, or the wheel A-2-3-4-5.
pub open spec fn straight_ranks(ranks: Seq<Rank>) -> bool {
    let vs = values_of(ranks);
    ranks.len() == 5 && distinct(vs) && ((exists|lo: int| #[trigger] in_window(vs, lo)) || (forall|i: int|
        0 <= i < 5 ==> (2 <= #[trigger] vs[i] <= 5 || vs[i] == 14)))
}

pub(crate) struct Span {
    pub(crate) lo: u8,
    pub(crate) hi: u8,
    pub(crate) distinct: bool,
    pub(crate) highs: usize,
}

pub(crate) fn span_of(ranks: &[Rank]) -> (s: Span)
    requires
        1 <= ranks@.len() <= 5,
    ensures
        contains_value(values_of(ranks@), s.lo as int),
        contains_value(values_of(ranks@), s.hi as int),
        within(values_of(ranks@), s.lo as int, s.hi as int),
        s.distinct == distinct(values_of(ranks@)),
        s.highs as int == high_count(ranks@),
        s.lo as int == min_of(values_of(ranks@)),
        s.hi as int == max_of(values_of(ranks@)),
{
    let ghost vs = values_of(ranks@);
    let mut lo: u8 = ranks[0].value();
    let mut hi: u8 = lo;
    let mut dist = true;
    let mut highs: usize = 0;
    let mut i: usize = 0;
    assert(vs.len() == ranks@.len() && vs[0] == lo as int);
    while i < ranks.len()
        invariant
            1 <= ranks@.len() <= 5,
            0 <= i <= ranks@.len(),
            vs == values_of(ranks@),
            contains_value(vs, lo as int),
            contains_value(vs, hi as int),
            forall|k: int| 0 <= k < i ==> lo <= #[trigger] vs[k] <= hi,
            dist == (forall|a: int, b: int| 0 <= a < i && 0 <= b < i && a != b ==> #[trigger] vs[a] != #[trigger] vs[b]),
            highs as int == high_count(ranks@.take(i as int)),
            highs <= i,
            i == 0 ==> lo == vs[0] && hi == vs[0],
            i > 0 ==> lo == min_of(vs.take(i as int)) && hi == max_of(vs.take(i as int)),
        decreases ranks@.len() - i,
    {
        let v = ranks[i].value();
        assert(vs[i as int] == v);
        let mut j: usize = 0;
        let mut fresh = true;
        while j < i
            invariant
                0 <= j <= i < ranks@.len(),
                vs == values_of(ranks@),
                v == vs[i as int],
                fresh == (forall|b: int| 0 <= b < j ==> #[trigger] vs[b] != v),
            decreases i - j,
        {
            let u = ranks[j].value();
            assert(vs[j as int] == u);
            if u == v {
                fresh = false;
            }
            j = j + 1;
        }
        if !fresh {
            dist = false;
        }
        if v < lo {
            lo = v;
        }
        if v > hi {
            hi = v;
        }
        if ranks[i].is_high() {
            highs = highs + 1;
        }
        proof {
            assert(ranks@.take(i as int + 1).drop_last() =~= ranks@.take(i as int));
            assert(vs.take(i as int + 1).drop_last() =~= vs.take(i as int));
        }
        i = i + 1;
    }
    proof {
        assert(ranks@.take(ranks@.len() as int) =~= ranks@);
        assert(vs.take(vs.len() as int) =~= vs);
    }
    Span { lo, hi, distinct: dist, highs }
}

/// Whether five ranks form a straight.
pub fn is_straight_ranks(ranks: &[Rank]) -> (b: bool)
    ensures
        b == straight_ranks(ranks@),
{
    if ranks.len() != 5 {
        return false;
    }
    let ghost vs = values_of(ranks@);
    let s = span_of(ranks);
    if !s.distinct {
        return false;
    }
    if s.hi - s.lo <= 4 {
        assert(in_window(vs, s.lo as int));
        return true;
    }
    let mut i: usize = 0;
    while i < 5
        invariant
            0 <= i <= 5,
            ranks@.len() == 5,
            vs == values_of(ranks@),
            contains_value(vs, s.lo as int),
            contains_value(vs, s.hi as int),
            within(vs, s.lo as int, s.hi as int),
            s.hi > s.lo + 4,
            forall|k: int| 0 <= k < i ==> (2 <= #[trigger] vs[k] <= 5 || vs[k] == 14),
        decreases 5 - i,
    {
        let v = ranks[i].value();
        if !(2 <= v && v <= 5 || v == 14) {
            proof {
                assert(!(2 <= vs[i as int] <= 5 || vs[i as int] == 14));
                assert forall|lo: int| !#[trigger] in_window(vs, lo) by {
                    if in_window(vs, lo) {
                        assert(contains_value(vs, s.lo as int) && contains_value(vs, s.hi as int));
                        let a = choose|a: int| 0 <= a < vs.len() && vs[a] == s.lo;
                        let c = choose|c: int| 0 <= c < vs.len() && vs[c] == s.hi;
                        assert(lo <= vs[a] && vs[c] <= lo + 4);
                    }
                }
            }
            return false;
        }
        i = i + 1;
    }
    true
}


/// Four distinct ranks spanning exactly four consecutive values, without an
/// ace: the number of high ranks among them, else nothing.
pub open spec fn outside_draw(ranks: Seq<Rank>) -> Option<int> {
    let vs = values_of(ranks);
    if ranks.len() == 4 && distinct(vs) && max_of(vs) - min_of(vs) == 3 && !contains_value(vs, 14) {
        Some(high_count(ranks))
    } else {
        None
    }
}

pub(crate) fn has_value(ranks: &[Rank], v: u8) -> (b: bool)
    ensures
        b == contains_value(values_of(ranks@), v as int),
{
    let ghost vs = values_of(ranks@);
    let mut i: usize = 0;
    while i < ranks.len()
        invariant
            0 <= i <= ranks@.len(),
            vs == values_of(ranks@),
            forall|k: int| 0 <= k < i ==> #[trigger] vs[k] != v,
        decreases ranks@.len() - i,
    {
        let u = ranks[i].value();
        assert(vs[i as int] == u);
        if u == v {
            return true;
        }
        i = i + 1;
    }
    false
}

/// Four to an open-ended straight: the number of high ranks in it.
pub fn is_outside_straight_draw(ranks: &[Rank]) -> (r: Option<usize>)
    ensures
        match outside_draw(ranks@) {
            Some(h) => r == Some(h as usize) && 0 <= h <= 4,
            None => r is None,
        },
{
    if ranks.len() != 4 {
        return None;
    }
    proof {
        lemma_high_count_range(ranks@);
    }
    let s = span_of(ranks);
    if !s.distinct || s.hi - s.lo != 3 || has_value(ranks, 14) {
        return None;
    }
    Some(s.highs)
}

/// Four distinct ranks with one gap: A-2-3-4, a span of five values, or
/// four ranks from ten to ace including the ace: the number of high ranks.
pub open spec fn inside_draw(ranks: Seq<Rank>) -> Option<int> {
    let vs = values_of(ranks);
    if ranks.len() == 4 && distinct(vs) && ((contains_value(vs, 2) && contains_value(vs, 3)
        && contains_value(vs, 4) && contains_value(vs, 14)) || max_of(vs) - min_of(vs) == 4 || (
    max_of(vs) == 14 && min_of(vs) >= 10)) {
        Some(high_count(ranks))
    } else {
        None
    }
}

/// Four to an inside straight: the number of high ranks in it.
pub fn is_inside_straight_draw(ranks: &[Rank]) -> (r: Option<usize>)
    ensures
        match inside_draw(ranks@) {
            Some(h) => r == Some(h as usize) && 0 <= h <= 4,
            None => r is None,
        },
{
    if ranks.len() != 4 {
        return None;
    }
    proof {
        lemma_high_count_range(ranks@);
    }
    let s = span_of(ranks);
    if !s.distinct {
        return None;
    }
    if has_value(ranks, 2) && has_value(ranks, 3) && has_value(ranks, 4) && has_value(ranks, 14) {
        return Some(s.highs);
    }
    if s.hi - s.lo == 4 {
        return Some(s.highs);
    }
    if s.hi == 14 && s.lo >= 10 {
        return Some(s.highs);
    }
    None
}

/// Values with the ace counted as one.
pub open spec fn ace_low_values(vs: Seq<int>) -> Seq<int> {
    vs.map_values(|v: int| if v == 14 { 1int } else { v })
}

pub open spec fn has_low(vs: Seq<int>, bound: int) -> bool {
    exists|i: int| 0 <= i < vs.len() && #[trigger] vs[i] <= bound
}

/// Gaps and high cards of three suited ranks as a straight-flush draw: the
/// ace plays low when a five or lower is present and all fit under six.
pub open spec fn sf_gaps(ranks: Seq<Rank>) -> Option<(int, int)> {
    let vs = values_of(ranks);
    let lv = ace_low_values(vs);
    if ranks.len() != 3 {
        None
    } else if contains_value(vs, 14) && has_low(vs, 5) && max_of(lv) <= 5 {
        Some((max_of(lv) - min_of(lv) - 2, high_count(ranks)))
    } else if max_of(vs) - min_of(vs) > 4 {
        None
    } else {
        Some((max_of(vs) - min_of(vs) - 2, high_count(ranks)))
    }
}

proof fn lemma_min_max3(vs: Seq<int>)
    requires
        vs.len() == 3,
    ensures
        min_of(vs) == if vs[0] <= vs[1] && vs[0] <= vs[2] { vs[0] } else if vs[1] <= vs[2] { vs[1] } else { vs[2] },
        max_of(vs) == if vs[0] >= vs[1] && vs[0] >= vs[2] { vs[0] } else if vs[1] >= vs[2] { vs[1] } else { vs[2] },
{
    reveal_with_fuel(min_of, 3);
    reveal_with_fuel(max_of, 3);
    let d = vs.drop_last();
    assert(d.len() == 2 && d[0] == vs[0] && d.last() == vs[1]);
    assert(d.drop_last().len() == 1 && d.drop_last()[0] == vs[0]);
}

proof fn lemma_three_distinct_span(vs: Seq<int>)
    requires
        vs.len() == 3,
        distinct(vs),
    ensures
        max_of(vs) - min_of(vs) >= 2,
{
    assert(vs[0] != vs[1] && vs[1] != vs[2] && vs[0] != vs[2]);
    lemma_min_max3(vs);
}

fn low_span(ranks: &[Rank]) -> (r: (u8, u8, bool))
    requires
        ranks@.len() == 3,
    ensures
        r.0 as int == min_of(ace_low_values(values_of(ranks@))),
        r.1 as int == max_of(ace_low_values(values_of(ranks@))),
        r.2 == has_low(values_of(ranks@), 5),
{
    let ghost vs = values_of(ranks@);
    let ghost lv = ace_low_values(vs);
    let a = ranks[0].value();
    let b = ranks[1].value();
    let c = ranks[2].value();
    let la = if a == 14 { 1 } else { a };
    let lb = if b == 14 { 1 } else { b };
    let lc = if c == 14 { 1 } else { c };
    assert(lv[0] == la && lv[1] == lb && lv[2] == lc);
    proof {
        lemma_min_max3(lv);
    }
    let lo = if la <= lb && la <= lc { la } else if lb <= lc { lb } else { lc };
    let hi = if la >= lb && la >= lc { la } else if lb >= lc { lb } else { lc };
    let low = a <= 5 || b <= 5 || c <= 5;
    assert(vs[0] == a && vs[1] == b && vs[2] == c);
    (lo, hi, low)
}

/// Gaps and high cards of three suited ranks as a straight-flush draw.
pub fn sf_draw_gaps_and_highs(ranks: &[Rank]) -> (r: Option<(usize, usize)>)
    requires
        ranks@.len() == 3 ==> distinct(values_of(ranks@)),
    ensures
        match sf_gaps(ranks@) {
            Some(p) => r == Some((p.0 as usize, p.1 as usize)) && 0 <= p.0 <= 3 && 0 <= p.1 <= 3,
            None => r is None,
        },
{
    if ranks.len() != 3 {
        return None;
    }
    let ghost vs = values_of(ranks@);
    proof {
        lemma_high_count_range(ranks@);
    }
    let s = span_of(ranks);
    let ace = has_value(ranks, 14);
    let (llo, lhi, low) = low_span(ranks);
    if ace && low && lhi <= 5 {
        proof {
            assert(distinct(ace_low_values(vs))) by {
                assert forall|i: int, j: int| 0 <= i < 3 && 0 <= j < 3 && i != j implies
                    #[trigger] ace_low_values(vs)[i] != #[trigger] ace_low_values(vs)[j] by {
                    assert(vs[i] != vs[j]);
                    assert(vs[i] == 14 ==> vs[j] != 1);
                }
            }
            lemma_three_distinct_span(ace_low_values(vs));
        }
        return Some(((lhi - llo) as usize - 2, s.highs));
    }
    if s.hi - s.lo > 4 {
        return None;
    }
    proof {
        lemma_three_distinct_span(vs);
    }
    Some(((s.hi - s.lo) as usize - 2, s.highs))
}

pub open spec fn count_low_or_ace(vs: Seq<int>) -> int
    decreases vs.len(),
{
    if vs.len() == 0 {
        0
    } else {
        count_low_or_ace(vs.drop_last()) + if vs.last() <= 5 || vs.last() == 14 {
            1int
        } else {
            0
        }
    }
}

/// Type of a three-card straight-flush draw with `gaps` gaps and
/// `high_cards` high cards: 1 when the high cards cover the gaps; 2 for one
/// gap without high cards, two gaps with one, an ace-low draw, or 2-3-4;
/// 3 for two gaps without high cards.
pub open spec fn sf_type(gaps: int, high_cards: int, ranks: Seq<Rank>) -> Option<u8> {
    let vs = values_of(ranks);
    let ace_low = contains_value(vs, 14) && has_low(vs, 4) && count_low_or_ace(vs) == 3;
    let is_234 = vs.len() == 3 && contains_value(vs, 2) && contains_value(vs, 3) && contains_value(vs, 4);
    if high_cards >= gaps {
        Some(1u8)
    } else if (gaps == 1 && high_cards == 0) || (gaps == 2 && high_cards == 1) || ace_low || is_234 {
        Some(2u8)
    } else if gaps == 2 && high_cards == 0 {
        Some(3u8)
    } else {
        None
    }
}

pub fn sf_draw_type(gaps: usize, high_cards: usize, ranks: &[Rank]) -> (r: Option<u8>)
    ensures
        r == sf_type(gaps as int, high_cards as int, ranks@),
{
    let ghost vs = values_of(ranks@);
    let mut low = false;
    let mut n: usize = 0;
    let mut i: usize = 0;
    while i < ranks.len()
        invariant
            0 <= i <= ranks@.len(),
            vs == values_of(ranks@),
            low == has_low(vs.take(i as int), 4),
            n as int == count_low_or_ace(vs.take(i as int)),
            n <= i,
        decreases ranks@.len() - i,
    {
        let v = ranks[i].value();
        assert(vs[i as int] == v);
        assert(vs.take(i as int + 1).drop_last() =~= vs.take(i as int));
        if v <= 4 {
            low = true;
            assert(vs.take(i as int + 1)[i as int] == v);
        }
        if v <= 5 || v == 14 {
            n = n + 1;
        }
        proof {
            if !low {
                assert forall|k: int| 0 <= k < i + 1 implies !(#[trigger] vs.take(i as int + 1)[k] <= 4) by {
                    if k < i {
                        assert(vs.take(i as int + 1)[k] == vs.take(i as int)[k]);
                    }
                }
            } else if v > 4 {
                let k = choose|k: int| 0 <= k < i && #[trigger] vs.take(i as int)[k] <= 4;
                assert(vs.take(i as int + 1)[k] == vs.take(i as int)[k]);
            }
        }
        i = i + 1;
    }
    assert(vs.take(vs.len() as int) =~= vs);
    let ace_low = has_value(ranks, 14) && low && n == 3;
    let is_234 = ranks.len() == 3 && has_value(ranks, 2) && has_value(ranks, 3) && has_value(ranks, 4);
    if high_cards >= gaps {
        Some(1)
    } else if (gaps == 1 && high_cards == 0) || (gaps == 2 && high_cards == 1) || ace_low || is_234 {
        Some(2)
    } else if gaps == 2 && high_cards == 0 {
        Some(3)
    } else {
        None
    }
}

/// Strategy classes of a hand, best first.
#[derive(Clone, Copy, Debug, PartialEq, Eq, Hash, PartialOrd, Ord, Structural)]
pub enum HandClass {
    FourOfAKind,
    FourToRoyalFlush,
    FullHouse,
    Flush,
    ThreeOfAKind,
    Straight,
    FourToStraightFlush,
    TwoPair,
    HighPair,
    ThreeToRoyalFlush,
    FourToFlush,
    UnsuitedTJQK,
    LowPair,
    FourToOutsideStraight,
    ThreeToSFType1,
    SuitedQJ,
    FourToInsideStraight4High,
    SuitedKQOrKJ,
    SuitedAKAQAJ,
    FourToInsideStraight3High,
    ThreeToSFType2,
    UnsuitedJQK,
    UnsuitedJQ,
    SuitedTJ,
    TwoUnsuitedHighKing,
    SuitedTQ,
    TwoUnsuitedHighAce,
    JOnly,
    SuitedTK,
    QOnly,
    KOnly,
    AOnly,
    ThreeToSFType3,
    Garbage,
}

/// Position of a class in the strategy order.
pub open spec fn class_rank(c: HandClass) -> int {
    match c {
        HandClass::FourOfAKind => 3,
        HandClass::FourToRoyalFlush => 4,
        HandClass::FullHouse => 5,
        HandClass::Flush => 6,
        HandClass::ThreeOfAKind => 7,
        HandClass::Straight => 8,
        HandClass::FourToStraightFlush => 9,
        HandClass::TwoPair => 10,
        HandClass::HighPair => 11,
        HandClass::ThreeToRoyalFlush => 12,
        HandClass::FourToFlush => 13,
        HandClass::UnsuitedTJQK => 14,
        HandClass::LowPair => 15,
        HandClass::FourToOutsideStraight => 16,
        HandClass::ThreeToSFType1 => 17,
        HandClass::SuitedQJ => 18,
        HandClass::FourToInsideStraight4High => 19,
        HandClass::SuitedKQOrKJ => 20,
        HandClass::SuitedAKAQAJ => 21,
        HandClass::FourToInsideStraight3High => 22,
        HandClass::ThreeToSFType2 => 23,
        HandClass::UnsuitedJQK => 24,
        HandClass::UnsuitedJQ => 25,
        HandClass::SuitedTJ => 26,
        HandClass::TwoUnsuitedHighKing => 27,
        HandClass::SuitedTQ => 28,
        HandClass::TwoUnsuitedHighAce => 29,
        HandClass::JOnly => 30,
        HandClass::SuitedTK => 31,
        HandClass::QOnly => 32,
        HandClass::KOnly => 33,
        HandClass::AOnly => 34,
        HandClass::ThreeToSFType3 => 35,
        HandClass::Garbage => 36,
    }
}

pub open spec fn class_name(c: HandClass) -> Seq<char> {
    match c {
        HandClass::FourOfAKind => "Four of a kind"@,
        HandClass::FourToRoyalFlush => "4 to a royal flush"@,
        HandClass::FullHouse => "Full house"@,
        HandClass::Flush => "Flush"@,
        HandClass::ThreeOfAKind => "Three of a kind"@,
        HandClass::Straight => "Straight"@,
        HandClass::FourToStraightFlush => "4 to a straight flush"@,
        HandClass::TwoPair => "Two pair"@,
        HandClass::HighPair => "High pair"@,
        HandClass::ThreeToRoyalFlush => "3 to a royal flush"@,
        HandClass::FourToFlush => "4 to a flush"@,
        HandClass::UnsuitedTJQK => "Unsuited TJQK"@,
        HandClass::LowPair => "Low pair"@,
        HandClass::FourToOutsideStraight => "4 to outside straight (0-2 high)"@,
        HandClass::ThreeToSFType1 => "3 to SF type 1"@,
        HandClass::SuitedQJ => "Suited QJ"@,
        HandClass::FourToInsideStraight4High => "4 to inside straight (4 high)"@,
        HandClass::SuitedKQOrKJ => "Suited KQ or KJ"@,
        HandClass::SuitedAKAQAJ => "Suited AK, AQ, or AJ"@,
        HandClass::FourToInsideStraight3High => "4 to inside straight (3 high)"@,
        HandClass::ThreeToSFType2 => "3 to SF type 2"@,
        HandClass::UnsuitedJQK => "Unsuited JQK"@,
        HandClass::UnsuitedJQ => "Unsuited JQ"@,
        HandClass::SuitedTJ => "Suited TJ"@,
        HandClass::TwoUnsuitedHighKing => "2 unsuited high (K highest)"@,
        HandClass::SuitedTQ => "Suited TQ"@,
        HandClass::TwoUnsuitedHighAce => "2 unsuited high (A highest)"@,
        HandClass::JOnly => "J only"@,
        HandClass::SuitedTK => "Suited TK"@,
        HandClass::QOnly => "Q only"@,
        HandClass::KOnly => "K only"@,
        HandClass::AOnly => "A only"@,
        HandClass::ThreeToSFType3 => "3 to SF type 3"@,
        HandClass::Garbage => "Garbage"@,
    }
}

impl HandClass {
    pub fn rank(&self) -> (r: u8)
        ensures
            r as int == class_rank(*self),
    {
        match self {
            HandClass::FourOfAKind => 3,
            HandClass::FourToRoyalFlush => 4,
            HandClass::FullHouse => 5,
            HandClass::Flush => 6,
            HandClass::ThreeOfAKind => 7,
            HandClass::Straight => 8,
            HandClass::FourToStraightFlush => 9,
            HandClass::TwoPair => 10,
            HandClass::HighPair => 11,
            HandClass::ThreeToRoyalFlush => 12,
            HandClass::FourToFlush => 13,
            HandClass::UnsuitedTJQK => 14,
            HandClass::LowPair => 15,
            HandClass::FourToOutsideStraight => 16,
            HandClass::ThreeToSFType1 => 17,
            HandClass::SuitedQJ => 18,
            HandClass::FourToInsideStraight4High => 19,
            HandClass::SuitedKQOrKJ => 20,
            HandClass::SuitedAKAQAJ => 21,
            HandClass::FourToInsideStraight3High => 22,
            HandClass::ThreeToSFType2 => 23,
            HandClass::UnsuitedJQK => 24,
            HandClass::UnsuitedJQ => 25,
            HandClass::SuitedTJ => 26,
            HandClass::TwoUnsuitedHighKing => 27,
            HandClass::SuitedTQ => 28,
            HandClass::TwoUnsuitedHighAce => 29,
            HandClass::JOnly => 30,
            HandClass::SuitedTK => 31,
            HandClass::QOnly => 32,
            HandClass::KOnly => 33,
            HandClass::AOnly => 34,
            HandClass::ThreeToSFType3 => 35,
            HandClass::Garbage => 36,
        }
    }

    pub fn name(&self) -> (s: &'static str)
        ensures
            s@ == class_name(*self),
    {
        match self {
            HandClass::FourOfAKind => {
                proof {
                    reveal_strlit("Four of a kind");
                }
                "Four of a kind"
            },
            HandClass::FourToRoyalFlush => {
                proof {
                    reveal_strlit("4 to a royal flush");
                }
                "4 to a royal flush"
            },
            HandClass::FullHouse => {
                proof {
                    reveal_strlit("Full house");
                }
                "Full house"
            },
            HandClass::Flush => {
                proof {
                    reveal_strlit("Flush");
                }
                "Flush"
            },
            HandClass::ThreeOfAKind => {
                proof {
                    reveal_strlit("Three of a kind");
                }
                "Three of a kind"
            },
            HandClass::Straight => {
                proof {
                    reveal_strlit("Straight");
                }
                "Straight"
            },
            HandClass::FourToStraightFlush => {
                proof {
                    reveal_strlit("4 to a straight flush");
                }
                "4 to a straight flush"
            },
            HandClass::TwoPair => {
                proof {
                    reveal_strlit("Two pair");
                }
                "Two pair"
            },
            HandClass::HighPair => {
                proof {
                    reveal_strlit("High pair");
                }
                "High pair"
            },
            HandClass::ThreeToRoyalFlush => {
                proof {
                    reveal_strlit("3 to a royal flush");
                }
                "3 to a royal flush"
            },
            HandClass::FourToFlush => {
                proof {
                    reveal_strlit("4 to a flush");
                }
                "4 to a flush"
            },
            HandClass::UnsuitedTJQK => {
                proof {
                    reveal_strlit("Unsuited TJQK");
                }
                "Unsuited TJQK"
            },
            HandClass::LowPair => {
                proof {
                    reveal_strlit("Low pair");
                }
                "Low pair"
            },
            HandClass::FourToOutsideStraight => {
                proof {
                    reveal_strlit("4 to outside straight (0-2 high)");
                }
                "4 to outside straight (0-2 high)"
            },
            HandClass::ThreeToSFType1 => {
                proof {
                    reveal_strlit("3 to SF type 1");
                }
                "3 to SF type 1"
            },
            HandClass::SuitedQJ => {
                proof {
                    reveal_strlit("Suited QJ");
                }
                "Suited QJ"
            },
            HandClass::FourToInsideStraight4High => {
                proof {
                    reveal_strlit("4 to inside straight (4 high)");
                }
                "4 to inside straight (4 high)"
            },
            HandClass::SuitedKQOrKJ => {
                proof {
                    reveal_strlit("Suited KQ or KJ");
                }
                "Suited KQ or KJ"
            },
            HandClass::SuitedAKAQAJ => {
                proof {
                    reveal_strlit("Suited AK, AQ, or AJ");
                }
                "Suited AK, AQ, or AJ"
            },
            HandClass::FourToInsideStraight3High => {
                proof {
                    reveal_strlit("4 to inside straight (3 high)");
                }
                "4 to inside straight (3 high)"
            },
            HandClass::ThreeToSFType2 => {
                proof {
                    reveal_strlit("3 to SF type 2");
                }
                "3 to SF type 2"
            },
            HandClass::UnsuitedJQK => {
                proof {
                    reveal_strlit("Unsuited JQK");
                }
                "Unsuited JQK"
            },
            HandClass::UnsuitedJQ => {
                proof {
                    reveal_strlit("Unsuited JQ");
                }
                "Unsuited JQ"
            },
            HandClass::SuitedTJ => {
                proof {
                    reveal_strlit("Suited TJ");
                }
                "Suited TJ"
            },
            HandClass::TwoUnsuitedHighKing => {
                proof {
                    reveal_strlit("2 unsuited high (K highest)");
                }
                "2 unsuited high (K highest)"
            },
            HandClass::SuitedTQ => {
                proof {
                    reveal_strlit("Suited TQ");
                }
                "Suited TQ"
            },
            HandClass::TwoUnsuitedHighAce => {
                proof {
                    reveal_strlit("2 unsuited high (A highest)");
                }
                "2 unsuited high (A highest)"
            },
            HandClass::JOnly => {
                proof {
                    reveal_strlit("J only");
                }
                "J only"
            },
            HandClass::SuitedTK => {
                proof {
                    reveal_strlit("Suited TK");
                }
                "Suited TK"
            },
            HandClass::QOnly => {
                proof {
                    reveal_strlit("Q only");
                }
                "Q only"
            },
            HandClass::KOnly => {
                proof {
                    reveal_strlit("K only");
                }
                "K only"
            },
            HandClass::AOnly => {
                proof {
                    reveal_strlit("A only");
                }
                "A only"
            },
            HandClass::ThreeToSFType3 => {
                proof {
                    reveal_strlit("3 to SF type 3");
                }
                "3 to SF type 3"
            },
            HandClass::Garbage => {
                proof {
                    reveal_strlit("Garbage");
                }
                "Garbage"
            },
        }
    }
}

/// Class `c2` is trivially worse than `c1`: holding `c1` keeps all that
/// makes `c2` worth holding, or `c2` is garbage.
pub open spec fn dominated(c1: HandClass, c2: HandClass) -> bool {
    c2 == HandClass::Garbage
        || (c1 == HandClass::UnsuitedJQK && c2 == HandClass::UnsuitedJQ)
        || (c1 == HandClass::UnsuitedJQK && c2 == HandClass::JOnly)
        || (c1 == HandClass::UnsuitedJQK && c2 == HandClass::QOnly)
        || (c1 == HandClass::UnsuitedJQK && c2 == HandClass::KOnly)
        || (c1 == HandClass::UnsuitedJQ && c2 == HandClass::JOnly)
        || (c1 == HandClass::UnsuitedJQ && c2 == HandClass::QOnly)
        || (c1 == HandClass::TwoUnsuitedHighKing && c2 == HandClass::JOnly)
        || (c1 == HandClass::TwoUnsuitedHighKing && c2 == HandClass::QOnly)
        || (c1 == HandClass::TwoUnsuitedHighKing && c2 == HandClass::KOnly)
        || (c1 == HandClass::TwoUnsuitedHighAce && c2 == HandClass::JOnly)
        || (c1 == HandClass::TwoUnsuitedHighAce && c2 == HandClass::QOnly)
        || (c1 == HandClass::TwoUnsuitedHighAce && c2 == HandClass::KOnly)
        || (c1 == HandClass::TwoUnsuitedHighAce && c2 == HandClass::AOnly)
        || (c1 == HandClass::SuitedQJ && c2 == HandClass::JOnly)
        || (c1 == HandClass::SuitedQJ && c2 == HandClass::QOnly)
        || (c1 == HandClass::SuitedKQOrKJ && c2 == HandClass::JOnly)
        || (c1 == HandClass::SuitedKQOrKJ && c2 == HandClass::QOnly)
        || (c1 == HandClass::SuitedKQOrKJ && c2 == HandClass::KOnly)
        || (c1 == HandClass::SuitedAKAQAJ && c2 == HandClass::JOnly)
        || (c1 == HandClass::SuitedAKAQAJ && c2 == HandClass::QOnly)
        || (c1 == HandClass::SuitedAKAQAJ && c2 == HandClass::KOnly)
        || (c1 == HandClass::SuitedAKAQAJ && c2 == HandClass::AOnly)
        || (c1 == HandClass::SuitedTJ && c2 == HandClass::JOnly)
        || (c1 == HandClass::SuitedTQ && c2 == HandClass::QOnly)
        || (c1 == HandClass::SuitedTK && c2 == HandClass::KOnly)
}

pub fn is_dominated(c1: &HandClass, c2: &HandClass) -> (b: bool)
    ensures
        b == dominated(*c1, *c2),
{
    match (c1, c2) {
        (HandClass::UnsuitedJQK, HandClass::UnsuitedJQ) => true,
        (HandClass::UnsuitedJQK, HandClass::JOnly) => true,
        (HandClass::UnsuitedJQK, HandClass::QOnly) => true,
        (HandClass::UnsuitedJQK, HandClass::KOnly) => true,
        (HandClass::UnsuitedJQ, HandClass::JOnly) => true,
        (HandClass::UnsuitedJQ, HandClass::QOnly) => true,
        (HandClass::TwoUnsuitedHighKing, HandClass::JOnly) => true,
        (HandClass::TwoUnsuitedHighKing, HandClass::QOnly) => true,
        (HandClass::TwoUnsuitedHighKing, HandClass::KOnly) => true,
        (HandClass::TwoUnsuitedHighAce, HandClass::JOnly) => true,
        (HandClass::TwoUnsuitedHighAce, HandClass::QOnly) => true,
        (HandClass::TwoUnsuitedHighAce, HandClass::KOnly) => true,
        (HandClass::TwoUnsuitedHighAce, HandClass::AOnly) => true,
        (HandClass::SuitedQJ, HandClass::JOnly) => true,
        (HandClass::SuitedQJ, HandClass::QOnly) => true,
        (HandClass::SuitedKQOrKJ, HandClass::JOnly) => true,
        (HandClass::SuitedKQOrKJ, HandClass::QOnly) => true,
        (HandClass::SuitedKQOrKJ, HandClass::KOnly) => true,
        (HandClass::SuitedAKAQAJ, HandClass::JOnly) => true,
        (HandClass::SuitedAKAQAJ, HandClass::QOnly) => true,
        (HandClass::SuitedAKAQAJ, HandClass::KOnly) => true,
        (HandClass::SuitedAKAQAJ, HandClass::AOnly) => true,
        (HandClass::SuitedTJ, HandClass::JOnly) => true,
        (HandClass::SuitedTQ, HandClass::QOnly) => true,
        (HandClass::SuitedTK, HandClass::KOnly) => true,
        (_, HandClass::Garbage) => true,
        _ => false,
    }
}


/// Suit `s` may follow `prefix`: no earlier card of the same rank has it.
pub open spec fn suit_free(ranks: Seq<Rank>, prefix: Seq<CanonicalSuit>, s: CanonicalSuit) -> bool {
    forall|i: int| 0 <= i < prefix.len() && ranks[i] == ranks[prefix.len() as int] ==> #[trigger] prefix[i] != s
}

pub open spec fn extend_with(ranks: Seq<Rank>, prefix: Seq<CanonicalSuit>, s: CanonicalSuit) -> Seq<Seq<CanonicalSuit>>
    decreases ranks.len() - prefix.len(), 0int,
{
    if prefix.len() < ranks.len() && suit_free(ranks, prefix, s) {
        suit_patterns_from(ranks, prefix.push(s))
    } else {
        Seq::empty()
    }
}

/// Every completion of `prefix` to a suit for each rank such that cards of
/// one rank get distinct suits, in lexicographic order of suits.
pub open spec fn suit_patterns_from(ranks: Seq<Rank>, prefix: Seq<CanonicalSuit>) -> Seq<Seq<CanonicalSuit>>
    decreases ranks.len() - prefix.len(), 1int,
{
    if prefix.len() >= ranks.len() {
        seq![prefix]
    } else {
        extend_with(ranks, prefix, CanonicalSuit::A) + extend_with(ranks, prefix, CanonicalSuit::B)
            + extend_with(ranks, prefix, CanonicalSuit::C) + extend_with(ranks, prefix, CanonicalSuit::D)
    }
}

pub open spec fn views_of(ps: Seq<Vec<CanonicalSuit>>) -> Seq<Seq<CanonicalSuit>> {
    ps.map_values(|v: Vec<CanonicalSuit>| v@)
}

fn suit_is_free(ranks: &[Rank], current: &Vec<CanonicalSuit>, s: CanonicalSuit) -> (b: bool)
    requires
        current@.len() < ranks@.len(),
    ensures
        b == suit_free(ranks@, current@, s),
{
    let idx = current.len();
    let mut i: usize = 0;
    while i < idx
        invariant
            0 <= i <= idx,
            idx == current@.len() < ranks@.len(),
            forall|k: int| 0 <= k < i && ranks@[k] == ranks@[idx as int] ==> #[trigger] current@[k] != s,
        decreases idx - i,
    {
        if ranks[i] == ranks[idx] && current[i] == s {
            return false;
        }
        i = i + 1;
    }
    true
}

/// Appends every completion of `current` to `patterns`.
pub fn generate_suits_recursive(
    ranks: &[Rank],
    current: &mut Vec<CanonicalSuit>,
    patterns: &mut Vec<Vec<CanonicalSuit>>,
)
    requires
        old(current)@.len() <= ranks@.len(),
    ensures
        final(current)@ == old(current)@,
        views_of(final(patterns)@) == views_of(old(patterns)@) + suit_patterns_from(ranks@, old(current)@),
    decreases ranks@.len() - old(current)@.len(),
{
    let ghost start = views_of(patterns@);
    if current.len() == ranks.len() {
        let c = current.clone();
        patterns.push(c);
        assert(views_of(patterns@) =~= start + suit_patterns_from(ranks@, current@));
        return;
    }
    let ghost cur = current@;
    let suits = [CanonicalSuit::A, CanonicalSuit::B, CanonicalSuit::C, CanonicalSuit::D];
    let mut t: usize = 0;
    while t < 4
        invariant
            0 <= t <= 4,
            cur.len() < ranks@.len(),
            current@ == cur,
            old(current)@ == cur,
            suits@ == seq![CanonicalSuit::A, CanonicalSuit::B, CanonicalSuit::C, CanonicalSuit::D],
            views_of(patterns@) == start + (if t >= 1 { extend_with(ranks@, cur, CanonicalSuit::A) } else { Seq::empty() })
                + (if t >= 2 { extend_with(ranks@, cur, CanonicalSuit::B) } else { Seq::empty() })
                + (if t >= 3 { extend_with(ranks@, cur, CanonicalSuit::C) } else { Seq::empty() })
                + (if t >= 4 { extend_with(ranks@, cur, CanonicalSuit::D) } else { Seq::empty() }),
        decreases 4 - t,
    {
        let s = suits[t];
        let ghost before = views_of(patterns@);
        if suit_is_free(ranks, current, s) {
            current.push(s);
            assert(current@.len() == cur.len() + 1);
            generate_suits_recursive(ranks, current, patterns);
            current.pop();
            assert(current@ =~= cur);
        }
        assert(views_of(patterns@) == before + extend_with(ranks@, cur, s));
        t = t + 1;
        proof {
            let e = Seq::<Seq<CanonicalSuit>>::empty();
            assert(e + e =~= e);
        }
        assert(views_of(patterns@) =~= start + (if t >= 1 { extend_with(ranks@, cur, CanonicalSuit::A) } else { Seq::empty() })
                + (if t >= 2 { extend_with(ranks@, cur, CanonicalSuit::B) } else { Seq::empty() })
                + (if t >= 3 { extend_with(ranks@, cur, CanonicalSuit::C) } else { Seq::empty() })
                + (if t >= 4 { extend_with(ranks@, cur, CanonicalSuit::D) } else { Seq::empty() }));
    }
    assert(views_of(patterns@) =~= start + suit_patterns_from(ranks@, cur));
}

/// Every suit pattern of `ranks` in which cards of one rank have distinct
/// suits, in lexicographic order.
pub fn generate_suit_patterns(ranks: &[Rank]) -> (r: Vec<Vec<CanonicalSuit>>)
    ensures
        views_of(r@) == suit_patterns_from(ranks@, Seq::empty()),
{
    let mut patterns: Vec<Vec<CanonicalSuit>> = Vec::new();
    let mut current: Vec<CanonicalSuit> = Vec::new();
    generate_suits_recursive(ranks, &mut current, &mut patterns);
    assert(views_of(patterns@) =~= views_of(Seq::<Vec<CanonicalSuit>>::empty()) + suit_patterns_from(ranks@, Seq::empty()));
    patterns
}

} // verus!
