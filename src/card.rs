//! Cards are plain indices: `i < 52` is rank `i / 4` (0 = deuce .. 12 = ace)
//! and suit `i % 4`; indices 52 and 53 are jokers, with neither rank nor suit.
use vstd::prelude::*;

verus! {

/// Number of ranked cards in a deck; every index at or above it is a joker.
pub const RANKED_CARDS: u8 = 52;

/// The largest deck: 52 ranked cards and two jokers.
pub const MAX_DECK: u8 = 54;

pub open spec fn is_ranked(c: u8) -> bool {
    c < 52
}

pub open spec fn rank_of(c: u8) -> int {
    c as int / 4
}

pub open spec fn suit_of(c: u8) -> int {
    c as int % 4
}

/// Rank of a card, absent for a joker.
pub fn card_rank(c: u8) -> (r: Option<u8>)
    ensures
        r == (if is_ranked(c) { Some((c / 4) as u8) } else { None::<u8> }),
{
    if c < RANKED_CARDS {
        Some(c / 4)
    } else {
        None
    }
}

/// Suit of a card, absent for a joker.
pub fn card_suit(c: u8) -> (r: Option<u8>)
    ensures
        r == (if is_ranked(c) { Some((c % 4) as u8) } else { None::<u8> }),
{
    if c < RANKED_CARDS {
        Some(c % 4)
    } else {
        None
    }
}

/// The full deck of `d` cards, in index order.
pub fn deck(d: u8) -> (r: Vec<u8>)
    requires
        d <= MAX_DECK,
    ensures
        r@ == Seq::new(d as nat, |i: int| i as u8),
{
    let mut r: Vec<u8> = Vec::new();
    let mut c: u8 = 0;
    while c < d
        invariant
            c <= d,
            r@ == Seq::new(c as nat, |i: int| i as u8),
        decreases d - c,
    {
        r.push(c);
        c = c + 1;
        assert(r@ =~= Seq::new(c as nat, |i: int| i as u8));
    }
    r
}

/// The cards below `n` that are not in `hand`, in index order.
pub open spec fn pool_below(hand: Seq<u8>, n: int) -> Seq<u8>
    decreases n,
{
    if n <= 0 {
        Seq::empty()
    } else if hand.contains((n - 1) as u8) {
        pool_below(hand, n - 1)
    } else {
        pool_below(hand, n - 1).push((n - 1) as u8)
    }
}

/// The draw pool: the cards of a `d`-card deck that are not in `hand`.
pub fn complement(hand: &[u8], d: u8) -> (r: Vec<u8>)
    requires
        d <= MAX_DECK,
    ensures
        r@ == pool_below(hand@, d as int),
{
    let mut r: Vec<u8> = Vec::new();
    let mut c: u8 = 0;
    while c < d
        invariant
            c <= d,
            r@ == pool_below(hand@, c as int),
        decreases d - c,
    {
        let mut found = false;
        let mut j: usize = 0;
        while j < hand.len()
            invariant
                j <= hand@.len(),
                found == (exists|k: int| 0 <= k < j && hand@[k] == c),
            decreases hand@.len() - j,
        {
            if hand[j] == c {
                found = true;
            }
            j = j + 1;
        }
        if !found {
            r.push(c);
        }
        c = c + 1;
    }
    r
}

/// ASCII character of a rank in a hand key.
pub open spec fn rank_ascii(r: int) -> u8 {
    if r == 0 { '2' as u8 }
    else if r == 1 { '3' as u8 }
    else if r == 2 { '4' as u8 }
    else if r == 3 { '5' as u8 }
    else if r == 4 { '6' as u8 }
    else if r == 5 { '7' as u8 }
    else if r == 6 { '8' as u8 }
    else if r == 7 { '9' as u8 }
    else if r == 8 { 'T' as u8 }
    else if r == 9 { 'J' as u8 }
    else if r == 10 { 'Q' as u8 }
    else if r == 11 { 'K' as u8 }
    else if r == 12 { 'A' as u8 }
    else { 'W' as u8 }
}

/// ASCII character of rank `r`; 13 stands for the joker's `W`.
pub fn rank_char(r: u8) -> (ch: u8)
    requires
        r <= 13,
    ensures
        ch == rank_ascii(r as int),
{
    match r {
        0 => '2' as u8,
        1 => '3' as u8,
        2 => '4' as u8,
        3 => '5' as u8,
        4 => '6' as u8,
        5 => '7' as u8,
        6 => '8' as u8,
        7 => '9' as u8,
        8 => 'T' as u8,
        9 => 'J' as u8,
        10 => 'Q' as u8,
        11 => 'K' as u8,
        12 => 'A' as u8,
        _ => 'W' as u8,
    }
}

/// The rank whose character is `ch`, if any.
pub open spec fn rank_from_ascii(ch: u8) -> Option<int> {
    if exists|r: int| 0 <= r < 13 && rank_ascii(r) == ch {
        Some(choose|r: int| 0 <= r < 13 && rank_ascii(r) == ch)
    } else {
        None
    }
}

fn rank_of_char(ch: u8) -> (r: Option<u8>)
    ensures
        r is Some <==> (exists|k: int| 0 <= k < 13 && rank_ascii(k) == ch),
        r is Some ==> r->0 < 13 && rank_ascii(r->0 as int) == ch,
{
    let mut k: u8 = 0;
    while k < 13
        invariant
            k <= 13,
            forall|j: int| 0 <= j < k ==> rank_ascii(j) != ch,
        decreases 13 - k,
    {
        if rank_char(k) == ch {
            return Some(k);
        }
        k = k + 1;
    }
    None
}

/// The card that a two-character key entry names: a rank character and a
/// suit letter `a`..`d`, or `Ww` for the first joker.
pub open spec fn card_from_ascii(rc: u8, sc: u8) -> Option<u8> {
    if rc == 'W' as u8 && sc == 'w' as u8 {
        Some(52u8)
    } else if 'a' as u8 <= sc <= 'd' as u8 && rank_from_ascii(rc) is Some {
        Some((rank_from_ascii(rc)->0 * 4 + (sc - 'a' as u8)) as u8)
    } else {
        None
    }
}

pub open spec fn hand_from_ascii(text: Seq<u8>) -> Option<Seq<u8>> {
    if text.len() == 10 && forall|i: int| 0 <= i < 5 ==> #[trigger] card_from_ascii(text[2 * i], text[2 * i + 1]) is Some {
        Some(Seq::new(5, |i: int| card_from_ascii(text[2 * i], text[2 * i + 1])->0))
    } else {
        None
    }
}

/// Reads a hand written as five rank/suit pairs, such as `JaJb2c3c4c`.
pub fn parse_hand(text: &[u8]) -> (r: Option<Vec<u8>>)
    ensures
        match r {
            Some(h) => hand_from_ascii(text@) == Some(h@),
            None => hand_from_ascii(text@) is None,
        },
{
    if text.len() != 10 {
        return None;
    }
    let mut h: Vec<u8> = Vec::new();
    let mut i: usize = 0;
    while i < 5
        invariant
            text@.len() == 10,
            i <= 5,
            h@.len() == i,
            forall|k: int| 0 <= k < i ==> #[trigger] card_from_ascii(text@[2 * k], text@[2 * k + 1]) == Some(h@[k]),
        decreases 5 - i,
    {
        let rc = text[2 * i];
        let sc = text[2 * i + 1];
        if rc == 'W' as u8 && sc == 'w' as u8 {
            h.push(52);
        } else if 'a' as u8 <= sc && sc <= 'd' as u8 {
            match rank_of_char(rc) {
                Some(r) => {
                    proof {
                        let k = choose|k: int| 0 <= k < 13 && rank_ascii(k) == rc;
                        assert(rank_ascii(k) == rank_ascii(r as int));
                        assert(k == r as int);
                    }
                    h.push(r * 4 + (sc - 'a' as u8));
                },
                None => {
                    assert(card_from_ascii(text@[2 * (i as int)], text@[2 * (i as int) + 1]) is None);
                    return None;
                },
            }
        } else {
            assert(card_from_ascii(text@[2 * (i as int)], text@[2 * (i as int) + 1]) is None);
            return None;
        }
        i = i + 1;
    }
    assert(h@ =~= Seq::new(5, |k: int| card_from_ascii(text@[2 * k], text@[2 * k + 1])->0));
    Some(h)
}

} // verus!
