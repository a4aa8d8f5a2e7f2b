use video_poker::analysis::{get_hand_classes, Card, Hand};
use video_poker::{CanonicalSuit, HandClass, Rank};

fn rank_of(c: char) -> Rank {
    let all = Rank::all();
    let i = "23456789TJQKA".find(c).expect("a rank character");
    all[i]
}

fn suit_of(c: char) -> CanonicalSuit {
    match c {
        'a' => CanonicalSuit::A,
        'b' => CanonicalSuit::B,
        'c' => CanonicalSuit::C,
        _ => CanonicalSuit::D,
    }
}

fn hand(text: &str) -> Hand {
    let chars: Vec<char> = text.chars().collect();
    let cards = chars.chunks(2).map(|p| Card::new(rank_of(p[0]), suit_of(p[1]))).collect();
    Hand::new(cards)
}

#[test]
fn hand_new_sorts_by_rank_then_suit() {
    let h = hand("KaTb2c2aAd");
    let ranks: Vec<u8> = h.cards.iter().map(|c| c.rank.value()).collect();
    assert_eq!(ranks, vec![2, 2, 10, 13, 14]);
    assert_eq!(h.cards[0].suit, CanonicalSuit::A);
    assert_eq!(h.cards_of_suit(CanonicalSuit::A).len(), 2);
    assert_eq!(h.ranks().len(), 5);
}

#[test]
fn four_to_a_royal_and_its_parts() {
    assert_eq!(
        get_hand_classes(&hand("TaJaQaKa2b")),
        vec![
            HandClass::FourToRoyalFlush,
            HandClass::ThreeToRoyalFlush,
            HandClass::SuitedQJ,
            HandClass::SuitedKQOrKJ,
            HandClass::SuitedTJ,
            HandClass::SuitedTQ,
            HandClass::SuitedTK,
            HandClass::JOnly,
            HandClass::QOnly,
            HandClass::KOnly,
            HandClass::Garbage
        ]
    );
}

#[test]
fn unsuited_high_cards() {
    assert_eq!(
        get_hand_classes(&hand("JaQbKc5d7a")),
        vec![
            HandClass::UnsuitedJQK,
            HandClass::UnsuitedJQ,
            HandClass::TwoUnsuitedHighKing,
            HandClass::JOnly,
            HandClass::QOnly,
            HandClass::KOnly,
            HandClass::Garbage
        ]
    );
}

#[test]
fn straight_draws_and_pairs() {
    assert_eq!(
        get_hand_classes(&hand("2a3a4a9bKc")),
        vec![HandClass::ThreeToSFType1, HandClass::KOnly, HandClass::Garbage]
    );
    assert_eq!(get_hand_classes(&hand("5a6a7b8c2d")), vec![HandClass::FourToOutsideStraight, HandClass::Garbage]);
    assert_eq!(
        get_hand_classes(&hand("AaAbKcKdQa")),
        vec![
            HandClass::TwoPair,
            HandClass::SuitedAKAQAJ,
            HandClass::TwoUnsuitedHighAce,
            HandClass::QOnly,
            HandClass::KOnly,
            HandClass::AOnly,
            HandClass::Garbage
        ]
    );
    assert_eq!(
        get_hand_classes(&hand("3a4b5c6dAa")),
        vec![HandClass::FourToOutsideStraight, HandClass::AOnly, HandClass::Garbage]
    );
}

#[test]
fn canonicalize_relabels_suits_in_rank_order() {
    let h = hand("KdQd2b2a9c");
    assert_eq!(
        video_poker::analysis::canonicalize(&h.cards),
        vec![(2, 0), (2, 1), (9, 2), (12, 3), (13, 3)]
    );
}

#[test]
fn canonicalize_ignores_suit_relabelling() {
    let a = hand("2a2b3a4c5c");
    let b = hand("2a2b3b4c5c");
    let want = vec![(2, 0), (2, 1), (3, 0), (4, 2), (5, 2)];
    assert_eq!(video_poker::analysis::canonicalize(&a.cards), want);
    assert_eq!(video_poker::analysis::canonicalize(&b.cards), want);
}
