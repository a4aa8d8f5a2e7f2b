use video_poker::{card_rank, card_suit, complement, deck, parse_hand, payout, Family, GameType, Paytable};

fn hand(text: &str) -> Vec<u8> {
    parse_hand(text.as_bytes()).expect("a hand of five rank/suit pairs")
}

fn pays(text: &str, g: GameType) -> u32 {
    payout(&hand(text), &Paytable::for_game(g))
}

fn joker_table() -> Paytable {
    let mut p = Paytable::plain(Family::Joker, 53, [800, 50, 20, 7, 5, 3, 2, 1, 1], 11);
    p.five_of_a_kind = 200;
    p.wild_royal = 100;
    p
}

#[test]
fn card_model_decodes_rank_and_suit() {
    assert_eq!(card_rank(37), Some(9));
    assert_eq!(card_suit(37), Some(1));
    assert_eq!(card_rank(52), None);
    assert_eq!(card_suit(53), None);
    assert_eq!(deck(53).len(), 53);
    assert_eq!(deck(52)[51], 51);
    let pool = complement(&[0, 1, 2, 3, 4], 52);
    assert_eq!(pool.len(), 47);
    assert_eq!(pool[0], 5);
}

#[test]
fn parse_hand_reads_keys_and_rejects_bad_text() {
    assert_eq!(hand("JaJb2c3c4c"), vec![36, 37, 2, 6, 10]);
    assert_eq!(hand("Ww2a3a4a5a"), vec![52, 0, 4, 8, 12]);
    assert!(parse_hand(b"JaJb2c3c4").is_none());
    assert!(parse_hand(b"JaJb2c3c4e").is_none());
    assert!(parse_hand(b"JaJb2c3c1c").is_none());
}

#[test]
fn standard_classes_in_order() {
    assert_eq!(pays("9aKaQaJaTa", GameType::JacksOrBetter), 50);
    assert_eq!(pays("2a3b4c5dAa", GameType::JacksOrBetter), 4);
    assert_eq!(pays("KaKbKc2a2b", GameType::JacksOrBetter), 9);
    assert_eq!(pays("2a5a7a9aJa", GameType::JacksOrBetter), 6);
    assert_eq!(pays("7a7b7c2a9b", GameType::JacksOrBetter), 3);
    assert_eq!(pays("7a7b9c9a2b", GameType::JacksOrBetter), 2);
    assert_eq!(pays("TaTb9c3a2b", GameType::JacksOrBetter), 0);
    assert_eq!(pays("TaTb9c3a2b", GameType::TensOrBetter65), 1);
    assert_eq!(pays("2a4b6c8dTa", GameType::JacksOrBetter), 0);
}

#[test]
fn quad_bonuses_follow_rank_and_kicker() {
    assert_eq!(pays("2a2b2c2dAa", GameType::DoubleDoubleBonus), 160);
    assert_eq!(pays("2a2b2c2d9a", GameType::DoubleDoubleBonus), 80);
    assert_eq!(pays("AaAbAcAd9a", GameType::DoubleDoubleBonus), 160);
    assert_eq!(pays("7a7b7c7d9a", GameType::DoubleDoubleBonus), 50);
    assert_eq!(pays("AaAbAcAd3a", GameType::TripleDoubleBonus96), 800);
    assert_eq!(pays("5a5b5c5d9a", GameType::BonusPoker85), 25);
    assert_eq!(pays("AaAbAcAd9a", GameType::BonusPoker85), 80);
    assert_eq!(pays("3a3b3c3d9a", GameType::DoubleBonus107), 80);
    assert_eq!(pays("7a7b7c7d9a", GameType::AllAmerican), 40);
    assert_eq!(pays("7a7b7c7d9a", GameType::BonusPokerDeluxe86), 80);
    assert_eq!(pays("3a4b5c6d7a", GameType::AllAmerican), 8);
    assert_eq!(pays("7a7b9c9a2b", GameType::DoubleDoubleBonus), 1);
}

#[test]
fn face_kicker_bonuses() {
    let mut p = Paytable::for_game(GameType::JacksOrBetter);
    p.four_aces_with_face = Some(320);
    p.four_jqk_with_face = Some(240);
    p.four_jqk = Some(80);
    assert_eq!(payout(&hand("AaAbAcAdKa"), &p), 320);
    assert_eq!(payout(&hand("KaKbKcKdAa"), &p), 240);
    assert_eq!(payout(&hand("KaKbKcKd9a"), &p), 80);
    assert_eq!(payout(&hand("AaAbAcAd9a"), &p), 25);
}

#[test]
fn deuces_wild_classes() {
    let g = GameType::DeucesWildFullPay;
    assert_eq!(pays("AaKaQaJaTa", g), 800);
    assert_eq!(pays("2aKaQaJaTa", g), 25);
    assert_eq!(pays("2a2bKaKbKc", g), 15);
    assert_eq!(pays("2a9a8a7a6a", g), 9);
    assert_eq!(pays("2aKaKbKc5d", g), 5);
    assert_eq!(pays("2aKaKbQcQd", g), 3);
    assert_eq!(pays("2a5a7a9aJa", g), 2);
    assert_eq!(pays("2a2b5c9dKa", g), 1);
    assert_eq!(pays("KaKb5c9d3a", g), 0);
    assert_eq!(pays("2aKaKbKc5d", GameType::DeucesWildNSUD), 4);
    assert_eq!(pays("2aKaKbQcQd", GameType::DeucesWildNSUD), 4);
}

#[test]
fn deuces_wheel_with_a_deuce_is_a_straight() {
    assert_eq!(pays("2a3b4c5dAb", GameType::DeucesWildFullPay), 2);
}

#[test]
fn deuces_wheel_slots_ignore_the_deuce_rank() {
    // 3-4-5-A fill every wheel slot a natural card can: the fifth card rides along.
    assert_eq!(pays("3a4b5cAdKa", GameType::DeucesWildFullPay), 2);
}

#[test]
fn joker_family_pairs_and_wilds() {
    let p = joker_table();
    assert_eq!(payout(&hand("WwKaKb5c7d"), &p), 2);
    assert_eq!(payout(&hand("WwKa3b5c8d"), &p), 1);
    assert_eq!(payout(&hand("WwQa3b5c8d"), &p), 0);
    assert_eq!(payout(&hand("KaKbQcQd3a"), &p), 1);
    assert_eq!(payout(&hand("WwKaKbKcKd"), &p), 200);
    assert_eq!(payout(&hand("WwKaQaJaTa"), &p), 100);
    assert_eq!(payout(&hand("Ww2a3b4c5d"), &p), 3);
}

#[test]
fn malformed_hands_pay_nothing() {
    let pt = Paytable::for_game(GameType::JacksOrBetter);
    assert_eq!(payout(&[48, 44, 40, 36], &pt), 0);
    assert_eq!(payout(&[48, 44, 40, 36, 32, 0], &pt), 0);
}

#[test]
fn richer_paytable_pays_at_least_as_much() {
    let a = Paytable::for_game(GameType::JacksOrBetter);
    let b = Paytable::plain(Family::Standard, 52, [800, 50, 25, 6, 5, 4, 3, 2, 1], 9);
    for text in ["KaKbKc2a2b", "2a5a7a9aJa", "JaJb2c3c4c", "2a4b6c8dTa", "AaKaQaJaTa"] {
        assert!(payout(&hand(text), &a) >= payout(&hand(text), &b));
    }
    assert_eq!(payout(&hand("KaKbKc2a2b"), &a), 9);
    assert_eq!(payout(&hand("KaKbKc2a2b"), &b), 6);
}
