use video_poker::{analyze_hand, hold_ev, parse_hand, payout, GameType, Paytable};

fn hand(text: &str) -> Vec<u8> {
    parse_hand(text.as_bytes()).expect("a hand of five rank/suit pairs")
}

#[test]
fn pair_of_jacks_held_whole_pays_one() {
    let pt = Paytable::for_game(GameType::JacksOrBetter);
    let h = hand("JaJb2c3c4c");
    assert_eq!(payout(&h, &pt), 1);
    let e = hold_ev(&h, 0b11111, &pt);
    assert_eq!(e.draws, 1);
    assert_eq!(e.total, 1);
}

#[test]
fn holding_the_jacks_averages_all_three_card_draws() {
    let pt = Paytable::for_game(GameType::JacksOrBetter);
    let h = hand("JaJb2c3c4c");
    let e = hold_ev(&h, 0b00011, &pt);
    assert_eq!(e.draws, 16215);
    // 24915 / 16215 = 1661 / 1081, about 1.53654
    assert_eq!(e.total, 24915);
    let d = analyze_hand(&h, &pt);
    assert_eq!(d.best_mask, 3);
    assert_eq!(d.evs[3].total, 24915);
}

#[test]
fn royal_flush_pays_eight_hundred() {
    let pt = Paytable::for_game(GameType::JacksOrBetter);
    assert_eq!(payout(&hand("AaKaQaJaTa"), &pt), 800);
}

#[test]
fn four_aces_with_low_kicker() {
    let h = hand("AaAbAcAd2a");
    assert_eq!(payout(&h, &Paytable::for_game(GameType::DoubleDoubleBonus)), 400);
    assert_eq!(payout(&h, &Paytable::for_game(GameType::JacksOrBetter)), 25);
}

#[test]
fn four_deuces() {
    let h = hand("2a2b2c2dAa");
    assert_eq!(payout(&h, &Paytable::for_game(GameType::DeucesWildFullPay)), 200);
    assert_eq!(payout(&h, &Paytable::for_game(GameType::JacksOrBetter)), 25);
}

#[test]
fn four_to_a_royal_is_held() {
    let pt = Paytable::for_game(GameType::JacksOrBetter);
    let h = hand("AaKaQaJa9b");
    let d = analyze_hand(&h, &pt);
    assert_eq!(d.best_mask, 0b01111);
    let best = d.evs[15];
    assert_eq!(best.draws, 47);
    // royal 800, eight other flushes at 6, three straights at 4, twelve high pairs
    assert_eq!(best.total, 872);
}
