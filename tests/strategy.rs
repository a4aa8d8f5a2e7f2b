use video_poker::{
    analyze_hand, binomial, canonical_key, encode_best, encode_full, generate_canonical_hands, parse_hand,
    strategy_entry, CanonicalHand, GameType, HoldEv, Paytable, StrategyEntry,
};

fn hand(text: &str) -> Vec<u8> {
    parse_hand(text.as_bytes()).expect("a hand of five rank/suit pairs")
}

fn entry(text: &str, pt: &Paytable) -> StrategyEntry {
    let cards = hand(text);
    let key = canonical_key(&cards);
    strategy_entry(&CanonicalHand { key, cards }, pt)
}

#[test]
fn binomial_values() {
    assert_eq!(binomial(47, 3), 16215);
    assert_eq!(binomial(52, 5), 2598960);
    assert_eq!(binomial(48, 5), 1712304);
    assert_eq!(binomial(3, 5), 0);
    assert_eq!(binomial(0, 0), 1);
}

#[test]
fn canonical_key_relabels_suits_by_first_sighting() {
    assert_eq!(canonical_key(&[37, 36, 2, 6, 10]), b"2a3a4aJbJc".to_vec());
    assert_eq!(canonical_key(&[3, 7, 11, 36, 37]), b"2a3a4aJbJc".to_vec());
    assert_eq!(canonical_key(&[52, 0, 1, 2, 3]), b"2a2b2c2dWw".to_vec());
}

#[test]
fn canonical_key_is_the_same_for_every_suit_relabelling() {
    // 2h 2d 3h 4c 5c and its image with hearts and diamonds swapped
    assert_eq!(canonical_key(&[0, 1, 4, 10, 14]), b"2a2b3a4c5c".to_vec());
    assert_eq!(canonical_key(&[1, 0, 5, 10, 14]), b"2a2b3a4c5c".to_vec());
    let h = [48u8, 44, 40, 36, 29];
    let want = canonical_key(&h);
    let perms: [[u8; 4]; 4] = [[1, 0, 2, 3], [3, 2, 1, 0], [2, 3, 0, 1], [1, 2, 3, 0]];
    for p in perms {
        let g: Vec<u8> = h.iter().map(|&c| c / 4 * 4 + p[(c % 4) as usize]).collect();
        assert_eq!(canonical_key(&g), want);
    }
}

#[test]
fn no_two_enumerated_hands_are_relabellings() {
    let hands = generate_canonical_hands(12);
    for (i, a) in hands.iter().enumerate() {
        for b in &hands[i + 1..] {
            assert_ne!(canonical_key(&a.cards), canonical_key(&b.cards));
        }
    }
}

#[test]
fn enumeration_on_a_small_deck() {
    let hands = generate_canonical_hands(8);
    assert_eq!(hands.len(), 6);
    assert_eq!(hands[0].key, b"2a2b2c2d3a".to_vec());
    assert_eq!(hands[0].cards, vec![0, 1, 2, 3, 4]);
    for (i, a) in hands.iter().enumerate() {
        assert_eq!(canonical_key(&a.cards), a.key);
        for b in &hands[i + 1..] {
            assert_ne!(a.key, b.key);
        }
    }
}

#[test]
fn enumeration_on_twelve_cards() {
    assert_eq!(generate_canonical_hands(12).len(), 57);
}

#[test]
fn every_ev_lies_between_zero_and_the_royal() {
    let pt = Paytable::for_game(GameType::JacksOrBetter);
    let d = analyze_hand(&hand("TaJa2b7c9d"), &pt);
    assert_eq!(d.evs.len(), 32);
    for e in &d.evs {
        assert!(e.draws >= 1);
        assert!(e.total <= e.draws as u128 * 800);
    }
}

#[test]
fn best_mask_has_the_largest_ev() {
    let pt = Paytable::for_game(GameType::JacksOrBetter);
    let d = analyze_hand(&hand("TaJa2b7c9d"), &pt);
    let b = d.evs[d.best_mask as usize];
    for (m, e) in d.evs.iter().enumerate() {
        assert!(e.total * b.draws as u128 <= b.total * e.draws as u128);
        if m < d.best_mask as usize {
            assert!(e.total * (b.draws as u128) < b.total * e.draws as u128);
        }
    }
}

#[test]
fn full_table_layout() {
    let pt = Paytable::for_game(GameType::JacksOrBetter);
    let e = entry("AaKaQaJa9b", &pt);
    assert_eq!(e.key, b"9aJbQbKbAb".to_vec());
    let bytes = encode_full(&[e], false);
    assert_eq!(bytes.len(), 64 + 10 + 66);
    assert_eq!(&bytes[0..4], b"VPS2");
    assert_eq!(&bytes[4..6], &[2, 0]);
    assert_eq!(&bytes[6..8], &[0, 0]);
    assert_eq!(&bytes[8..12], &[1, 0, 0, 0]);
    assert_eq!(bytes[12], 10);
    assert!(bytes[13..64].iter().all(|&b| b == 0));
    assert_eq!(&bytes[64..74], b"9aJbQbKbAb");
    let rec = &bytes[74..];
    assert_eq!(rec[0], 15);
    // the largest EV, 872/47 = 18.55, needs scale 1 (divisor 0.001)
    assert_eq!(rec[1], 1);
    let v = u16::from_le_bytes([rec[2 + 30], rec[3 + 30]]);
    assert_eq!(v, 18553);
}

#[test]
fn full_table_decodes_within_half_a_step() {
    let pt = Paytable::for_game(GameType::JacksOrBetter);
    let e = entry("JaJb2c3c4c", &pt);
    let evs: Vec<HoldEv> = e.evs.clone();
    let bytes = encode_full(&[e], false);
    let rec = &bytes[74..];
    let divisor = [0.0001f64, 0.001, 0.01, 0.1][rec[1] as usize];
    for m in 0..32 {
        let v = u16::from_le_bytes([rec[2 + 2 * m], rec[3 + 2 * m]]) as f64 * divisor;
        let exact = evs[m].total as f64 / evs[m].draws as f64;
        assert!((v - exact).abs() <= 0.5 * divisor + 1e-12);
    }
}

#[test]
fn tables_sort_keys_and_pad_for_jokers() {
    let pt = Paytable::for_game(GameType::JacksOrBetter);
    let a = entry("AaKaQaJa9b", &pt);
    let b = entry("JaJb2c3c4c", &pt);
    let bytes = encode_best(&[a, b], &[0x4194_6cf0, 0x3fc4_ad5a], true);
    assert_eq!(bytes.len(), 64 + 2 * 12 + 2 * 5);
    assert_eq!(&bytes[0..4], b"VPST");
    assert_eq!(&bytes[4..6], &[1, 0]);
    assert_eq!(&bytes[6..8], &[1, 0]);
    assert_eq!(&bytes[8..12], &[2, 0, 0, 0]);
    assert_eq!(bytes[12], 12);
    assert_eq!(&bytes[64..76], b"2a3a4aJbJc\0\0");
    assert_eq!(&bytes[76..88], b"9aJbQbKbAb\0\0");
    assert_eq!(&bytes[88..93], &[3, 0x5a, 0xad, 0xc4, 0x3f]);
    assert_eq!(&bytes[93..98], &[15, 0xf0, 0x6c, 0x94, 0x41]);
}
