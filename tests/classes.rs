use video_poker::{
    generate_suit_patterns, is_dominated, is_inside_straight_draw, is_outside_straight_draw, is_straight_ranks,
    sf_draw_gaps_and_highs, sf_draw_type, CanonicalSuit, HandClass, Rank,
};

#[test]
fn ranks_and_suits() {
    let all = Rank::all();
    assert_eq!(all.len(), 13);
    assert_eq!(all[0].value(), 2);
    assert_eq!(all[12].value(), 14);
    assert_eq!(Rank::Ten.to_char(), 'T');
    assert!(Rank::Ten.is_high());
    assert!(!Rank::Nine.is_high());
    assert_eq!(CanonicalSuit::C.to_char(), 'c');
}

#[test]
fn straights_of_five_ranks() {
    assert!(is_straight_ranks(&[Rank::Ace, Rank::Two, Rank::Three, Rank::Four, Rank::Five]));
    assert!(is_straight_ranks(&[Rank::Ten, Rank::Ace, Rank::Queen, Rank::King, Rank::Jack]));
    assert!(!is_straight_ranks(&[Rank::Two, Rank::Three, Rank::Four, Rank::Five, Rank::Seven]));
    assert!(!is_straight_ranks(&[Rank::Two, Rank::Two, Rank::Three, Rank::Four, Rank::Five]));
    assert!(!is_straight_ranks(&[Rank::Two, Rank::Three, Rank::Four, Rank::Five]));
}

#[test]
fn straight_draws_of_four_ranks() {
    assert_eq!(is_outside_straight_draw(&[Rank::Nine, Rank::Ten, Rank::Jack, Rank::Queen]), Some(3));
    assert_eq!(is_outside_straight_draw(&[Rank::Jack, Rank::Queen, Rank::King, Rank::Ace]), None);
    assert_eq!(is_outside_straight_draw(&[Rank::Two, Rank::Three, Rank::Four, Rank::Six]), None);
    assert_eq!(is_inside_straight_draw(&[Rank::Two, Rank::Three, Rank::Four, Rank::Six]), Some(0));
    assert_eq!(is_inside_straight_draw(&[Rank::Ace, Rank::Two, Rank::Three, Rank::Four]), Some(1));
    assert_eq!(is_inside_straight_draw(&[Rank::Ten, Rank::Jack, Rank::Queen, Rank::Ace]), Some(4));
    assert_eq!(is_inside_straight_draw(&[Rank::Two, Rank::Three, Rank::Four, Rank::Five]), None);
}

#[test]
fn straight_flush_draws_of_three_ranks() {
    assert_eq!(sf_draw_gaps_and_highs(&[Rank::Ace, Rank::Two, Rank::Four]), Some((1, 1)));
    assert_eq!(sf_draw_gaps_and_highs(&[Rank::Five, Rank::Six, Rank::Eight]), Some((1, 0)));
    assert_eq!(sf_draw_gaps_and_highs(&[Rank::Five, Rank::Six, Rank::Ten]), None);
    assert_eq!(sf_draw_type(0, 1, &[Rank::Eight, Rank::Nine, Rank::Ten]), Some(1));
    assert_eq!(sf_draw_type(1, 0, &[Rank::Five, Rank::Six, Rank::Eight]), Some(2));
    assert_eq!(sf_draw_type(2, 0, &[Rank::Four, Rank::Six, Rank::Eight]), Some(3));
    assert_eq!(sf_draw_type(1, 0, &[Rank::Two, Rank::Three, Rank::Four]), Some(2));
    assert_eq!(sf_draw_type(0, 0, &[Rank::Two, Rank::Three, Rank::Four]), Some(1));
    assert_eq!(sf_draw_type(2, 1, &[Rank::Ace, Rank::Three, Rank::Five]), Some(2));
}

#[test]
fn class_ranks_names_and_domination() {
    assert_eq!(HandClass::FourOfAKind.rank(), 3);
    assert_eq!(HandClass::Garbage.rank(), 36);
    assert_eq!(HandClass::SuitedAKAQAJ.name(), "Suited AK, AQ, or AJ");
    assert!(is_dominated(&HandClass::UnsuitedJQK, &HandClass::UnsuitedJQ));
    assert!(is_dominated(&HandClass::FullHouse, &HandClass::Garbage));
    assert!(!is_dominated(&HandClass::UnsuitedJQ, &HandClass::UnsuitedJQK));
}

#[test]
fn suit_patterns_keep_ranks_distinct() {
    let p = generate_suit_patterns(&[Rank::Two, Rank::Two]);
    assert_eq!(p.len(), 12);
    assert_eq!(p[0], vec![CanonicalSuit::A, CanonicalSuit::B]);
    assert_eq!(p[11], vec![CanonicalSuit::D, CanonicalSuit::C]);
    assert_eq!(generate_suit_patterns(&[Rank::Two, Rank::Three]).len(), 16);
}
