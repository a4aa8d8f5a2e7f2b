//! Paytables: plain records of payout rates, with a family tag that selects
//! the evaluator branch.
use vstd::prelude::*;

verus! {

/// Upper bound on any single payout, in coins per coin bet.
pub const MAX_PAYOUT: u32 = 10000;

#[derive(Clone, Copy, Debug, PartialEq, Eq, Structural)]
pub enum Family {
    /// No wild cards.
    Standard,
    /// Every deuce is wild.
    DeucesWild,
    /// The deck holds one or two jokers, which are wild.
    Joker,
}

/// Payout rates of one game, per coin bet. A quad bonus that is `None` is
/// not offered by the game and falls through to the next applicable rate.
#[derive(Clone, Copy, Debug)]
pub struct Paytable {
    pub family: Family,
    pub deck_size: u8,
    pub royal_flush: u32,
    pub straight_flush: u32,
    pub four_of_a_kind: u32,
    pub full_house: u32,
    pub flush: u32,
    pub straight: u32,
    pub three_of_a_kind: u32,
    pub two_pair: u32,
    pub high_pair: u32,
    /// Lowest rank of a paying pair; 0 means that no single pair pays.
    pub min_pair_rank: u8,
    pub four_aces: Option<u32>,
    pub four_2_4: Option<u32>,
    pub four_5_k: Option<u32>,
    pub four_jqk: Option<u32>,
    pub four_8s: Option<u32>,
    pub four_7s: Option<u32>,
    /// Four aces with a 2, 3 or 4 kicker.
    pub four_aces_with_kicker: Option<u32>,
    /// Four 2s, 3s or 4s with an A, 2, 3 or 4 kicker.
    pub four_2_4_with_kicker: Option<u32>,
    /// Four aces with a J, Q or K kicker.
    pub four_aces_with_face: Option<u32>,
    /// Four jacks, queens or kings with a J, Q, K or A kicker.
    pub four_jqk_with_face: Option<u32>,
    pub four_deuces: u32,
    pub wild_royal: u32,
    pub five_of_a_kind: u32,
}

pub open spec fn opt_le(o: Option<u32>, bound: u32) -> bool {
    match o {
        Some(v) => v <= bound,
        None => true,
    }
}

impl Paytable {
    /// A paytable that the evaluator accepts: a deck size that fits the
    /// family, and no rate above the royal flush, which is itself bounded.
    pub open spec fn wf(self) -> bool {
        &&& match self.family {
            Family::Joker => 53 <= self.deck_size <= 54,
            _ => self.deck_size == 52,
        }
        &&& self.royal_flush <= MAX_PAYOUT
        &&& self.min_pair_rank <= 12
        &&& self.straight_flush <= self.royal_flush
        &&& self.four_of_a_kind <= self.royal_flush
        &&& self.full_house <= self.royal_flush
        &&& self.flush <= self.royal_flush
        &&& self.straight <= self.royal_flush
        &&& self.three_of_a_kind <= self.royal_flush
        &&& self.two_pair <= self.royal_flush
        &&& self.high_pair <= self.royal_flush
        &&& opt_le(self.four_aces, self.royal_flush)
        &&& opt_le(self.four_2_4, self.royal_flush)
        &&& opt_le(self.four_5_k, self.royal_flush)
        &&& opt_le(self.four_jqk, self.royal_flush)
        &&& opt_le(self.four_8s, self.royal_flush)
        &&& opt_le(self.four_7s, self.royal_flush)
        &&& opt_le(self.four_aces_with_kicker, self.royal_flush)
        &&& opt_le(self.four_2_4_with_kicker, self.royal_flush)
        &&& opt_le(self.four_aces_with_face, self.royal_flush)
        &&& opt_le(self.four_jqk_with_face, self.royal_flush)
        &&& self.four_deuces <= self.royal_flush
        &&& self.wild_royal <= self.royal_flush
        &&& self.five_of_a_kind <= self.royal_flush
    }

    /// A paytable with every quad bonus and wild rate left out.
    pub fn plain(
        family: Family,
        deck_size: u8,
        rates: [u32; 9],
        min_pair_rank: u8,
    ) -> (p: Paytable)
        ensures
            p == plain_rates(family, deck_size, rates@, min_pair_rank),
    {
        Paytable {
            family,
            deck_size,
            royal_flush: rates[0],
            straight_flush: rates[1],
            four_of_a_kind: rates[2],
            full_house: rates[3],
            flush: rates[4],
            straight: rates[5],
            three_of_a_kind: rates[6],
            two_pair: rates[7],
            high_pair: rates[8],
            min_pair_rank,
            four_aces: None,
            four_2_4: None,
            four_5_k: None,
            four_jqk: None,
            four_8s: None,
            four_7s: None,
            four_aces_with_kicker: None,
            four_2_4_with_kicker: None,
            four_aces_with_face: None,
            four_jqk_with_face: None,
            four_deuces: 0,
            wild_royal: 0,
            five_of_a_kind: 0,
        }
    }

    /// The built-in paytable of a game.
    pub fn for_game(g: GameType) -> (p: Paytable)
        ensures
            p == game_paytable(g),
            p.wf(),
    {
        match g {
            GameType::JacksOrBetter => {
                Paytable::plain(Family::Standard, 52, [800, 50, 25, 9, 6, 4, 3, 2, 1], 9)
            },
            GameType::DoubleDoubleBonus => {
                let mut p = Paytable::plain(Family::Standard, 52, [800, 50, 50, 9, 6, 4, 3, 1, 1], 9);
                p.four_aces = Some(160);
                p.four_2_4 = Some(80);
                p.four_5_k = Some(50);
                p.four_aces_with_kicker = Some(400);
                p.four_2_4_with_kicker = Some(160);
                p
            },
            GameType::DeucesWildNSUD => {
                let mut p = Paytable::plain(Family::DeucesWild, 52, [800, 9, 4, 4, 3, 2, 1, 0, 0], 0);
                p.four_deuces = 200;
                p.wild_royal = 25;
                p.five_of_a_kind = 15;
                p
            },
            GameType::DeucesWildFullPay => {
                let mut p = Paytable::plain(Family::DeucesWild, 52, [800, 9, 5, 3, 2, 2, 1, 0, 0], 0);
                p.four_deuces = 200;
                p.wild_royal = 25;
                p.five_of_a_kind = 15;
                p
            },
            GameType::BonusPoker85 => {
                let mut p = Paytable::plain(Family::Standard, 52, [800, 50, 25, 8, 5, 4, 3, 2, 1], 9);
                p.four_aces = Some(80);
                p.four_2_4 = Some(40);
                p.four_5_k = Some(25);
                p
            },
            GameType::DoubleBonus107 => {
                let mut p = Paytable::plain(Family::Standard, 52, [800, 50, 50, 10, 7, 5, 3, 1, 1], 9);
                p.four_aces = Some(160);
                p.four_2_4 = Some(80);
                p.four_5_k = Some(50);
                p
            },
            GameType::TripleDoubleBonus96 => {
                let mut p = Paytable::plain(Family::Standard, 52, [800, 50, 50, 9, 6, 4, 3, 1, 1], 9);
                p.four_aces = Some(160);
                p.four_2_4 = Some(80);
                p.four_5_k = Some(50);
                p.four_aces_with_kicker = Some(800);
                p.four_2_4_with_kicker = Some(160);
                p
            },
            GameType::AllAmerican => {
                Paytable::plain(Family::Standard, 52, [800, 50, 40, 8, 8, 8, 3, 1, 1], 9)
            },
            GameType::BonusPokerDeluxe86 => {
                Paytable::plain(Family::Standard, 52, [800, 50, 80, 8, 6, 4, 3, 1, 1], 9)
            },
            GameType::TensOrBetter65 => {
                Paytable::plain(Family::Standard, 52, [800, 50, 25, 9, 6, 4, 3, 2, 1], 8)
            },
        }
    }
}

/// Paytable with base rates `rates` (royal flush, straight flush, four of a
/// kind, full house, flush, straight, three of a kind, two pair, high pair)
/// and no quad bonus or wild rate.
pub open spec fn plain_rates(family: Family, deck_size: u8, rates: Seq<u32>, min_pair_rank: u8) -> Paytable {
    Paytable {
        family,
        deck_size,
        royal_flush: rates[0],
        straight_flush: rates[1],
        four_of_a_kind: rates[2],
        full_house: rates[3],
        flush: rates[4],
        straight: rates[5],
        three_of_a_kind: rates[6],
        two_pair: rates[7],
        high_pair: rates[8],
        min_pair_rank,
        four_aces: None,
        four_2_4: None,
        four_5_k: None,
        four_jqk: None,
        four_8s: None,
        four_7s: None,
        four_aces_with_kicker: None,
        four_2_4_with_kicker: None,
        four_aces_with_face: None,
        four_jqk_with_face: None,
        four_deuces: 0,
        wild_royal: 0,
        five_of_a_kind: 0,
    }
}

/// The games with a built-in paytable.
#[derive(Clone, Copy, Debug, PartialEq, Eq, Structural)]
pub enum GameType {
    JacksOrBetter,
    DoubleDoubleBonus,
    /// Not So Ugly Deuces: 25-15-9-4-4-3-2-1.
    DeucesWildNSUD,
    /// Full Pay Deuces: 25-15-9-5-3-2-2-1.
    DeucesWildFullPay,
    BonusPoker85,
    DoubleBonus107,
    TripleDoubleBonus96,
    /// All American: 8-8-8-3-1-1.
    AllAmerican,
    BonusPokerDeluxe86,
    TensOrBetter65,
}

pub open spec fn game_paytable(g: GameType) -> Paytable {
    match g {
        GameType::JacksOrBetter => plain_rates(Family::Standard, 52, seq![800, 50, 25, 9, 6, 4, 3, 2, 1], 9),
        GameType::DoubleDoubleBonus => Paytable {
            four_aces: Some(160u32),
            four_2_4: Some(80u32),
            four_5_k: Some(50u32),
            four_aces_with_kicker: Some(400u32),
            four_2_4_with_kicker: Some(160u32),
            ..plain_rates(Family::Standard, 52, seq![800, 50, 50, 9, 6, 4, 3, 1, 1], 9)
        },
        GameType::DeucesWildNSUD => Paytable {
            four_deuces: 200,
            wild_royal: 25,
            five_of_a_kind: 15,
            ..plain_rates(Family::DeucesWild, 52, seq![800, 9, 4, 4, 3, 2, 1, 0, 0], 0)
        },
        GameType::DeucesWildFullPay => Paytable {
            four_deuces: 200,
            wild_royal: 25,
            five_of_a_kind: 15,
            ..plain_rates(Family::DeucesWild, 52, seq![800, 9, 5, 3, 2, 2, 1, 0, 0], 0)
        },
        GameType::BonusPoker85 => Paytable {
            four_aces: Some(80u32),
            four_2_4: Some(40u32),
            four_5_k: Some(25u32),
            ..plain_rates(Family::Standard, 52, seq![800, 50, 25, 8, 5, 4, 3, 2, 1], 9)
        },
        GameType::DoubleBonus107 => Paytable {
            four_aces: Some(160u32),
            four_2_4: Some(80u32),
            four_5_k: Some(50u32),
            ..plain_rates(Family::Standard, 52, seq![800, 50, 50, 10, 7, 5, 3, 1, 1], 9)
        },
        GameType::TripleDoubleBonus96 => Paytable {
            four_aces: Some(160u32),
            four_2_4: Some(80u32),
            four_5_k: Some(50u32),
            four_aces_with_kicker: Some(800u32),
            four_2_4_with_kicker: Some(160u32),
            ..plain_rates(Family::Standard, 52, seq![800, 50, 50, 9, 6, 4, 3, 1, 1], 9)
        },
        GameType::AllAmerican => plain_rates(Family::Standard, 52, seq![800, 50, 40, 8, 8, 8, 3, 1, 1], 9),
        GameType::BonusPokerDeluxe86 => plain_rates(Family::Standard, 52, seq![800, 50, 80, 8, 6, 4, 3, 1, 1], 9),
        GameType::TensOrBetter65 => plain_rates(Family::Standard, 52, seq![800, 50, 25, 9, 6, 4, 3, 2, 1], 8),
    }
}

} // verus!
