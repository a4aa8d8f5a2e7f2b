//! Exact expected-value solver for five-card draw video poker: a card model,
//! a paytable-driven hand evaluator, a canonical-hand enumerator, an exact
//! hold-EV calculator and the binary strategy-table encoders.

pub mod canonical;
pub mod card;
pub mod classes;
pub mod encode;
pub mod evaluate;
pub mod ev;
pub mod paytable;
pub mod strategy;

pub use canonical::{canonical_key, generate_canonical_hands, CanonicalHand};
pub use card::{card_rank, card_suit, complement, deck, parse_hand, rank_char, MAX_DECK, RANKED_CARDS};
pub use classes::{
    is_dominated, is_inside_straight_draw, is_outside_straight_draw, is_straight_ranks,
    generate_suit_patterns, generate_suits_recursive, sf_draw_gaps_and_highs, sf_draw_type,
    CanonicalSuit, HandClass, Rank,
};
pub use encode::{encode_best, encode_full, StrategyEntry, KEY_LEN};
pub use ev::{analyze_hand, binomial, hold_ev, Decision, HoldEv};
pub use evaluate::payout;
pub use paytable::{Family, GameType, Paytable, MAX_PAYOUT};
pub use strategy::strategy_entry;
pub mod analysis;
