use rust_wasm::evaluator::EvalCache;
use rust_wasm::signal::AbortSignal;
use rust_wasm::solve::{full_deck, n_choose_m, solve, solve_with_deck};
use rust_wasm::types::{Card, Rank, Solution, SolveError, Suit, Table};

fn c(rank: Rank, suit: Suit) -> Card {
    Card { rank, suit }
}

fn reduced_deck() -> Vec<Card> {
    vec![
        c(Rank::N2, Suit::Hearts),
        c(Rank::N3, Suit::Hearts),
        c(Rank::N4, Suit::Hearts),
        c(Rank::N2, Suit::Spades),
        c(Rank::N3, Suit::Spades),
        c(Rank::N4, Suit::Spades),
        c(Rank::N2, Suit::Diamonds),
        c(Rank::N3, Suit::Diamonds),
        c(Rank::N4, Suit::Diamonds),
        c(Rank::N5, Suit::Clubs),
        c(Rank::N6, Suit::Clubs),
    ]
}

#[test]
fn n_choose_m_values() {
    assert_eq!(n_choose_m(4, 2), 6);
    assert_eq!(n_choose_m(45, 2), 990);
    assert_eq!(n_choose_m(47, 2), 1081);
    assert_eq!(n_choose_m(52, 5), 2598960);
    assert_eq!(n_choose_m(45, 0), 1);
    assert_eq!(n_choose_m(50, 2), 1225);
}

#[test]
fn full_deck_has_all_52_distinct_cards() {
    let deck = full_deck();
    assert_eq!(deck.len(), 52);
    for i in 0..52 {
        for j in 0..i {
            assert_ne!(deck[j], deck[i]);
        }
    }
}

#[test]
fn solve_with_reduced_deck() {
    let deck = reduced_deck();
    let table = Table {
        hand: vec![deck[0], deck[1]],
        board: vec![Some(deck[3]), Some(deck[4]), Some(deck[5]), None, None],
    };
    let mut cache = EvalCache::new();
    let result = solve_with_deck(&table, &deck, &mut cache).unwrap();
    // From 11 deck cards, 2 are mine, 2 the opponent's, 3 on the board:
    // 4 remain for the 2 empty slots, C(4, 2) = 6.
    assert_eq!(result.board_possibilities, 6);
    // The opponent chooses 2 of the 6 remaining cards: C(6, 2) = 15.
    assert_eq!(result.hands.len(), 15);
    // Aggregate counts count hands, split by the sign of the difference.
    let wins = result
        .hands
        .iter()
        .filter(|h| h.beats_me_count < h.is_beaten_count)
        .count() as u64;
    let loses = result
        .hands
        .iter()
        .filter(|h| h.beats_me_count > h.is_beaten_count)
        .count() as u64;
    assert_eq!(result.win_count, wins);
    assert_eq!(result.lose_count, loses);
    // No hand sees more outcomes than there are board completions.
    for h in result.hands.iter() {
        assert!(h.beats_me_count + h.is_beaten_count <= result.board_possibilities);
    }
}

fn assert_royal_straight_always_wins(result: &Solution) {
    // Nothing beats a royal straight flush; it beats every hand on every
    // board completion.
    for h in result.hands.iter().take(result.hands.len() - 1) {
        assert_eq!(h.beats_me_count, 0);
        assert_eq!(h.is_beaten_count, result.board_possibilities);
    }
}

#[test]
fn solve_flop_royal_straight() {
    let deck = full_deck();
    let len = deck.len();
    let table = Table {
        hand: vec![deck[len - 1], deck[len - 2]],
        board: vec![
            Some(deck[len - 3]),
            Some(deck[len - 4]),
            Some(deck[len - 5]),
            None,
            None,
        ],
    };
    let mut cache = EvalCache::new();
    let result = solve_with_deck(&table, &deck, &mut cache).unwrap();
    // From 52 deck cards, 2 are mine, 2 the opponent's, 3 on the board:
    // 45 remain for the 2 empty slots, C(45, 2) = 990.
    assert_eq!(result.board_possibilities, 990);
    // The opponent chooses 2 of the 47 remaining cards: C(47, 2) = 1081.
    assert_eq!(result.hands.len(), 1081);
    assert_eq!(result.win_count, result.hands.len() as u64);
    assert_eq!(result.lose_count, 0);
    assert_royal_straight_always_wins(&result);
}

#[test]
fn solve_turn_royal_straight() {
    let deck = full_deck();
    let len = deck.len();
    let table = Table {
        hand: vec![deck[len - 1], deck[len - 2]],
        board: vec![
            Some(deck[len - 3]),
            Some(deck[len - 4]),
            Some(deck[len - 5]),
            Some(deck[0]),
            Some(deck[1]),
        ],
    };
    let mut cache = EvalCache::new();
    let result = solve_with_deck(&table, &deck, &mut cache).unwrap();
    assert_eq!(result.board_possibilities, 1);
    assert_eq!(result.win_count, result.hands.len() as u64);
    assert_eq!(result.lose_count, 0);
    assert_royal_straight_always_wins(&result);
}

#[test]
fn duplicate_card_is_rejected() {
    let deck = full_deck();
    let dup = c(Rank::A, Suit::Clubs);
    let table = Table {
        hand: vec![dup, c(Rank::K, Suit::Clubs)],
        board: vec![Some(dup), Some(c(Rank::N2, Suit::Hearts)), None, None, None],
    };
    let mut cache = EvalCache::new();
    let result = solve_with_deck(&table, &deck, &mut cache);
    assert_eq!(result.unwrap_err(), SolveError::DuplicateCard(dup));
}

#[test]
fn unknown_card_is_rejected() {
    // A reduced deck without the ace of clubs: using it is an error.
    let deck = reduced_deck();
    let stranger = c(Rank::A, Suit::Clubs);
    let table = Table {
        hand: vec![c(Rank::N2, Suit::Hearts), c(Rank::N3, Suit::Hearts)],
        board: vec![
            Some(c(Rank::N2, Suit::Spades)),
            Some(stranger),
            Some(c(Rank::N4, Suit::Spades)),
            None,
            None,
        ],
    };
    let mut cache = EvalCache::new();
    let result = solve_with_deck(&table, &deck, &mut cache);
    assert_eq!(result.unwrap_err(), SolveError::UnknownCard(stranger));
}

#[test]
fn cancellation_yields_cancelled_error() {
    let signal = AbortSignal::new();
    signal.abort();
    assert!(signal.aborted());
    let deck = full_deck();
    let table = Table {
        hand: vec![deck[51], deck[50]],
        board: vec![Some(deck[49]), Some(deck[48]), Some(deck[47]), None, None],
    };
    let precalculated = Vec::new();
    let result = solve(&signal, &table, &precalculated);
    assert_eq!(result.unwrap_err(), SolveError::Cancelled);
}

#[test]
fn solve_dispatches_to_enumeration_when_board_partly_known() {
    // A river table: all five board cards fixed, one evaluation per
    // candidate hand.
    let signal = AbortSignal::new();
    let deck = full_deck();
    let table = Table {
        hand: vec![deck[51], deck[50]],
        board: vec![
            Some(deck[49]),
            Some(deck[48]),
            Some(deck[47]),
            Some(deck[0]),
            Some(deck[1]),
        ],
    };
    let precalculated = Vec::new();
    let result = solve(&signal, &table, &precalculated).unwrap();
    assert_eq!(result.board_possibilities, 1);
    // 52 cards minus the 7 fixed ones leave 45: C(45, 2) = 990 hands.
    assert_eq!(result.hands.len(), 990);
    assert_eq!(result.win_count, 990);
}
