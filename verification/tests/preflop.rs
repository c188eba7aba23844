use rust_wasm::preflop::{get_precalculated_solution, preflop_representatives};
use rust_wasm::signal::AbortSignal;
use rust_wasm::solve::solve;
use rust_wasm::types::{
    Card, HandSolution, PrecalculatedSolution, Rank, Solution, SolveError, Suit, Table,
};

fn c(rank: Rank, suit: Suit) -> Card {
    Card { rank, suit }
}

fn fake_entry() -> PrecalculatedSolution {
    // A stored entry for the pair-of-aces representative, with one
    // opponent hand that shows all four suits.
    PrecalculatedSolution {
        my_hand: vec![c(Rank::A, Suit::Hearts), c(Rank::A, Suit::Diamonds)],
        solution: Solution {
            hands: vec![HandSolution {
                hand: vec![
                    c(Rank::K, Suit::Hearts),
                    c(Rank::K, Suit::Diamonds),
                    c(Rank::K, Suit::Spades),
                    c(Rank::K, Suit::Clubs),
                ],
                beats_me_count: 17,
                is_beaten_count: 23,
            }],
            board_possibilities: 1712304,
            win_count: 1,
            lose_count: 0,
        },
    }
}

#[test]
fn representatives_count_and_shape() {
    let reps = preflop_representatives();
    assert_eq!(reps.len(), 169);
    let mut suited = 0;
    let mut pairs = 0;
    let mut offsuit = 0;
    for r in reps.iter() {
        assert_eq!(r.len(), 2);
        assert_eq!(r[0].suit, Suit::Hearts);
        if r[1].suit == Suit::Hearts {
            assert_ne!(r[0].rank, r[1].rank);
            suited += 1;
        } else {
            assert_eq!(r[1].suit, Suit::Diamonds);
            if r[0].rank == r[1].rank {
                pairs += 1;
            } else {
                offsuit += 1;
            }
        }
    }
    assert_eq!(suited, 78);
    assert_eq!(offsuit, 78);
    assert_eq!(pairs, 13);
}

#[test]
fn preflop_isomorphism_remaps_suits() {
    // Input hand aces of spades and diamonds looks up the representative
    // aces of hearts and diamonds; hearts maps to spades, diamonds stays,
    // and the two unused suits spades and clubs map to hearts and clubs.
    let entries = vec![fake_entry()];
    let hand = vec![c(Rank::A, Suit::Spades), c(Rank::A, Suit::Diamonds)];
    let result = get_precalculated_solution(&hand, &entries).unwrap();
    assert_eq!(result.board_possibilities, 1712304);
    assert_eq!(result.win_count, 1);
    assert_eq!(result.lose_count, 0);
    assert_eq!(result.hands.len(), 1);
    let h = &result.hands[0];
    assert_eq!(h.beats_me_count, 17);
    assert_eq!(h.is_beaten_count, 23);
    assert_eq!(
        h.hand,
        vec![
            c(Rank::K, Suit::Spades),
            c(Rank::K, Suit::Diamonds),
            c(Rank::K, Suit::Hearts),
            c(Rank::K, Suit::Clubs),
        ]
    );
}

#[test]
fn preflop_suited_hand_keeps_its_suit_everywhere_hearts_was() {
    // A suited input: both representative hearts map to the input's suit.
    let entry = PrecalculatedSolution {
        my_hand: vec![c(Rank::K, Suit::Hearts), c(Rank::Q, Suit::Hearts)],
        solution: Solution {
            hands: vec![HandSolution {
                hand: vec![c(Rank::N2, Suit::Hearts), c(Rank::N3, Suit::Diamonds)],
                beats_me_count: 4,
                is_beaten_count: 5,
            }],
            board_possibilities: 9,
            win_count: 1,
            lose_count: 0,
        },
    };
    let entries = vec![entry];
    let hand = vec![c(Rank::K, Suit::Clubs), c(Rank::Q, Suit::Clubs)];
    let result = get_precalculated_solution(&hand, &entries).unwrap();
    // Hearts maps to clubs; the unused suits hearts, diamonds and spades
    // take the remaining representative suits diamonds, spades, clubs in
    // enum order.
    assert_eq!(
        result.hands[0].hand,
        vec![c(Rank::N2, Suit::Clubs), c(Rank::N3, Suit::Hearts)]
    );
}

#[test]
fn preflop_lookup_without_match_fails() {
    let entries = vec![fake_entry()];
    let hand = vec![c(Rank::K, Suit::Spades), c(Rank::Q, Suit::Diamonds)];
    let result = get_precalculated_solution(&hand, &entries);
    assert_eq!(result.unwrap_err(), SolveError::PreflopNoMatch(hand));
}

#[test]
fn solve_takes_preflop_path_on_empty_board() {
    let signal = AbortSignal::new();
    let entries = vec![fake_entry()];
    let table = Table {
        hand: vec![c(Rank::A, Suit::Spades), c(Rank::A, Suit::Diamonds)],
        board: vec![None, None, None, None, None],
    };
    let result = solve(&signal, &table, &entries).unwrap();
    assert_eq!(result.board_possibilities, 1712304);
    assert_eq!(result.hands.len(), 1);
}
