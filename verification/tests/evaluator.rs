use rust_wasm::evaluator::{best_combination, reduce_card_set, EvalCache};
use rust_wasm::types::{Card, Combination, Rank, Suit};

fn c(rank: Rank, suit: Suit) -> Card {
    Card { rank, suit }
}

fn eval(cards: &[Card]) -> u64 {
    let mut cache = EvalCache::new();
    best_combination(cards, &mut cache)
}

#[test]
fn best_combination_matches() {
    let cases: Vec<(Vec<Card>, Combination)> = vec![
        (
            vec![
                c(Rank::N2, Suit::Hearts),
                c(Rank::N4, Suit::Hearts),
                c(Rank::N6, Suit::Hearts),
                c(Rank::N8, Suit::Hearts),
                c(Rank::N10, Suit::Diamonds),
                c(Rank::Q, Suit::Diamonds),
                c(Rank::N3, Suit::Diamonds),
            ],
            Combination::HighCard(Rank::Q, Rank::N10, Rank::N8, Rank::N6, Rank::N4),
        ),
        (
            vec![
                c(Rank::N2, Suit::Hearts),
                c(Rank::N4, Suit::Hearts),
                c(Rank::N6, Suit::Hearts),
                c(Rank::N8, Suit::Hearts),
                c(Rank::N2, Suit::Diamonds),
                c(Rank::Q, Suit::Diamonds),
                c(Rank::N3, Suit::Diamonds),
            ],
            Combination::Pair(Rank::N2, Rank::Q, Rank::N8, Rank::N6),
        ),
        (
            vec![
                c(Rank::N2, Suit::Hearts),
                c(Rank::N4, Suit::Hearts),
                c(Rank::N6, Suit::Hearts),
                c(Rank::N8, Suit::Hearts),
                c(Rank::N2, Suit::Diamonds),
                c(Rank::Q, Suit::Diamonds),
                c(Rank::N4, Suit::Diamonds),
            ],
            Combination::TwoPairs(Rank::N4, Rank::N2, Rank::Q),
        ),
        (
            vec![
                c(Rank::N2, Suit::Hearts),
                c(Rank::N4, Suit::Hearts),
                c(Rank::N6, Suit::Hearts),
                c(Rank::N8, Suit::Hearts),
                c(Rank::N4, Suit::Spades),
                c(Rank::Q, Suit::Diamonds),
                c(Rank::N4, Suit::Diamonds),
            ],
            Combination::ThreeOfAKind(Rank::N4, Rank::Q, Rank::N8),
        ),
        (
            vec![
                c(Rank::N2, Suit::Hearts),
                c(Rank::N4, Suit::Hearts),
                c(Rank::N3, Suit::Hearts),
                c(Rank::N5, Suit::Hearts),
                c(Rank::N8, Suit::Spades),
                c(Rank::Q, Suit::Diamonds),
                c(Rank::N6, Suit::Diamonds),
            ],
            Combination::Straight(Rank::N6),
        ),
        (
            vec![
                c(Rank::N2, Suit::Hearts),
                c(Rank::N4, Suit::Hearts),
                c(Rank::N3, Suit::Hearts),
                c(Rank::N5, Suit::Hearts),
                c(Rank::N8, Suit::Spades),
                c(Rank::Q, Suit::Hearts),
                c(Rank::N7, Suit::Diamonds),
            ],
            Combination::Flush(Rank::Q, Rank::N5, Rank::N4, Rank::N3, Rank::N2),
        ),
        (
            vec![
                c(Rank::N2, Suit::Hearts),
                c(Rank::N4, Suit::Hearts),
                c(Rank::N3, Suit::Hearts),
                c(Rank::Q, Suit::Diamonds),
                c(Rank::N2, Suit::Spades),
                c(Rank::Q, Suit::Hearts),
                c(Rank::N2, Suit::Diamonds),
            ],
            Combination::FullHouse(Rank::N2, Rank::Q),
        ),
        (
            vec![
                c(Rank::N2, Suit::Hearts),
                c(Rank::N4, Suit::Hearts),
                c(Rank::N2, Suit::Clubs),
                c(Rank::Q, Suit::Diamonds),
                c(Rank::N2, Suit::Spades),
                c(Rank::Q, Suit::Hearts),
                c(Rank::N2, Suit::Diamonds),
            ],
            Combination::FourOfAKind(Rank::N2, Rank::Q),
        ),
        (
            vec![
                c(Rank::N8, Suit::Hearts),
                c(Rank::N7, Suit::Hearts),
                c(Rank::N6, Suit::Clubs),
                c(Rank::N5, Suit::Clubs),
                c(Rank::N4, Suit::Clubs),
                c(Rank::N3, Suit::Clubs),
                c(Rank::N2, Suit::Clubs),
            ],
            Combination::StraightFlush(Rank::N6),
        ),
    ];
    for (cards, expected) in cases {
        let result = eval(&cards);
        assert_eq!(result, expected.score());
    }
}

#[test]
fn default_cmp_matches() {
    let less = Combination::HighCard(Rank::J, Rank::N10, Rank::N8, Rank::N6, Rank::N4);
    let more = Combination::HighCard(Rank::Q, Rank::N10, Rank::N8, Rank::N6, Rank::N4);
    assert!(less.score() < more.score());

    let less = Combination::HighCard(Rank::Q, Rank::N10, Rank::N8, Rank::N6, Rank::N3);
    let more = Combination::HighCard(Rank::Q, Rank::N10, Rank::N8, Rank::N6, Rank::N4);
    assert!(less.score() < more.score());

    let same_a = Combination::HighCard(Rank::Q, Rank::N10, Rank::N8, Rank::N6, Rank::N3);
    let same_b = Combination::HighCard(Rank::Q, Rank::N10, Rank::N8, Rank::N6, Rank::N3);
    assert_eq!(same_a.score(), same_b.score());

    let high = Combination::HighCard(Rank::Q, Rank::N10, Rank::N8, Rank::N6, Rank::N3);
    let pair = Combination::Pair(Rank::N2, Rank::N10, Rank::N8, Rank::N6);
    assert!(high.score() < pair.score());
}

#[test]
fn score_is_invariant_under_non_flush_suit_permutation() {
    // No suit reaches five cards, so every suit is a non-flush suit and
    // recoloring the cards must not change the score.
    let base = vec![
        c(Rank::N2, Suit::Hearts),
        c(Rank::N4, Suit::Diamonds),
        c(Rank::N6, Suit::Hearts),
        c(Rank::N8, Suit::Spades),
        c(Rank::N10, Suit::Diamonds),
        c(Rank::Q, Suit::Diamonds),
        c(Rank::N3, Suit::Clubs),
    ];
    let recolored = vec![
        c(Rank::N2, Suit::Clubs),
        c(Rank::N4, Suit::Spades),
        c(Rank::N6, Suit::Clubs),
        c(Rank::N8, Suit::Hearts),
        c(Rank::N10, Suit::Spades),
        c(Rank::Q, Suit::Spades),
        c(Rank::N3, Suit::Diamonds),
    ];
    assert_eq!(eval(&base), eval(&recolored));
}

#[test]
fn score_is_invariant_with_flush_suit_fixed() {
    // Five hearts fix the flush suit; permuting the other suits must not
    // change the score.
    let base = vec![
        c(Rank::N2, Suit::Hearts),
        c(Rank::N4, Suit::Hearts),
        c(Rank::N6, Suit::Hearts),
        c(Rank::N8, Suit::Hearts),
        c(Rank::Q, Suit::Hearts),
        c(Rank::A, Suit::Diamonds),
        c(Rank::K, Suit::Spades),
    ];
    let recolored = vec![
        c(Rank::N2, Suit::Hearts),
        c(Rank::N4, Suit::Hearts),
        c(Rank::N6, Suit::Hearts),
        c(Rank::N8, Suit::Hearts),
        c(Rank::Q, Suit::Hearts),
        c(Rank::A, Suit::Clubs),
        c(Rank::K, Suit::Diamonds),
    ];
    assert_eq!(eval(&base), eval(&recolored));
}

#[test]
fn reduce_marks_flush_cards_and_sorts_descending() {
    let cards = vec![
        c(Rank::N2, Suit::Clubs),
        c(Rank::A, Suit::Hearts),
        c(Rank::N5, Suit::Clubs),
        c(Rank::N9, Suit::Clubs),
        c(Rank::J, Suit::Clubs),
        c(Rank::N3, Suit::Clubs),
        c(Rank::K, Suit::Diamonds),
    ];
    let reduced = reduce_card_set(&cards);
    assert_eq!(reduced.len(), 7);
    // The five clubs come first, ranks descending, then the non-flush
    // cards by rank descending.
    assert!(reduced[0].is_flush && reduced[0].rank == Rank::J);
    assert!(reduced[1].is_flush && reduced[1].rank == Rank::N9);
    assert!(reduced[2].is_flush && reduced[2].rank == Rank::N5);
    assert!(reduced[3].is_flush && reduced[3].rank == Rank::N3);
    assert!(reduced[4].is_flush && reduced[4].rank == Rank::N2);
    assert!(!reduced[5].is_flush && reduced[5].rank == Rank::A);
    assert!(!reduced[6].is_flush && reduced[6].rank == Rank::K);
}

#[test]
fn five_and_six_card_sets_evaluate() {
    // The evaluator accepts five to seven cards.
    let five = vec![
        c(Rank::N6, Suit::Clubs),
        c(Rank::N5, Suit::Clubs),
        c(Rank::N4, Suit::Clubs),
        c(Rank::N3, Suit::Clubs),
        c(Rank::N2, Suit::Clubs),
    ];
    assert_eq!(eval(&five), Combination::StraightFlush(Rank::N6).score());
    let six = vec![
        c(Rank::A, Suit::Hearts),
        c(Rank::A, Suit::Diamonds),
        c(Rank::K, Suit::Spades),
        c(Rank::Q, Suit::Clubs),
        c(Rank::N2, Suit::Hearts),
        c(Rank::N3, Suit::Diamonds),
    ];
    assert_eq!(
        eval(&six),
        Combination::Pair(Rank::A, Rank::K, Rank::Q, Rank::N3).score()
    );
}

#[test]
fn cache_returns_same_score_on_repeat() {
    let cards = vec![
        c(Rank::N2, Suit::Hearts),
        c(Rank::N4, Suit::Hearts),
        c(Rank::N6, Suit::Hearts),
        c(Rank::N8, Suit::Hearts),
        c(Rank::N10, Suit::Diamonds),
        c(Rank::Q, Suit::Diamonds),
        c(Rank::N3, Suit::Diamonds),
    ];
    let mut cache = EvalCache::new();
    let first = best_combination(&cards, &mut cache);
    let second = best_combination(&cards, &mut cache);
    assert_eq!(first, second);
}

#[test]
fn score_formula_exact_values() {
    // class * 13^6 plus the rank ordinals weighted by 13^5 .. 13^1.
    assert_eq!(
        Combination::HighCard(Rank::Q, Rank::N10, Rank::N8, Rank::N6, Rank::N4).score(),
        10 * 371293 + 8 * 28561 + 6 * 2197 + 4 * 169 + 2 * 13
    );
    assert_eq!(
        Combination::Straight(Rank::N6).score(),
        4 * 4826809 + 4 * 371293
    );
    assert_eq!(
        Combination::StraightFlush(Rank::A).score(),
        8 * 4826809 + 12 * 371293
    );
}
