use rust_wasm::boundary::{
    from_wasm_maybe_card, from_wasm_table, to_wasm_card, to_wasm_solution, Card, MaybeCard, Table,
};
use rust_wasm::types;
use rust_wasm::types::{Rank, SolveError, Suit};

fn wc(rank: &str, suit: &str) -> MaybeCard {
    MaybeCard::new(Some(Card::new(rank.to_owned(), suit.to_owned())))
}

#[test]
fn parses_every_rank_and_suit_token() {
    let tokens = vec![
        ("2", Rank::N2),
        ("3", Rank::N3),
        ("4", Rank::N4),
        ("5", Rank::N5),
        ("6", Rank::N6),
        ("7", Rank::N7),
        ("8", Rank::N8),
        ("9", Rank::N9),
        ("10", Rank::N10),
        ("J", Rank::J),
        ("Q", Rank::Q),
        ("K", Rank::K),
        ("A", Rank::A),
    ];
    for (token, rank) in tokens {
        let parsed = from_wasm_maybe_card(&wc(token, "h")).unwrap().unwrap();
        assert_eq!(parsed, types::Card { rank, suit: Suit::Hearts });
    }
    let suits = vec![
        ("h", Suit::Hearts),
        ("d", Suit::Diamonds),
        ("s", Suit::Spades),
        ("c", Suit::Clubs),
    ];
    for (token, suit) in suits {
        let parsed = from_wasm_maybe_card(&wc("A", token)).unwrap().unwrap();
        assert_eq!(parsed, types::Card { rank: Rank::A, suit });
    }
}

#[test]
fn empty_slot_parses_to_none() {
    let parsed = from_wasm_maybe_card(&MaybeCard::new(None)).unwrap();
    assert_eq!(parsed, None);
}

#[test]
fn unrecognized_rank_is_reported() {
    let result = from_wasm_maybe_card(&wc("X", "h"));
    assert_eq!(result, Err(SolveError::UnrecognizedRank("X".to_owned())));
}

#[test]
fn unrecognized_suit_is_reported() {
    let result = from_wasm_maybe_card(&wc("A", "x"));
    assert_eq!(result, Err(SolveError::UnrecognizedSuit("x".to_owned())));
}

#[test]
fn blank_hand_card_is_reported() {
    let table = Table::new(
        vec![wc("A", "s"), MaybeCard::new(None)],
        vec![
            MaybeCard::new(None),
            MaybeCard::new(None),
            MaybeCard::new(None),
            MaybeCard::new(None),
            MaybeCard::new(None),
        ],
    );
    let result = from_wasm_table(&table);
    assert_eq!(result.unwrap_err(), SolveError::BlankHandCard);
}

#[test]
fn table_converts_hand_and_board() {
    let table = Table::new(
        vec![wc("A", "s"), wc("10", "d")],
        vec![
            wc("Q", "c"),
            MaybeCard::new(None),
            wc("2", "h"),
            MaybeCard::new(None),
            MaybeCard::new(None),
        ],
    );
    let converted = from_wasm_table(&table).unwrap();
    assert_eq!(
        converted.hand,
        vec![
            types::Card { rank: Rank::A, suit: Suit::Spades },
            types::Card { rank: Rank::N10, suit: Suit::Diamonds },
        ]
    );
    assert_eq!(
        converted.board,
        vec![
            Some(types::Card { rank: Rank::Q, suit: Suit::Clubs }),
            None,
            Some(types::Card { rank: Rank::N2, suit: Suit::Hearts }),
            None,
            None,
        ]
    );
}

#[test]
fn card_tokens_round_trip() {
    let card = types::Card { rank: Rank::N10, suit: Suit::Clubs };
    let out = to_wasm_card(&card);
    assert_eq!(out.rank, "10".to_owned());
    assert_eq!(out.suit, "c".to_owned());
    let back = from_wasm_maybe_card(&MaybeCard::new(Some(out))).unwrap().unwrap();
    assert_eq!(back, card);
}

#[test]
fn solution_converts_counts_and_cards() {
    let sol = types::Solution {
        hands: vec![types::HandSolution {
            hand: vec![
                types::Card { rank: Rank::K, suit: Suit::Diamonds },
                types::Card { rank: Rank::N3, suit: Suit::Spades },
            ],
            beats_me_count: 7,
            is_beaten_count: 11,
        }],
        board_possibilities: 990,
        win_count: 1,
        lose_count: 0,
    };
    let out = to_wasm_solution(&sol);
    assert_eq!(out.board_possibilities, 990);
    assert_eq!(out.win_count, 1);
    assert_eq!(out.lose_count, 0);
    assert_eq!(out.hands.len(), 1);
    assert_eq!(out.hands[0].beats_me_count, 7);
    assert_eq!(out.hands[0].is_beaten_count, 11);
    assert_eq!(out.hands[0].hand[0].rank, "K".to_owned());
    assert_eq!(out.hands[0].hand[0].suit, "d".to_owned());
    assert_eq!(out.hands[0].hand[1].rank, "3".to_owned());
    assert_eq!(out.hands[0].hand[1].suit, "s".to_owned());
}

#[test]
fn error_messages_name_their_cause() {
    assert_eq!(
        SolveError::Cancelled.message(),
        "solve operation cancelled".to_owned()
    );
    assert_eq!(
        SolveError::BlankHandCard.message(),
        "hand cards must all be set, got blank".to_owned()
    );
    assert_eq!(
        SolveError::PreflopLoadFailure("no such file".to_owned()).message(),
        "no such file".to_owned()
    );

}
