//! The outward data shape: cards tagged with rank and suit strings, and
//! the conversions between that shape and the core types. Unknown tokens
//! and blank hole cards are rejected here.

use vstd::prelude::*;
use crate::types;
use crate::types::{
    PrecalculatedSolution, Rank, SolveError, Suit, rank_token, rank_token_str, suit_token,
    suit_token_str,
};
use crate::signal::AbortSignal;
use crate::solve::{
    board_empty_count, lemma_board_partition, solution_correct, spec_full_deck, spec_used,
    valid_input,
};
use crate::preflop::{preflop_absent, preflop_found};

verus! {

/// A card at the boundary: rank and suit as string tokens.
#[derive(Debug, Clone)]
pub struct Card {
    pub rank: String,
    pub suit: String,
}

impl Card {
    /// A card from its two tokens.
    pub fn new(rank: String, suit: String) -> (c: Card)
        ensures
            c.rank == rank,
            c.suit == suit,
    {
        Card { rank, suit }
    }
}

/// A board or hand slot at the boundary: a card, or empty.
#[derive(Debug, Clone)]
pub struct MaybeCard(pub Option<Card>);

impl MaybeCard {
    /// A slot from an optional card.
    pub fn new(card: Option<Card>) -> (m: MaybeCard)
        ensures
            m.0 == card,
    {
        MaybeCard(card)
    }
}

/// A table at the boundary: hole-card slots and board slots.
#[derive(Debug, Clone)]
pub struct Table {
    pub hand: Vec<MaybeCard>,
    pub board: Vec<MaybeCard>,
}

impl Table {
    /// A table from its slots.
    pub fn new(hand: Vec<MaybeCard>, board: Vec<MaybeCard>) -> (t: Table)
        ensures
            t.hand == hand,
            t.board == board,
    {
        Table { hand, board }
    }
}

/// A per-candidate result at the boundary.
#[derive(Debug, Clone)]
pub struct HandSolution {
    pub hand: Vec<Card>,
    pub beats_me_count: u64,
    pub is_beaten_count: u64,
}

/// A full solve result at the boundary.
#[derive(Debug, Clone)]
pub struct Solution {
    pub hands: Vec<HandSolution>,
    pub board_possibilities: u64,
    pub win_count: u64,
    pub lose_count: u64,
}

/// The rank a token names, if any.
pub open spec fn parse_rank_spec(s: Seq<char>) -> Option<Rank> {
    if s == "2"@ {
        Option::Some(Rank::N2)
    } else if s == "3"@ {
        Option::Some(Rank::N3)
    } else if s == "4"@ {
        Option::Some(Rank::N4)
    } else if s == "5"@ {
        Option::Some(Rank::N5)
    } else if s == "6"@ {
        Option::Some(Rank::N6)
    } else if s == "7"@ {
        Option::Some(Rank::N7)
    } else if s == "8"@ {
        Option::Some(Rank::N8)
    } else if s == "9"@ {
        Option::Some(Rank::N9)
    } else if s == "10"@ {
        Option::Some(Rank::N10)
    } else if s == "J"@ {
        Option::Some(Rank::J)
    } else if s == "Q"@ {
        Option::Some(Rank::Q)
    } else if s == "K"@ {
        Option::Some(Rank::K)
    } else if s == "A"@ {
        Option::Some(Rank::A)
    } else {
        Option::None
    }
}

/// The suit a token names, if any.
pub open spec fn parse_suit_spec(s: Seq<char>) -> Option<Suit> {
    if s == "h"@ {
        Option::Some(Suit::Hearts)
    } else if s == "d"@ {
        Option::Some(Suit::Diamonds)
    } else if s == "s"@ {
        Option::Some(Suit::Spades)
    } else if s == "c"@ {
        Option::Some(Suit::Clubs)
    } else {
        Option::None
    }
}

/// What converting one boundary slot yields: an empty slot stays empty, a
/// card parses or fails on its first bad token.
pub open spec fn convert_maybe(m: MaybeCard) -> Result<Option<types::Card>, SolveError> {
    match m.0 {
        Option::None => Result::Ok(Option::None),
        Option::Some(c) => match parse_rank_spec(c.rank@) {
            Option::None => Result::Err(SolveError::UnrecognizedRank(c.rank)),
            Option::Some(r) => match parse_suit_spec(c.suit@) {
                Option::None => Result::Err(SolveError::UnrecognizedSuit(c.suit)),
                Option::Some(su) => Result::Ok(Option::Some(types::Card { rank: r, suit: su })),
            },
        },
    }
}

/// Converting the hole cards: every slot must hold a card and parse; the
/// first failure wins.
pub open spec fn convert_hand(cards: Seq<MaybeCard>) -> Result<Seq<types::Card>, SolveError>
    decreases cards.len(),
{
    if cards.len() == 0 {
        Result::Ok(Seq::empty())
    } else {
        match convert_maybe(cards.first()) {
            Result::Err(e) => Result::Err(e),
            Result::Ok(Option::None) => Result::Err(SolveError::BlankHandCard),
            Result::Ok(Option::Some(c)) => match convert_hand(cards.drop_first()) {
                Result::Err(e) => Result::Err(e),
                Result::Ok(rest) => Result::Ok(seq![c] + rest),
            },
        }
    }
}

/// Converting the board: empty slots stay empty; the first failure wins.
pub open spec fn convert_board(cards: Seq<MaybeCard>) -> Result<
    Seq<Option<types::Card>>,
    SolveError,
>
    decreases cards.len(),
{
    if cards.len() == 0 {
        Result::Ok(Seq::empty())
    } else {
        match convert_maybe(cards.first()) {
            Result::Err(e) => Result::Err(e),
            Result::Ok(c) => match convert_board(cards.drop_first()) {
                Result::Err(e) => Result::Err(e),
                Result::Ok(rest) => Result::Ok(seq![c] + rest),
            },
        }
    }
}

/// Parse a rank token.
fn parse_rank(s: &String) -> (r: Option<Rank>)
    ensures
        r == parse_rank_spec(s@),
{
    if *s == "2".to_owned() {
        Option::Some(Rank::N2)
    } else if *s == "3".to_owned() {
        Option::Some(Rank::N3)
    } else if *s == "4".to_owned() {
        Option::Some(Rank::N4)
    } else if *s == "5".to_owned() {
        Option::Some(Rank::N5)
    } else if *s == "6".to_owned() {
        Option::Some(Rank::N6)
    } else if *s == "7".to_owned() {
        Option::Some(Rank::N7)
    } else if *s == "8".to_owned() {
        Option::Some(Rank::N8)
    } else if *s == "9".to_owned() {
        Option::Some(Rank::N9)
    } else if *s == "10".to_owned() {
        Option::Some(Rank::N10)
    } else if *s == "J".to_owned() {
        Option::Some(Rank::J)
    } else if *s == "Q".to_owned() {
        Option::Some(Rank::Q)
    } else if *s == "K".to_owned() {
        Option::Some(Rank::K)
    } else if *s == "A".to_owned() {
        Option::Some(Rank::A)
    } else {
        Option::None
    }
}

/// Parse a suit token.
fn parse_suit(s: &String) -> (r: Option<Suit>)
    ensures
        r == parse_suit_spec(s@),
{
    if *s == "h".to_owned() {
        Option::Some(Suit::Hearts)
    } else if *s == "d".to_owned() {
        Option::Some(Suit::Diamonds)
    } else if *s == "s".to_owned() {
        Option::Some(Suit::Spades)
    } else if *s == "c".to_owned() {
        Option::Some(Suit::Clubs)
    } else {
        Option::None
    }
}

/// Convert one boundary slot to a core card, or report its bad token.
pub fn from_wasm_maybe_card(card: &MaybeCard) -> (res: Result<Option<types::Card>, SolveError>)
    ensures
        res == convert_maybe(*card),
{
    match &card.0 {
        Option::None => Result::Ok(Option::None),
        Option::Some(c) => {
            match parse_rank(&c.rank) {
                Option::None => Result::Err(SolveError::UnrecognizedRank(c.rank.clone())),
                Option::Some(r) => {
                    match parse_suit(&c.suit) {
                        Option::None => Result::Err(SolveError::UnrecognizedSuit(c.suit.clone())),
                        Option::Some(su) => Result::Ok(
                            Option::Some(types::Card { rank: r, suit: su }),
                        ),
                    }
                },
            }
        },
    }
}

/// Convert a boundary table to a core table: hole cards must all be set
/// and every token must parse; the hand is converted before the board and
/// the first failure wins.
pub fn from_wasm_table(table: &Table) -> (res: Result<types::Table, SolveError>)
    ensures
        convert_hand(table.hand@) is Err ==> res == Result::<types::Table, SolveError>::Err(
            convert_hand(table.hand@)->Err_0,
        ),
        convert_hand(table.hand@) is Ok && convert_board(table.board@) is Err ==> res == Result::<
            types::Table,
            SolveError,
        >::Err(convert_board(table.board@)->Err_0),
        convert_hand(table.hand@) is Ok && convert_board(table.board@) is Ok ==> res is Ok && (
        res->Ok_0).hand@ == convert_hand(table.hand@)->Ok_0 && (res->Ok_0).board@ == convert_board(
            table.board@,
        )->Ok_0,
{
    let ghost hs = table.hand@;
    let mut hand: Vec<types::Card> = Vec::new();
    let mut i: usize = 0;
    proof {
        assert(hs.skip(0) =~= hs);
        match convert_hand(hs.skip(0)) {
            Result::Ok(rest) => {
                assert(hand@ + rest =~= rest);
            },
            Result::Err(_) => {},
        }
    }
    while i < table.hand.len()
        invariant
            hs == table.hand@,
            0 <= i <= hs.len(),
            convert_hand(hs.skip(i as int)) is Ok ==> convert_hand(hs) == Result::<
                Seq<types::Card>,
                SolveError,
            >::Ok(hand@ + convert_hand(hs.skip(i as int))->Ok_0),
            convert_hand(hs.skip(i as int)) is Err ==> convert_hand(hs) == convert_hand(
                hs.skip(i as int),
            ),
        decreases hs.len() - i,
    {
        let ghost sub = hs.skip(i as int);
        proof {
            assert(sub.first() == hs[i as int]);
            assert(sub.drop_first() =~= hs.skip(i as int + 1));
        }
        let converted = from_wasm_maybe_card(&table.hand[i]);
        match converted {
            Result::Err(e) => {
                return Result::Err(e);
            },
            Result::Ok(Option::None) => {
                return Result::Err(SolveError::BlankHandCard);
            },
            Result::Ok(Option::Some(c)) => {
                proof {
                    assert(convert_maybe(hs[i as int]) == Result::<
                        Option<types::Card>,
                        SolveError,
                    >::Ok(Option::Some(c)));
                    assert(convert_hand(sub) == match convert_hand(hs.skip(i as int + 1)) {
                        Result::Err(e2) => Result::<Seq<types::Card>, SolveError>::Err(e2),
                        Result::Ok(rest) => Result::<Seq<types::Card>, SolveError>::Ok(
                            seq![c] + rest,
                        ),
                    });
                }
                let ghost oldh = hand@;
                hand.push(c);
                proof {
                    match convert_hand(hs.skip(i as int + 1)) {
                        Result::Ok(rest) => {
                            assert(hand@ =~= oldh + seq![c]);
                            assert(hand@ + rest =~= oldh + (seq![c] + rest));
                        },
                        Result::Err(_) => {},
                    }
                }
            },
        }
        i = i + 1;
    }
    proof {
        assert(convert_hand(hs.skip(hs.len() as int)) == Result::<Seq<types::Card>, SolveError>::Ok(
            Seq::empty(),
        ));
        assert(hand@ + Seq::<types::Card>::empty() =~= hand@);
    }
    let ghost bs = table.board@;
    let mut board: Vec<Option<types::Card>> = Vec::new();
    let mut b: usize = 0;
    proof {
        assert(bs.skip(0) =~= bs);
        match convert_board(bs.skip(0)) {
            Result::Ok(rest) => {
                assert(board@ + rest =~= rest);
            },
            Result::Err(_) => {},
        }
    }
    while b < table.board.len()
        invariant
            bs == table.board@,
            hs == table.hand@,
            convert_hand(hs) == Result::<Seq<types::Card>, SolveError>::Ok(hand@),
            0 <= b <= bs.len(),
            convert_board(bs.skip(b as int)) is Ok ==> convert_board(bs) == Result::<
                Seq<Option<types::Card>>,
                SolveError,
            >::Ok(board@ + convert_board(bs.skip(b as int))->Ok_0),
            convert_board(bs.skip(b as int)) is Err ==> convert_board(bs) == convert_board(
                bs.skip(b as int),
            ),
        decreases bs.len() - b,
    {
        let ghost sub = bs.skip(b as int);
        proof {
            assert(sub.first() == bs[b as int]);
            assert(sub.drop_first() =~= bs.skip(b as int + 1));
        }
        let converted = from_wasm_maybe_card(&table.board[b]);
        match converted {
            Result::Err(e) => {
                return Result::Err(e);
            },
            Result::Ok(c) => {
                proof {
                    assert(convert_maybe(bs[b as int]) == Result::<
                        Option<types::Card>,
                        SolveError,
                    >::Ok(c));
                    assert(convert_board(sub) == match convert_board(bs.skip(b as int + 1)) {
                        Result::Err(e2) => Result::<Seq<Option<types::Card>>, SolveError>::Err(e2),
                        Result::Ok(rest) => Result::<Seq<Option<types::Card>>, SolveError>::Ok(
                            seq![c] + rest,
                        ),
                    });
                }
                let ghost oldb = board@;
                board.push(c);
                proof {
                    match convert_board(bs.skip(b as int + 1)) {
                        Result::Ok(rest) => {
                            assert(board@ =~= oldb + seq![c]);
                            assert(board@ + rest =~= oldb + (seq![c] + rest));
                        },
                        Result::Err(_) => {},
                    }
                }
            },
        }
        b = b + 1;
    }
    proof {
        assert(convert_board(bs.skip(bs.len() as int)) == Result::<
            Seq<Option<types::Card>>,
            SolveError,
        >::Ok(Seq::empty()));
        assert(board@ + Seq::<Option<types::Card>>::empty() =~= board@);
    }
    Result::Ok(types::Table { hand, board })
}

/// A core card, as its two boundary tokens.
pub fn to_wasm_card(card: &types::Card) -> (res: Card)
    ensures
        res.rank@ == rank_token(card.rank),
        res.suit@ == suit_token(card.suit),
{
    Card { rank: rank_token_str(card.rank), suit: suit_token_str(card.suit) }
}

/// A core solution, with every card turned into its boundary tokens and
/// all counts copied unchanged.
pub fn to_wasm_solution(solution: &types::Solution) -> (res: Solution)
    ensures
        res.board_possibilities == solution.board_possibilities,
        res.win_count == solution.win_count,
        res.lose_count == solution.lose_count,
        res.hands@.len() == solution.hands@.len(),
        forall|t: int|
            0 <= t < res.hands@.len() ==> {
                let sh = solution.hands@[t];
                let nh = #[trigger] res.hands@[t];
                &&& nh.beats_me_count == sh.beats_me_count
                &&& nh.is_beaten_count == sh.is_beaten_count
                &&& nh.hand@.len() == sh.hand@.len()
                &&& forall|u: int|
                    0 <= u < nh.hand@.len() ==> (#[trigger] nh.hand@[u]).rank@ == rank_token(
                        sh.hand@[u].rank,
                    ) && nh.hand@[u].suit@ == suit_token(sh.hand@[u].suit)
            },
{
    let mut hands: Vec<HandSolution> = Vec::with_capacity(solution.hands.len());
    let mut t: usize = 0;
    while t < solution.hands.len()
        invariant
            0 <= t <= solution.hands@.len(),
            hands@.len() == t,
            forall|x: int|
                0 <= x < t ==> {
                    let sh = solution.hands@[x];
                    let nh = #[trigger] hands@[x];
                    &&& nh.beats_me_count == sh.beats_me_count
                    &&& nh.is_beaten_count == sh.is_beaten_count
                    &&& nh.hand@.len() == sh.hand@.len()
                    &&& forall|u: int|
                        0 <= u < nh.hand@.len() ==> (#[trigger] nh.hand@[u]).rank@ == rank_token(
                            sh.hand@[u].rank,
                        ) && nh.hand@[u].suit@ == suit_token(sh.hand@[u].suit)
                },
        decreases solution.hands@.len() - t,
    {
        let sh = &solution.hands[t];
        let mut cards: Vec<Card> = Vec::with_capacity(sh.hand.len());
        let mut u: usize = 0;
        while u < sh.hand.len()
            invariant
                sh == solution.hands@[t as int],
                0 <= u <= sh.hand@.len(),
                cards@.len() == u,
                forall|x: int|
                    0 <= x < u ==> (#[trigger] cards@[x]).rank@ == rank_token(sh.hand@[x].rank)
                        && cards@[x].suit@ == suit_token(sh.hand@[x].suit),
            decreases sh.hand@.len() - u,
        {
            cards.push(to_wasm_card(&sh.hand[u]));
            u = u + 1;
        }
        hands.push(
            HandSolution {
                hand: cards,
                beats_me_count: sh.beats_me_count,
                is_beaten_count: sh.is_beaten_count,
            },
        );
        t = t + 1;
    }
    Solution {
        hands,
        board_possibilities: solution.board_possibilities,
        win_count: solution.win_count,
        lose_count: solution.lose_count,
    }
}


/// A boundary solution reports exactly a core solution: counts copied, and
/// every card turned into its tokens.
pub open spec fn wasm_solution_matches(w: Solution, s: types::Solution) -> bool {
    &&& w.board_possibilities == s.board_possibilities
    &&& w.win_count == s.win_count
    &&& w.lose_count == s.lose_count
    &&& w.hands@.len() == s.hands@.len()
    &&& forall|t: int|
        0 <= t < w.hands@.len() ==> {
            let sh = s.hands@[t];
            let nh = #[trigger] w.hands@[t];
            &&& nh.beats_me_count == sh.beats_me_count
            &&& nh.is_beaten_count == sh.is_beaten_count
            &&& nh.hand@.len() == sh.hand@.len()
            &&& forall|u: int|
                0 <= u < nh.hand@.len() ==> (#[trigger] nh.hand@[u]).rank@ == rank_token(
                    sh.hand@[u].rank,
                ) && nh.hand@[u].suit@ == suit_token(sh.hand@[u].suit)
        }
}

/// A successful hand conversion keeps the number of cards.
proof fn lemma_convert_hand_len(cards: Seq<MaybeCard>)
    requires
        convert_hand(cards) is Ok,
    ensures
        (convert_hand(cards)->Ok_0).len() == cards.len(),
    decreases cards.len(),
{
    if cards.len() > 0 {
        lemma_convert_hand_len(cards.drop_first());
    }
}

/// A successful board conversion keeps the number of slots.
proof fn lemma_convert_board_len(cards: Seq<MaybeCard>)
    requires
        convert_board(cards) is Ok,
    ensures
        (convert_board(cards)->Ok_0).len() == cards.len(),
    decreases cards.len(),
{
    if cards.len() > 0 {
        lemma_convert_board_len(cards.drop_first());
    }
}

/// Solve a boundary table: convert the string-tagged cards to core cards,
/// run the solver -- the pre-flop fast path on an all-blank board, the
/// full enumeration otherwise -- and convert the result back to tokens.
#[verifier::rlimit(50)]
pub fn solve(
    cancellation_token: &AbortSignal,
    t: &Table,
    precalculated: &Vec<PrecalculatedSolution>,
) -> (res: Result<Solution, SolveError>)
    requires
        t.hand@.len() == 2,
        t.board@.len() == 5,
    ensures
        convert_hand(t.hand@) is Err ==> res == Result::<Solution, SolveError>::Err(
            convert_hand(t.hand@)->Err_0,
        ),
        convert_hand(t.hand@) is Ok && convert_board(t.board@) is Err ==> res == Result::<
            Solution,
            SolveError,
        >::Err(convert_board(t.board@)->Err_0),
        convert_hand(t.hand@) is Ok && convert_board(t.board@) is Ok && board_empty_count(
            convert_board(t.board@)->Ok_0,
        ) == 5 && res is Ok ==> (exists|s: types::Solution|
            preflop_found(s, convert_hand(t.hand@)->Ok_0, precalculated@)
                && #[trigger] wasm_solution_matches(res->Ok_0, s)),
        convert_hand(t.hand@) is Ok && convert_board(t.board@) is Ok && board_empty_count(
            convert_board(t.board@)->Ok_0,
        ) == 5 ==> ((res matches Result::Err(SolveError::PreflopNoMatch(_))) <==> preflop_absent(
            convert_hand(t.hand@)->Ok_0,
            precalculated@,
        )),
        convert_hand(t.hand@) is Ok && convert_board(t.board@) is Ok && board_empty_count(
            convert_board(t.board@)->Ok_0,
        ) == 5 ==> ((res is Ok) <==> !preflop_absent(convert_hand(t.hand@)->Ok_0, precalculated@)),
        convert_hand(t.hand@) is Ok && convert_board(t.board@) is Ok && board_empty_count(
            convert_board(t.board@)->Ok_0,
        ) == 5 ==> (res matches Result::Err(SolveError::PreflopNoMatch(h)) ==> h@ == convert_hand(
            t.hand@,
        )->Ok_0),
        convert_hand(t.hand@) is Ok && convert_board(t.board@) is Ok && board_empty_count(
            convert_board(t.board@)->Ok_0,
        ) < 5 ==> ((res matches Result::Err(SolveError::DuplicateCard(c)))
            <==> !crate::types::distinct_seq(
            spec_used(convert_hand(t.hand@)->Ok_0, convert_board(t.board@)->Ok_0),
        )),
        convert_hand(t.hand@) is Ok && convert_board(t.board@) is Ok && board_empty_count(
            convert_board(t.board@)->Ok_0,
        ) < 5 ==> ((res matches Result::Err(SolveError::UnknownCard(c)))
            <==> (crate::types::distinct_seq(
            spec_used(convert_hand(t.hand@)->Ok_0, convert_board(t.board@)->Ok_0),
        ) && exists|i: int|
            0 <= i < spec_used(convert_hand(t.hand@)->Ok_0, convert_board(t.board@)->Ok_0).len()
                && !spec_full_deck().contains(
                #[trigger] spec_used(convert_hand(t.hand@)->Ok_0, convert_board(t.board@)->Ok_0)[i],
            ))),
        convert_hand(t.hand@) is Ok && convert_board(t.board@) is Ok && board_empty_count(
            convert_board(t.board@)->Ok_0,
        ) < 5 ==> (res matches Result::Ok(w) ==> valid_input(
            convert_hand(t.hand@)->Ok_0,
            convert_board(t.board@)->Ok_0,
            spec_full_deck(),
        )),
        convert_hand(t.hand@) is Ok && convert_board(t.board@) is Ok && board_empty_count(
            convert_board(t.board@)->Ok_0,
        ) < 5 && valid_input(
            convert_hand(t.hand@)->Ok_0,
            convert_board(t.board@)->Ok_0,
            spec_full_deck(),
        ) ==> (res matches Result::Ok(w) || res matches Result::Err(SolveError::Cancelled)),
        convert_hand(t.hand@) is Ok && convert_board(t.board@) is Ok && board_empty_count(
            convert_board(t.board@)->Ok_0,
        ) < 5 && res is Ok ==> (exists|s: types::Solution|
            solution_correct(
                s,
                convert_hand(t.hand@)->Ok_0,
                convert_board(t.board@)->Ok_0,
                spec_full_deck(),
            ) && #[trigger] wasm_solution_matches(res->Ok_0, s)),
{
    let core_table = match from_wasm_table(t) {
        Result::Err(e) => {
            return Result::Err(e);
        },
        Result::Ok(ct) => ct,
    };
    proof {
        lemma_convert_hand_len(t.hand@);
        lemma_convert_board_len(t.board@);
    }
    let solved = crate::solve::solve(cancellation_token, &core_table, precalculated);
    proof {
        let hand = convert_hand(t.hand@)->Ok_0;
        let board = convert_board(t.board@)->Ok_0;
        assert(core_table.hand@ == hand && core_table.board@ == board);
        lemma_board_partition(board);
    }
    let ghost witness = solved;
    let out: Result<Solution, SolveError> = match solved {
        Result::Err(e) => Result::Err(e),
        Result::Ok(sol) => {
            let w = to_wasm_solution(&sol);
            proof {
                assert(wasm_solution_matches(w, sol));
            }
            Result::Ok(w)
        },
    };
    proof {
        let hand = convert_hand(t.hand@)->Ok_0;
        let board = convert_board(t.board@)->Ok_0;
        if out is Ok {
            let core = witness->Ok_0;
            assert(wasm_solution_matches(out->Ok_0, core));
            if board_empty_count(board) == 5 {
                assert(preflop_found(core, hand, precalculated@));
            } else {
                assert(solution_correct(core, hand, board, spec_full_deck()));
            }
        }
    }
    out
}

} // verus!
