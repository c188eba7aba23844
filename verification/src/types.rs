//! Core card and result types: ranks, suits, cards, the table, hand
//! combinations and their total order, and the solver's error type.

use vstd::prelude::*;
use vstd::string::StringExecFns;

verus! {

/// Number of distinct ranks in a deck.
pub const RANK_COUNT: usize = 13;

/// Number of distinct suits in a deck.
pub const SUIT_COUNT: usize = 4;

/// Number of cards in a poker combination.
pub const COMBINATION_SIZE: usize = 5;

/// Number of community-card slots on the board.
pub const BOARD_SIZE: usize = 5;

/// Card ranks in ascending order of strength; `A` is highest and there is
/// no wheel (A-2-3-4-5) straight.
#[derive(Debug, Copy, Clone, PartialEq, Eq, Structural)]
pub enum Rank {
    N2,
    N3,
    N4,
    N5,
    N6,
    N7,
    N8,
    N9,
    N10,
    J,
    Q,
    K,
    A,
}

/// Card suits. Their order is fixed but carries no hand strength.
#[derive(Debug, Copy, Clone, PartialEq, Eq, Structural)]
pub enum Suit {
    Hearts,
    Diamonds,
    Spades,
    Clubs,
}

/// Ordinal of a rank: 0 for `N2` up to 12 for `A`.
pub open spec fn rank_ord(r: Rank) -> int {
    match r {
        Rank::N2 => 0,
        Rank::N3 => 1,
        Rank::N4 => 2,
        Rank::N5 => 3,
        Rank::N6 => 4,
        Rank::N7 => 5,
        Rank::N8 => 6,
        Rank::N9 => 7,
        Rank::N10 => 8,
        Rank::J => 9,
        Rank::Q => 10,
        Rank::K => 11,
        Rank::A => 12,
    }
}

/// Ordinal of a suit: 0 for `Hearts` up to 3 for `Clubs`.
pub open spec fn suit_ord(s: Suit) -> int {
    match s {
        Suit::Hearts => 0,
        Suit::Diamonds => 1,
        Suit::Spades => 2,
        Suit::Clubs => 3,
    }
}

/// The rank whose ordinal is `i`.
pub open spec fn rank_of_ord(i: int) -> Rank {
    if i == 0 {
        Rank::N2
    } else if i == 1 {
        Rank::N3
    } else if i == 2 {
        Rank::N4
    } else if i == 3 {
        Rank::N5
    } else if i == 4 {
        Rank::N6
    } else if i == 5 {
        Rank::N7
    } else if i == 6 {
        Rank::N8
    } else if i == 7 {
        Rank::N9
    } else if i == 8 {
        Rank::N10
    } else if i == 9 {
        Rank::J
    } else if i == 10 {
        Rank::Q
    } else if i == 11 {
        Rank::K
    } else {
        Rank::A
    }
}

/// The suit whose ordinal is `i`.
pub open spec fn suit_of_ord(i: int) -> Suit {
    if i == 0 {
        Suit::Hearts
    } else if i == 1 {
        Suit::Diamonds
    } else if i == 2 {
        Suit::Spades
    } else {
        Suit::Clubs
    }
}

/// Executable rank ordinal.
pub fn rank_index(r: Rank) -> (i: u8)
    ensures
        i == rank_ord(r),
        i < 13,
{
    match r {
        Rank::N2 => 0,
        Rank::N3 => 1,
        Rank::N4 => 2,
        Rank::N5 => 3,
        Rank::N6 => 4,
        Rank::N7 => 5,
        Rank::N8 => 6,
        Rank::N9 => 7,
        Rank::N10 => 8,
        Rank::J => 9,
        Rank::Q => 10,
        Rank::K => 11,
        Rank::A => 12,
    }
}

/// Executable suit ordinal.
pub fn suit_index(s: Suit) -> (i: u8)
    ensures
        i == suit_ord(s),
        i < 4,
{
    match s {
        Suit::Hearts => 0,
        Suit::Diamonds => 1,
        Suit::Spades => 2,
        Suit::Clubs => 3,
    }
}

/// Executable inverse of `rank_ord`.
pub fn rank_from_index(i: u8) -> (r: Rank)
    requires
        i < 13,
    ensures
        r == rank_of_ord(i as int),
        rank_ord(r) == i,
{
    if i == 0 {
        Rank::N2
    } else if i == 1 {
        Rank::N3
    } else if i == 2 {
        Rank::N4
    } else if i == 3 {
        Rank::N5
    } else if i == 4 {
        Rank::N6
    } else if i == 5 {
        Rank::N7
    } else if i == 6 {
        Rank::N8
    } else if i == 7 {
        Rank::N9
    } else if i == 8 {
        Rank::N10
    } else if i == 9 {
        Rank::J
    } else if i == 10 {
        Rank::Q
    } else if i == 11 {
        Rank::K
    } else {
        Rank::A
    }
}

/// Executable inverse of `suit_ord`.
pub fn suit_from_index(i: u8) -> (s: Suit)
    requires
        i < 4,
    ensures
        s == suit_of_ord(i as int),
        suit_ord(s) == i,
{
    if i == 0 {
        Suit::Hearts
    } else if i == 1 {
        Suit::Diamonds
    } else if i == 2 {
        Suit::Spades
    } else {
        Suit::Clubs
    }
}

/// A playing card.
#[derive(Debug, Copy, Clone, PartialEq, Eq, Structural)]
pub struct Card {
    pub rank: Rank,
    pub suit: Suit,
}

/// Ordinal of a card under the order (rank ascending, then suit ascending);
/// injective, with values in `0..52`.
pub open spec fn card_ord(c: Card) -> int {
    rank_ord(c.rank) * 4 + suit_ord(c.suit)
}

/// The order in which the two cards of a candidate hand are stored:
/// rank descending, then suit ascending.
pub open spec fn hand_card_le(a: Card, b: Card) -> bool {
    rank_ord(a.rank) > rank_ord(b.rank) || (rank_ord(a.rank) == rank_ord(b.rank) && suit_ord(
        a.suit,
    ) <= suit_ord(b.suit))
}

/// The table under analysis: the player's two hole cards and the five
/// board slots, each either already revealed or still empty.
#[derive(Debug, Clone)]
pub struct Table {
    pub hand: Vec<Card>,
    pub board: Vec<Option<Card>>,
}

/// A card reduced for hand evaluation: only its rank and whether it belongs
/// to the single flush suit matter.
#[derive(Debug, Copy, Clone, PartialEq, Eq, Structural)]
pub struct ReducedCard {
    pub is_flush: bool,
    pub rank: Rank,
}

/// Ordinal of a reduced card under the order (is_flush, rank) ascending;
/// injective, with values in `0..26`.
pub open spec fn rc_ord(c: ReducedCard) -> int {
    (if c.is_flush {
        13int
    } else {
        0int
    }) + rank_ord(c.rank)
}

/// The nine poker combinations, weakest first. Each variant carries its
/// ranks in comparison order.
#[derive(Debug, Copy, Clone, PartialEq, Eq, Structural)]
pub enum Combination {
    /// All five card ranks, descending.
    HighCard(Rank, Rank, Rank, Rank, Rank),
    /// Rank of the pair, then the three kickers descending.
    Pair(Rank, Rank, Rank, Rank),
    /// Higher pair rank, lower pair rank, one kicker.
    TwoPairs(Rank, Rank, Rank),
    /// Rank of the trips, then two kickers descending.
    ThreeOfAKind(Rank, Rank, Rank),
    /// Highest rank of the run.
    Straight(Rank),
    /// The five flush ranks, descending.
    Flush(Rank, Rank, Rank, Rank, Rank),
    /// Trip rank, then pair rank.
    FullHouse(Rank, Rank),
    /// Quad rank, then one kicker.
    FourOfAKind(Rank, Rank),
    /// Highest rank of the run.
    StraightFlush(Rank),
}

/// Weight separating combination classes: `13^6`. The largest possible
/// kicker sum is `12 * (13^5 + 13^4 + 13^3 + 13^2 + 13) < 13^6`, so the
/// class always dominates the kickers.
pub const COMBINATION_TYPE_WEIGHT: u64 = 4826809;

/// Kicker weight `13^5`.
pub const WEIGHT_0: u64 = 371293;

/// Kicker weight `13^4`.
pub const WEIGHT_1: u64 = 28561;

/// Kicker weight `13^3`.
pub const WEIGHT_2: u64 = 2197;

/// Kicker weight `13^2`.
pub const WEIGHT_3: u64 = 169;

/// Kicker weight `13^1`.
pub const WEIGHT_4: u64 = 13;

/// Index of a combination's class, weakest 0 to strongest 8.
pub open spec fn class_index(c: Combination) -> int {
    match c {
        Combination::HighCard(_, _, _, _, _) => 0,
        Combination::Pair(_, _, _, _) => 1,
        Combination::TwoPairs(_, _, _) => 2,
        Combination::ThreeOfAKind(_, _, _) => 3,
        Combination::Straight(_) => 4,
        Combination::Flush(_, _, _, _, _) => 5,
        Combination::FullHouse(_, _) => 6,
        Combination::FourOfAKind(_, _) => 7,
        Combination::StraightFlush(_) => 8,
    }
}

/// Weighted sum of a combination's ranks, by their comparison position.
pub open spec fn kicker_sum(c: Combination) -> int {
    match c {
        Combination::HighCard(a, b, cc, d, e) => WEIGHT_0 * rank_ord(a) + WEIGHT_1 * rank_ord(b)
            + WEIGHT_2 * rank_ord(cc) + WEIGHT_3 * rank_ord(d) + WEIGHT_4 * rank_ord(e),
        Combination::Pair(a, b, cc, d) => WEIGHT_0 * rank_ord(a) + WEIGHT_1 * rank_ord(b)
            + WEIGHT_2 * rank_ord(cc) + WEIGHT_3 * rank_ord(d),
        Combination::TwoPairs(a, b, cc) => WEIGHT_0 * rank_ord(a) + WEIGHT_1 * rank_ord(b)
            + WEIGHT_2 * rank_ord(cc),
        Combination::ThreeOfAKind(a, b, cc) => WEIGHT_0 * rank_ord(a) + WEIGHT_1 * rank_ord(b)
            + WEIGHT_2 * rank_ord(cc),
        Combination::Straight(a) => WEIGHT_0 * rank_ord(a),
        Combination::Flush(a, b, cc, d, e) => WEIGHT_0 * rank_ord(a) + WEIGHT_1 * rank_ord(b)
            + WEIGHT_2 * rank_ord(cc) + WEIGHT_3 * rank_ord(d) + WEIGHT_4 * rank_ord(e),
        Combination::FullHouse(a, b) => WEIGHT_0 * rank_ord(a) + WEIGHT_1 * rank_ord(b),
        Combination::FourOfAKind(a, b) => WEIGHT_0 * rank_ord(a) + WEIGHT_1 * rank_ord(b),
        Combination::StraightFlush(a) => WEIGHT_0 * rank_ord(a),
    }
}

/// The integer score of a combination. Two combinations compare exactly as
/// their scores compare.
pub open spec fn spec_score(c: Combination) -> int {
    class_index(c) * COMBINATION_TYPE_WEIGHT + kicker_sum(c)
}

/// The kicker term at comparison position 0.
fn kick0(r: Rank) -> (s: u64)
    ensures
        s == WEIGHT_0 * rank_ord(r),
        s <= 12 * WEIGHT_0,
{
    let i: u64 = rank_index(r) as u64;
    WEIGHT_0 * i
}

/// The kicker term at comparison position 1.
fn kick1(r: Rank) -> (s: u64)
    ensures
        s == WEIGHT_1 * rank_ord(r),
        s <= 12 * WEIGHT_1,
{
    let i: u64 = rank_index(r) as u64;
    WEIGHT_1 * i
}

/// The kicker term at comparison position 2.
fn kick2(r: Rank) -> (s: u64)
    ensures
        s == WEIGHT_2 * rank_ord(r),
        s <= 12 * WEIGHT_2,
{
    let i: u64 = rank_index(r) as u64;
    WEIGHT_2 * i
}

/// The kicker term at comparison position 3.
fn kick3(r: Rank) -> (s: u64)
    ensures
        s == WEIGHT_3 * rank_ord(r),
        s <= 12 * WEIGHT_3,
{
    let i: u64 = rank_index(r) as u64;
    WEIGHT_3 * i
}

/// The kicker term at comparison position 4.
fn kick4(r: Rank) -> (s: u64)
    ensures
        s == WEIGHT_4 * rank_ord(r),
        s <= 12 * WEIGHT_4,
{
    let i: u64 = rank_index(r) as u64;
    WEIGHT_4 * i
}

impl Combination {
    /// The score of this combination, as a machine integer.
    #[verifier::rlimit(100)]
    pub fn score(&self) -> (s: u64)
        ensures
            s == spec_score(*self),
            s < 9 * COMBINATION_TYPE_WEIGHT,
    {
        match *self {
            Combination::HighCard(a, b, c, d, e) => kick0(a) + kick1(b) + kick2(c) + kick3(d) + kick4(e),
            Combination::Pair(a, b, c, d) => 1 * COMBINATION_TYPE_WEIGHT + kick0(a) + kick1(b) + kick2(c) + kick3(d),
            Combination::TwoPairs(a, b, c) => 2 * COMBINATION_TYPE_WEIGHT + kick0(a)
                + kick1(b) + kick2(c),
            Combination::ThreeOfAKind(a, b, c) => 3 * COMBINATION_TYPE_WEIGHT + kick0(a)
                + kick1(b) + kick2(c),
            Combination::Straight(a) => 4 * COMBINATION_TYPE_WEIGHT + kick0(a),
            Combination::Flush(a, b, c, d, e) => 5 * COMBINATION_TYPE_WEIGHT + kick0(a)
                + kick1(b) + kick2(c) + kick3(d) + kick4(e),
            Combination::FullHouse(a, b) => 6 * COMBINATION_TYPE_WEIGHT + kick0(a) + kick1(b),
            Combination::FourOfAKind(a, b) => 7 * COMBINATION_TYPE_WEIGHT + kick0(a)
                + kick1(b),
            Combination::StraightFlush(a) => 8 * COMBINATION_TYPE_WEIGHT + kick0(a),
        }
    }
}

/// For one candidate opponent hand: over all board completions, how many
/// times that hand beats the player and how many times it is beaten.
#[derive(Debug, Clone)]
pub struct HandSolution {
    pub hand: Vec<Card>,
    pub beats_me_count: u64,
    pub is_beaten_count: u64,
}

/// The full result of a solve: every candidate opponent hand with its
/// counts, sorted worst-for-the-opponent first, plus aggregate counts.
#[derive(Debug, Clone)]
pub struct Solution {
    pub hands: Vec<HandSolution>,
    pub board_possibilities: u64,
    pub win_count: u64,
    pub lose_count: u64,
}

/// A pre-flop table entry: a representative hand and its solution.
#[derive(Debug, Clone)]
pub struct PrecalculatedSolution {
    pub my_hand: Vec<Card>,
    pub solution: Solution,
}

/// Everything that can go wrong during a solve.
#[derive(Debug, Clone, PartialEq, Eq)]
pub enum SolveError {
    /// A rank token at the boundary was not one of the thirteen known ones.
    UnrecognizedRank(String),
    /// A suit token at the boundary was not one of the four known ones.
    UnrecognizedSuit(String),
    /// A hole-card slot was empty although hole cards must be present.
    BlankHandCard,
    /// The same card appears more than once across hand and board.
    DuplicateCard(Card),
    /// A card in the input is not part of the deck.
    UnknownCard(Card),
    /// The cancellation signal fired before the solve completed.
    Cancelled,
    /// Reading or parsing the pre-flop table failed; carries the underlying
    /// message.
    PreflopLoadFailure(String),
    /// No pre-flop table entry matches the hand's representative; carries
    /// the hand that was looked up.
    PreflopNoMatch(Vec<Card>),
}

/// The token of a rank at the boundary and in messages.
pub open spec fn rank_token(r: Rank) -> Seq<char> {
    match r {
        Rank::N2 => "2"@,
        Rank::N3 => "3"@,
        Rank::N4 => "4"@,
        Rank::N5 => "5"@,
        Rank::N6 => "6"@,
        Rank::N7 => "7"@,
        Rank::N8 => "8"@,
        Rank::N9 => "9"@,
        Rank::N10 => "10"@,
        Rank::J => "J"@,
        Rank::Q => "Q"@,
        Rank::K => "K"@,
        Rank::A => "A"@,
    }
}

/// The token of a suit at the boundary and in messages.
pub open spec fn suit_token(s: Suit) -> Seq<char> {
    match s {
        Suit::Hearts => "h"@,
        Suit::Diamonds => "d"@,
        Suit::Spades => "s"@,
        Suit::Clubs => "c"@,
    }
}

/// The rank's token, as a string.
pub fn rank_token_str(r: Rank) -> (m: String)
    ensures
        m@ == rank_token(r),
{
    match r {
        Rank::N2 => "2".to_owned(),
        Rank::N3 => "3".to_owned(),
        Rank::N4 => "4".to_owned(),
        Rank::N5 => "5".to_owned(),
        Rank::N6 => "6".to_owned(),
        Rank::N7 => "7".to_owned(),
        Rank::N8 => "8".to_owned(),
        Rank::N9 => "9".to_owned(),
        Rank::N10 => "10".to_owned(),
        Rank::J => "J".to_owned(),
        Rank::Q => "Q".to_owned(),
        Rank::K => "K".to_owned(),
        Rank::A => "A".to_owned(),
    }
}

/// The suit's token, as a string.
pub fn suit_token_str(s: Suit) -> (m: String)
    ensures
        m@ == suit_token(s),
{
    match s {
        Suit::Hearts => "h".to_owned(),
        Suit::Diamonds => "d".to_owned(),
        Suit::Spades => "s".to_owned(),
        Suit::Clubs => "c".to_owned(),
    }
}

/// A card's two tokens, rank then suit.
pub open spec fn card_tokens(c: Card) -> Seq<char> {
    rank_token(c.rank) + suit_token(c.suit)
}

/// A hand's cards as tokens, separated by spaces.
pub open spec fn hand_tokens(s: Seq<Card>) -> Seq<char>
    decreases s.len(),
{
    if s.len() == 0 {
        Seq::empty()
    } else if s.len() == 1 {
        card_tokens(s.first())
    } else {
        card_tokens(s.first()) + " "@ + hand_tokens(s.drop_first())
    }
}

/// A hand's cards as tokens, separated by spaces, as a string.
fn hand_tokens_str(cards: &Vec<Card>) -> (m: String)
    ensures
        m@ == hand_tokens(cards@),
{
    let mut m = String::new();
    let mut i: usize = 0;
    proof {
        assert(cards@.skip(0) =~= cards@);
        assert(m@ + hand_tokens(cards@) =~= hand_tokens(cards@));
    }
    while i < cards.len()
        invariant
            0 <= i <= cards@.len(),
            m@ + hand_tokens(cards@.skip(i as int)) == hand_tokens(cards@),
        decreases cards@.len() - i,
    {
        let ghost sub = cards@.skip(i as int);
        let ghost m0 = m@;
        proof {
            assert(sub.first() == cards@[i as int]);
            assert(sub.drop_first() =~= cards@.skip(i as int + 1));
        }
        let c = cards[i];
        m.append(rank_token_str(c.rank).as_str());
        m.append(suit_token_str(c.suit).as_str());
        if i + 1 < cards.len() {
            m.append(" ");
            proof {
                assert(sub.len() >= 2);
                assert(hand_tokens(sub) == card_tokens(sub.first()) + " "@ + hand_tokens(
                    sub.drop_first(),
                ));
                assert(m@ =~= m0 + (card_tokens(sub.first()) + " "@));
                assert(m@ + hand_tokens(cards@.skip(i as int + 1)) =~= m0 + hand_tokens(sub));
            }
        } else {
            proof {
                assert(sub.len() == 1);
                assert(hand_tokens(sub) == card_tokens(sub.first()));
                assert(m@ =~= m0 + card_tokens(sub.first()));
                assert(hand_tokens(cards@.skip(i as int + 1)) =~= Seq::<char>::empty());
                assert(m@ + hand_tokens(cards@.skip(i as int + 1)) =~= m0 + hand_tokens(sub));
            }
        }
        i = i + 1;
    }
    proof {
        assert(hand_tokens(cards@.skip(cards@.len() as int)) =~= Seq::<char>::empty());
        assert(m@ + Seq::<char>::empty() =~= m@);
    }
    m
}

/// What each error surfaces: a distinct text per kind, with the offending
/// token, card or hand written into it.
pub open spec fn spec_message(e: SolveError) -> Seq<char> {
    match e {
        SolveError::UnrecognizedRank(s) => "unrecognized rank \""@ + s@ + "\""@,
        SolveError::UnrecognizedSuit(s) => "unrecognized suit \""@ + s@ + "\""@,
        SolveError::BlankHandCard => "hand cards must all be set, got blank"@,
        SolveError::DuplicateCard(c) => "card \""@ + card_tokens(c)
            + "\" is used multiple times"@,
        SolveError::UnknownCard(c) => "used card \""@ + card_tokens(c) + "\" not from deck"@,
        SolveError::Cancelled => "solve operation cancelled"@,
        SolveError::PreflopLoadFailure(m) => m@,
        SolveError::PreflopNoMatch(h) => "precalculated solution for hand \""@ + hand_tokens(h@)
            + "\" not found"@,
    }
}

impl SolveError {
    /// The error's surfaced text: a distinct message per kind, naming the
    /// offending token, card or hand.
    pub fn message(&self) -> (m: String)
        ensures
            m@ == spec_message(*self),
    {
        match self {
            SolveError::UnrecognizedRank(s) => {
                let mut m = "unrecognized rank \"".to_owned();
                m.append(s.as_str());
                m.append("\"");
                proof {
                    assert(m@ =~= spec_message(*self));
                }
                m
            },
            SolveError::UnrecognizedSuit(s) => {
                let mut m = "unrecognized suit \"".to_owned();
                m.append(s.as_str());
                m.append("\"");
                proof {
                    assert(m@ =~= spec_message(*self));
                }
                m
            },
            SolveError::BlankHandCard => "hand cards must all be set, got blank".to_owned(),
            SolveError::DuplicateCard(c) => {
                let mut m = "card \"".to_owned();
                m.append(rank_token_str(c.rank).as_str());
                m.append(suit_token_str(c.suit).as_str());
                m.append("\" is used multiple times");
                proof {
                    assert(m@ =~= spec_message(*self));
                }
                m
            },
            SolveError::UnknownCard(c) => {
                let mut m = "used card \"".to_owned();
                m.append(rank_token_str(c.rank).as_str());
                m.append(suit_token_str(c.suit).as_str());
                m.append("\" not from deck");
                proof {
                    assert(m@ =~= spec_message(*self));
                }
                m
            },
            SolveError::Cancelled => "solve operation cancelled".to_owned(),
            SolveError::PreflopLoadFailure(m) => m.clone(),
            SolveError::PreflopNoMatch(h) => {
                let mut m = "precalculated solution for hand \"".to_owned();
                m.append(hand_tokens_str(h).as_str());
                m.append("\" not found");
                proof {
                    assert(m@ =~= spec_message(*self));
                }
                m
            },
        }
    }
}

/// A sequence holds no element twice.
pub open spec fn distinct_seq<A>(s: Seq<A>) -> bool {
    forall|i: int, j: int| 0 <= i < j < s.len() ==> s[i] != s[j]
}


/// A rank is recovered from its ordinal.
pub proof fn lemma_rank_roundtrip(r: Rank)
    ensures
        rank_of_ord(rank_ord(r)) == r,
{
}

/// A suit is recovered from its ordinal.
pub proof fn lemma_suit_roundtrip(s: Suit)
    ensures
        suit_of_ord(suit_ord(s)) == s,
{
}

/// The kicker sum never reaches the class weight.
proof fn lemma_kicker_bounds(c: Combination)
    ensures
        0 <= kicker_sum(c) <= 4826796,
{
}

/// Two combinations score equal exactly when they are the same
/// combination: the class weight dominates every kicker sum, and within a
/// class the ranks are base-13 digits of the score.
pub proof fn lemma_score_injective(a: Combination, b: Combination)
    requires
        spec_score(a) == spec_score(b),
    ensures
        a == b,
{
    lemma_kicker_bounds(a);
    lemma_kicker_bounds(b);
    assert(0 <= class_index(a) <= 8);
    assert(0 <= class_index(b) <= 8);
    assert(class_index(a) == class_index(b)) by {
        assert(class_index(a) * 4826809 + kicker_sum(a) == class_index(b) * 4826809 + kicker_sum(
            b,
        ));
    }
    assert(kicker_sum(a) == kicker_sum(b));
    match a {
        Combination::HighCard(a0, a1, a2, a3, a4) => {
            match b {
                Combination::HighCard(b0, b1, b2, b3, b4) => {
                    lemma_ranks5(a0, a1, a2, a3, a4, b0, b1, b2, b3, b4);
                },
                _ => {
                    assert(false);
                },
            }
        },
        Combination::Pair(a0, a1, a2, a3) => {
            match b {
                Combination::Pair(b0, b1, b2, b3) => {
                    lemma_ranks4(a0, a1, a2, a3, b0, b1, b2, b3);
                },
                _ => {
                    assert(false);
                },
            }
        },
        Combination::TwoPairs(a0, a1, a2) => {
            match b {
                Combination::TwoPairs(b0, b1, b2) => {
                    lemma_ranks3(a0, a1, a2, b0, b1, b2);
                },
                _ => {
                    assert(false);
                },
            }
        },
        Combination::ThreeOfAKind(a0, a1, a2) => {
            match b {
                Combination::ThreeOfAKind(b0, b1, b2) => {
                    lemma_ranks3(a0, a1, a2, b0, b1, b2);
                },
                _ => {
                    assert(false);
                },
            }
        },
        Combination::Straight(a0) => {
            match b {
                Combination::Straight(b0) => {
                    lemma_ranks1(a0, b0);
                },
                _ => {
                    assert(false);
                },
            }
        },
        Combination::Flush(a0, a1, a2, a3, a4) => {
            match b {
                Combination::Flush(b0, b1, b2, b3, b4) => {
                    lemma_ranks5(a0, a1, a2, a3, a4, b0, b1, b2, b3, b4);
                },
                _ => {
                    assert(false);
                },
            }
        },
        Combination::FullHouse(a0, a1) => {
            match b {
                Combination::FullHouse(b0, b1) => {
                    lemma_ranks2(a0, a1, b0, b1);
                },
                _ => {
                    assert(false);
                },
            }
        },
        Combination::FourOfAKind(a0, a1) => {
            match b {
                Combination::FourOfAKind(b0, b1) => {
                    lemma_ranks2(a0, a1, b0, b1);
                },
                _ => {
                    assert(false);
                },
            }
        },
        Combination::StraightFlush(a0) => {
            match b {
                Combination::StraightFlush(b0) => {
                    lemma_ranks1(a0, b0);
                },
                _ => {
                    assert(false);
                },
            }
        },
    }
}

proof fn lemma_ranks1(a0: Rank, b0: Rank)
    requires
        WEIGHT_0 * rank_ord(a0) == WEIGHT_0 * rank_ord(b0),
    ensures
        a0 == b0,
{
    lemma_rank_roundtrip(a0);
    lemma_rank_roundtrip(b0);
}

proof fn lemma_ranks2(a0: Rank, a1: Rank, b0: Rank, b1: Rank)
    requires
        WEIGHT_0 * rank_ord(a0) + WEIGHT_1 * rank_ord(a1) == WEIGHT_0 * rank_ord(b0) + WEIGHT_1
            * rank_ord(b1),
    ensures
        a0 == b0 && a1 == b1,
{
    assert(rank_ord(a0) == rank_ord(b0) && rank_ord(a1) == rank_ord(b1));
    lemma_rank_roundtrip(a0);
    lemma_rank_roundtrip(b0);
    lemma_rank_roundtrip(a1);
    lemma_rank_roundtrip(b1);
}

proof fn lemma_ranks3(a0: Rank, a1: Rank, a2: Rank, b0: Rank, b1: Rank, b2: Rank)
    requires
        WEIGHT_0 * rank_ord(a0) + WEIGHT_1 * rank_ord(a1) + WEIGHT_2 * rank_ord(a2) == WEIGHT_0
            * rank_ord(b0) + WEIGHT_1 * rank_ord(b1) + WEIGHT_2 * rank_ord(b2),
    ensures
        a0 == b0 && a1 == b1 && a2 == b2,
{
    assert(rank_ord(a0) == rank_ord(b0) && rank_ord(a1) == rank_ord(b1) && rank_ord(a2)
        == rank_ord(b2));
    lemma_rank_roundtrip(a0);
    lemma_rank_roundtrip(b0);
    lemma_rank_roundtrip(a1);
    lemma_rank_roundtrip(b1);
    lemma_rank_roundtrip(a2);
    lemma_rank_roundtrip(b2);
}

proof fn lemma_ranks4(a0: Rank, a1: Rank, a2: Rank, a3: Rank, b0: Rank, b1: Rank, b2: Rank, b3: Rank)
    requires
        WEIGHT_0 * rank_ord(a0) + WEIGHT_1 * rank_ord(a1) + WEIGHT_2 * rank_ord(a2) + WEIGHT_3
            * rank_ord(a3) == WEIGHT_0 * rank_ord(b0) + WEIGHT_1 * rank_ord(b1) + WEIGHT_2
            * rank_ord(b2) + WEIGHT_3 * rank_ord(b3),
    ensures
        a0 == b0 && a1 == b1 && a2 == b2 && a3 == b3,
{
    assert(rank_ord(a0) == rank_ord(b0) && rank_ord(a1) == rank_ord(b1) && rank_ord(a2)
        == rank_ord(b2) && rank_ord(a3) == rank_ord(b3));
    lemma_rank_roundtrip(a0);
    lemma_rank_roundtrip(b0);
    lemma_rank_roundtrip(a1);
    lemma_rank_roundtrip(b1);
    lemma_rank_roundtrip(a2);
    lemma_rank_roundtrip(b2);
    lemma_rank_roundtrip(a3);
    lemma_rank_roundtrip(b3);
}

proof fn lemma_ranks5(
    a0: Rank,
    a1: Rank,
    a2: Rank,
    a3: Rank,
    a4: Rank,
    b0: Rank,
    b1: Rank,
    b2: Rank,
    b3: Rank,
    b4: Rank,
)
    requires
        WEIGHT_0 * rank_ord(a0) + WEIGHT_1 * rank_ord(a1) + WEIGHT_2 * rank_ord(a2) + WEIGHT_3
            * rank_ord(a3) + WEIGHT_4 * rank_ord(a4) == WEIGHT_0 * rank_ord(b0) + WEIGHT_1
            * rank_ord(b1) + WEIGHT_2 * rank_ord(b2) + WEIGHT_3 * rank_ord(b3) + WEIGHT_4
            * rank_ord(b4),
    ensures
        a0 == b0 && a1 == b1 && a2 == b2 && a3 == b3 && a4 == b4,
{
    assert(rank_ord(a0) == rank_ord(b0) && rank_ord(a1) == rank_ord(b1) && rank_ord(a2)
        == rank_ord(b2) && rank_ord(a3) == rank_ord(b3) && rank_ord(a4) == rank_ord(b4));
    lemma_rank_roundtrip(a0);
    lemma_rank_roundtrip(b0);
    lemma_rank_roundtrip(a1);
    lemma_rank_roundtrip(b1);
    lemma_rank_roundtrip(a2);
    lemma_rank_roundtrip(b2);
    lemma_rank_roundtrip(a3);
    lemma_rank_roundtrip(b3);
    lemma_rank_roundtrip(a4);
    lemma_rank_roundtrip(b4);
}

/// The order on combinations -- integer comparison of scores -- is total,
/// transitive, and anti-symmetric: equal scores mean equal combinations.
pub proof fn lemma_score_order_total(a: Combination, b: Combination, c: Combination)
    ensures
        spec_score(a) <= spec_score(b) || spec_score(b) <= spec_score(a),
        spec_score(a) <= spec_score(b) && spec_score(b) <= spec_score(c) ==> spec_score(a)
            <= spec_score(c),
        spec_score(a) <= spec_score(b) && spec_score(b) <= spec_score(a) ==> a == b,
{
    if spec_score(a) <= spec_score(b) && spec_score(b) <= spec_score(a) {
        lemma_score_injective(a, b);
    }
}

} // verus!
