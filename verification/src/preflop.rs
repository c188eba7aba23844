//! The pre-flop fast path: the 169 suit-isomorphic representatives, the
//! lookup that rewrites an input hand to its representative, and the suit
//! isomorphism that maps a stored solution back to the input's coloring.

use vstd::prelude::*;
use crate::types::{
    Card, HandSolution, PrecalculatedSolution, Solution, SolveError, Suit, Table,
    rank_from_index, rank_index, rank_of_ord, rank_ord,
};
use crate::evaluator::EvalCache;
use crate::solve::{
    board_cards, board_empty_count, full_deck, lemma_full_deck_contains, solution_correct,
    solve_with_deck, spec_full_deck, valid_input,
};

verus! {

/// The input hand's card of higher rank; on equal ranks the first card.
pub open spec fn ordered_hi(h: Seq<Card>) -> Card {
    if rank_ord(h[0].rank) >= rank_ord(h[1].rank) {
        h[0]
    } else {
        h[1]
    }
}

/// The input hand's card of lower rank; on equal ranks the second card.
pub open spec fn ordered_lo(h: Seq<Card>) -> Card {
    if rank_ord(h[0].rank) >= rank_ord(h[1].rank) {
        h[1]
    } else {
        h[0]
    }
}

/// The representative suit of the lower card: `Hearts` when the input is
/// suited, `Diamonds` otherwise.
pub open spec fn rep_lower_suit(hi: Card, lo: Card) -> Suit {
    if hi.suit == lo.suit {
        Suit::Hearts
    } else {
        Suit::Diamonds
    }
}

/// The three suits other than `u`, in enum order.
pub open spec fn others_of_one(u: Suit) -> (Suit, Suit, Suit) {
    match u {
        Suit::Hearts => (Suit::Diamonds, Suit::Spades, Suit::Clubs),
        Suit::Diamonds => (Suit::Hearts, Suit::Spades, Suit::Clubs),
        Suit::Spades => (Suit::Hearts, Suit::Diamonds, Suit::Clubs),
        Suit::Clubs => (Suit::Hearts, Suit::Diamonds, Suit::Spades),
    }
}

/// The two suits other than `a` and `b`, in enum order.
pub open spec fn others_of_two(a: Suit, b: Suit) -> (Suit, Suit) {
    let first = if a != Suit::Hearts && b != Suit::Hearts {
        Suit::Hearts
    } else if a != Suit::Diamonds && b != Suit::Diamonds {
        Suit::Diamonds
    } else {
        Suit::Spades
    };
    let second = if first != Suit::Diamonds && a != Suit::Diamonds && b != Suit::Diamonds {
        Suit::Diamonds
    } else if first != Suit::Spades && a != Suit::Spades && b != Suit::Spades {
        Suit::Spades
    } else {
        Suit::Clubs
    };
    (first, second)
}

/// The suit isomorphism, from a representative suit to an input suit:
/// `Hearts` maps to the higher card's suit and the lower representative
/// suit to the lower card's suit; the remaining representative suits take
/// the unused input suits, both read in enum order.
pub open spec fn spec_sigma(hi: Card, lo: Card, s: Suit) -> Suit {
    if hi.suit == lo.suit {
        let o = others_of_one(hi.suit);
        if s == Suit::Hearts {
            hi.suit
        } else if s == Suit::Diamonds {
            o.0
        } else if s == Suit::Spades {
            o.1
        } else {
            o.2
        }
    } else {
        let o = others_of_two(hi.suit, lo.suit);
        if s == Suit::Hearts {
            hi.suit
        } else if s == Suit::Diamonds {
            lo.suit
        } else if s == Suit::Spades {
            o.0
        } else {
            o.1
        }
    }
}

/// A stored card, recolored through the suit isomorphism.
pub open spec fn remap_card(hi: Card, lo: Card, c: Card) -> Card {
    Card { rank: c.rank, suit: spec_sigma(hi, lo, c.suit) }
}

/// The pre-flop table key of an input hand: the higher card wears
/// `Hearts`, the lower card `Hearts` when suited, else `Diamonds`.
pub open spec fn spec_representative(hi: Card, lo: Card) -> Seq<Card> {
    seq![
        Card { rank: hi.rank, suit: Suit::Hearts },
        Card { rank: lo.rank, suit: rep_lower_suit(hi, lo) },
    ]
}

/// Entry `i` is the first whose representative hand matches `rep`.
pub open spec fn preflop_match(
    entries: Seq<PrecalculatedSolution>,
    rep: Seq<Card>,
    i: int,
) -> bool {
    0 <= i < entries.len() && entries[i].my_hand@ == rep && forall|j: int|
        0 <= j < i ==> entries[j].my_hand@ != rep
}

/// A solution equal to `stored` with every opponent-hand card recolored
/// through the isomorphism; the counts are copied unchanged.
pub open spec fn remapped_solution(sol: Solution, stored: Solution, hi: Card, lo: Card) -> bool {
    &&& sol.board_possibilities == stored.board_possibilities
    &&& sol.win_count == stored.win_count
    &&& sol.lose_count == stored.lose_count
    &&& sol.hands@.len() == stored.hands@.len()
    &&& forall|t: int|
        0 <= t < sol.hands@.len() ==> {
            let sh = stored.hands@[t];
            let nh = #[trigger] sol.hands@[t];
            nh.beats_me_count == sh.beats_me_count && nh.is_beaten_count == sh.is_beaten_count
                && nh.hand@ == sh.hand@.map_values(|c: Card| remap_card(hi, lo, c))
        }
}

/// The lookup succeeded: some first matching entry exists and the result
/// is its solution, recolored.
pub open spec fn preflop_found(
    sol: Solution,
    hand: Seq<Card>,
    entries: Seq<PrecalculatedSolution>,
) -> bool {
    let hi = ordered_hi(hand);
    let lo = ordered_lo(hand);
    exists|i: int|
        #![trigger entries[i]]
        preflop_match(entries, spec_representative(hi, lo), i) && remapped_solution(
            sol,
            entries[i].solution,
            hi,
            lo,
        )
}

/// The representative hand with rank ordinals `a >= b`: suited hands wear
/// hearts twice, offsuit hands and pairs hearts then diamonds.
pub open spec fn rep_hand_of(a: int, b: int, suited: bool) -> Seq<Card> {
    seq![
        Card { rank: rank_of_ord(a), suit: Suit::Hearts },
        Card {
            rank: rank_of_ord(b),
            suit: if suited {
                Suit::Hearts
            } else {
                Suit::Diamonds
            },
        },
    ]
}

/// Some entry's representative is the hand with rank ordinals `a >= b`.
pub open spec fn has_rep(
    entries: Seq<PrecalculatedSolution>,
    a: int,
    b: int,
    suited: bool,
) -> bool {
    exists|i: int|
        0 <= i < entries.len() && (#[trigger] entries[i]).my_hand@ == rep_hand_of(a, b, suited)
}

/// Some hand of `reps` is the representative with rank ordinals `a >= b`.
pub open spec fn reps_has(reps: Seq<Vec<Card>>, a: int, b: int, suited: bool) -> bool {
    exists|i: int| 0 <= i < reps.len() && (#[trigger] reps[i])@ == rep_hand_of(a, b, suited)
}

/// The table holds an entry for every suit-isomorphic class: every suited
/// rank pair and every offsuit-or-pair rank pair.
pub open spec fn preflop_table_complete(entries: Seq<PrecalculatedSolution>) -> bool {
    forall|a: int, b: int, suited: bool|
        0 <= b <= a < 13 && (suited ==> b < a) ==> #[trigger] has_rep(entries, a, b, suited)
}

/// No entry's representative matches the hand's.
pub open spec fn preflop_absent(hand: Seq<Card>, entries: Seq<PrecalculatedSolution>) -> bool {
    forall|i: int|
        0 <= i < entries.len() ==> (#[trigger] entries[i]).my_hand@ != spec_representative(
            ordered_hi(hand),
            ordered_lo(hand),
        )
}

/// A complete pre-flop table never misses: every hand of two distinct
/// cards has an entry for its suit-isomorphic representative.
pub proof fn lemma_complete_table_has_match(hand: Seq<Card>, entries: Seq<PrecalculatedSolution>)
    requires
        hand.len() == 2,
        hand[0] != hand[1],
        preflop_table_complete(entries),
    ensures
        !preflop_absent(hand, entries),
{
    let hi = ordered_hi(hand);
    let lo = ordered_lo(hand);
    crate::types::lemma_rank_roundtrip(hi.rank);
    crate::types::lemma_rank_roundtrip(lo.rank);
    let a = rank_ord(hi.rank);
    let b = rank_ord(lo.rank);
    if hi.suit == lo.suit {
        assert(hi.rank != lo.rank);
        assert(0 <= b < a < 13);
        assert(spec_representative(hi, lo) =~= rep_hand_of(a, b, true));
        assert(has_rep(entries, a, b, true));
        let i = choose|i: int|
            0 <= i < entries.len() && (#[trigger] entries[i]).my_hand@ == rep_hand_of(a, b, true);
        assert(!preflop_absent(hand, entries));
    } else {
        assert(0 <= b <= a < 13);
        assert(spec_representative(hi, lo) =~= rep_hand_of(a, b, false));
        assert(has_rep(entries, a, b, false));
        let i = choose|i: int|
            0 <= i < entries.len() && (#[trigger] entries[i]).my_hand@ == rep_hand_of(a, b, false);
        assert(!preflop_absent(hand, entries));
    }
}

/// Executable suit isomorphism.
fn sigma_apply(hi: Card, lo: Card, s: Suit) -> (r: Suit)
    ensures
        r == spec_sigma(hi, lo, s),
{
    if hi.suit == lo.suit {
        let o: (Suit, Suit, Suit) = match hi.suit {
            Suit::Hearts => (Suit::Diamonds, Suit::Spades, Suit::Clubs),
            Suit::Diamonds => (Suit::Hearts, Suit::Spades, Suit::Clubs),
            Suit::Spades => (Suit::Hearts, Suit::Diamonds, Suit::Clubs),
            Suit::Clubs => (Suit::Hearts, Suit::Diamonds, Suit::Spades),
        };
        if s == Suit::Hearts {
            hi.suit
        } else if s == Suit::Diamonds {
            o.0
        } else if s == Suit::Spades {
            o.1
        } else {
            o.2
        }
    } else {
        let first = if hi.suit != Suit::Hearts && lo.suit != Suit::Hearts {
            Suit::Hearts
        } else if hi.suit != Suit::Diamonds && lo.suit != Suit::Diamonds {
            Suit::Diamonds
        } else {
            Suit::Spades
        };
        let second = if first != Suit::Diamonds && hi.suit != Suit::Diamonds && lo.suit
            != Suit::Diamonds {
            Suit::Diamonds
        } else if first != Suit::Spades && hi.suit != Suit::Spades && lo.suit != Suit::Spades {
            Suit::Spades
        } else {
            Suit::Clubs
        };
        if s == Suit::Hearts {
            hi.suit
        } else if s == Suit::Diamonds {
            lo.suit
        } else if s == Suit::Spades {
            first
        } else {
            second
        }
    }
}

/// Look the hand up in the pre-flop table: rewrite it to its canonical
/// suit-isomorphic representative, find the stored entry, and recolor the
/// stored solution's opponent hands back to the input's suits. The counts
/// are copied unchanged, because a suit isomorphism preserves every
/// hand's odds.
pub fn get_precalculated_solution(
    hand: &Vec<Card>,
    solutions: &Vec<PrecalculatedSolution>,
) -> (res: Result<Solution, SolveError>)
    requires
        hand@.len() == 2,
    ensures
        ((res matches Result::Err(SolveError::PreflopNoMatch(_))) <==> preflop_absent(
            hand@,
            solutions@,
        )),
        (res matches Result::Err(SolveError::PreflopNoMatch(h)) ==> h@ == hand@),
        (res matches Result::Ok(sol) ==> preflop_found(sol, hand@, solutions@)),
        ((res matches Result::Ok(sol)) <==> !preflop_absent(hand@, solutions@)),
{
    let h0 = hand[0];
    let h1 = hand[1];
    let (hi, lo) = if rank_index(h0.rank) >= rank_index(h1.rank) {
        (h0, h1)
    } else {
        (h1, h0)
    };
    proof {
        assert(hi == ordered_hi(hand@));
        assert(lo == ordered_lo(hand@));
    }
    let lower_suit = if h0.suit == h1.suit {
        Suit::Hearts
    } else {
        Suit::Diamonds
    };
    proof {
        assert(hi.suit == lo.suit <==> h0.suit == h1.suit);
        assert(lower_suit == rep_lower_suit(hi, lo));
    }
    let rep0 = Card { rank: hi.rank, suit: Suit::Hearts };
    let rep1 = Card { rank: lo.rank, suit: lower_suit };
    let ghost rep = spec_representative(hi, lo);
    let n = solutions.len();
    let mut found: usize = n;
    let mut i: usize = 0;
    while found == n && i < n
        invariant
            n == solutions@.len(),
            rep == spec_representative(ordered_hi(hand@), ordered_lo(hand@)),
            rep.len() == 2,
            rep[0] == rep0,
            rep[1] == rep1,
            0 <= i <= n,
            found == n || preflop_match(solutions@, rep, found as int),
            found == n ==> forall|j: int| 0 <= j < i ==> (#[trigger] solutions@[j]).my_hand@ != rep,
        decreases solutions@.len() - i + (if found == n { 1int } else { 0int }),
    {
        let entry_hand = &solutions[i].my_hand;
        let mut hit = false;
        if entry_hand.len() == 2 {
            let e0 = entry_hand[0];
            let e1 = entry_hand[1];
            if e0 == rep0 && e1 == rep1 {
                proof {
                    assert(solutions@[i as int].my_hand@ =~= rep);
                }
                hit = true;
            }
        }
        if hit {
            found = i;
            proof {
                assert(preflop_match(solutions@, rep, i as int));
            }
        } else {
            proof {
                if solutions@[i as int].my_hand@ == rep {
                    assert(solutions@[i as int].my_hand@.len() == 2);
                    assert(solutions@[i as int].my_hand@[0] == rep0);
                    assert(solutions@[i as int].my_hand@[1] == rep1);
                }
            }
            i = i + 1;
        }
    }
    if found == n {
        let mut looked_up: Vec<Card> = Vec::new();
        looked_up.push(h0);
        looked_up.push(h1);
        proof {
            assert(looked_up@ =~= hand@);
        }
        return Result::Err(SolveError::PreflopNoMatch(looked_up));
    }
    proof {
        assert(preflop_match(solutions@, rep, found as int));
    }
    let stored = &solutions[found].solution;
    let ghost remap = |c: Card| remap_card(hi, lo, c);
    let mut hands: Vec<HandSolution> = Vec::with_capacity(stored.hands.len());
    let mut t: usize = 0;
    while t < stored.hands.len()
        invariant
            found < solutions@.len(),
            stored == solutions@[found as int].solution,
            remap == (|c: Card| remap_card(hi, lo, c)),
            0 <= t <= stored.hands@.len(),
            hands@.len() == t,
            forall|x: int|
                0 <= x < t ==> {
                    let sh = stored.hands@[x];
                    let nh = #[trigger] hands@[x];
                    nh.beats_me_count == sh.beats_me_count && nh.is_beaten_count
                        == sh.is_beaten_count && nh.hand@ == sh.hand@.map_values(remap)
                },
        decreases stored.hands@.len() - t,
    {
        let sh = &stored.hands[t];
        let mut cards: Vec<Card> = Vec::with_capacity(sh.hand.len());
        let mut c_i: usize = 0;
        while c_i < sh.hand.len()
            invariant
                remap == (|c: Card| remap_card(hi, lo, c)),
                sh == stored.hands@[t as int],
                0 <= c_i <= sh.hand@.len(),
                cards@ == sh.hand@.take(c_i as int).map_values(remap),
            decreases sh.hand@.len() - c_i,
        {
            let c = sh.hand[c_i];
            cards.push(Card { rank: c.rank, suit: sigma_apply(hi, lo, c.suit) });
            proof {
                assert(cards@ =~= sh.hand@.take(c_i as int + 1).map_values(remap));
            }
            c_i = c_i + 1;
        }
        proof {
            assert(sh.hand@.take(sh.hand@.len() as int) =~= sh.hand@);
        }
        hands.push(
            HandSolution {
                hand: cards,
                beats_me_count: sh.beats_me_count,
                is_beaten_count: sh.is_beaten_count,
            },
        );
        t = t + 1;
    }
    let sol = Solution {
        hands,
        board_possibilities: stored.board_possibilities,
        win_count: stored.win_count,
        lose_count: stored.lose_count,
    };
    proof {
        assert(remapped_solution(sol, solutions@[found as int].solution, hi, lo));
    }
    Result::Ok(sol)
}

/// The 169 pre-flop representative hands: for each rank pair `r1 >= r2`,
/// the suited hand `(r1 hearts, r2 hearts)` when the ranks differ, and
/// always the offsuit or pair hand `(r1 hearts, r2 diamonds)`.
pub fn preflop_representatives() -> (reps: Vec<Vec<Card>>)
    ensures
        reps@.len() == 169,
        forall|a: int, b: int, suited: bool|
            0 <= b <= a < 13 && (suited ==> b < a) ==> #[trigger] reps_has(reps@, a, b, suited),
        forall|i: int|
            0 <= i < reps@.len() ==> {
                let r = #[trigger] reps@[i];
                &&& r@.len() == 2
                &&& rank_ord(r@[0].rank) >= rank_ord(r@[1].rank)
                &&& r@[0].suit == Suit::Hearts
                &&& (r@[1].suit == Suit::Hearts || r@[1].suit == Suit::Diamonds)
                &&& (r@[1].suit == Suit::Hearts ==> r@[0].rank != r@[1].rank)
                &&& r@[0] != r@[1]
                &&& r@ == spec_representative(r@[0], r@[1])
            },
{
    let mut reps: Vec<Vec<Card>> = Vec::new();
    let mut r1: u8 = 0;
    while r1 < 13
        invariant
            0 <= r1 <= 13,
            reps@.len() == r1 * r1,
            forall|a: int, b: int, suited: bool|
                0 <= b <= a < r1 && (suited ==> b < a) ==> #[trigger] reps_has(
                    reps@,
                    a,
                    b,
                    suited,
                ),
            forall|i: int|
                0 <= i < reps@.len() ==> {
                    let r = #[trigger] reps@[i];
                    &&& r@.len() == 2
                    &&& rank_ord(r@[0].rank) >= rank_ord(r@[1].rank)
                    &&& r@[0].suit == Suit::Hearts
                    &&& (r@[1].suit == Suit::Hearts || r@[1].suit == Suit::Diamonds)
                    &&& (r@[1].suit == Suit::Hearts ==> r@[0].rank != r@[1].rank)
                    &&& r@[0] != r@[1]
                    &&& r@ == spec_representative(r@[0], r@[1])
                },
        decreases 13 - r1,
    {
        let rank1 = rank_from_index(r1);
        let mut r2: u8 = 0;
        while r2 < r1
            invariant
                0 <= r1 < 13,
                rank1 == rank_of_ord(r1 as int),
                rank_ord(rank1) == r1,
                0 <= r2 <= r1,
                reps@.len() == r1 * r1 + 2 * r2,
                forall|a: int, b: int, suited: bool|
                    0 <= b <= a < r1 && (suited ==> b < a) ==> #[trigger] reps_has(
                        reps@,
                        a,
                        b,
                        suited,
                    ),
                forall|b: int, suited: bool|
                    0 <= b < r2 ==> #[trigger] reps_has(reps@, r1 as int, b, suited),
                forall|i: int|
                    0 <= i < reps@.len() ==> {
                        let r = #[trigger] reps@[i];
                        &&& r@.len() == 2
                        &&& rank_ord(r@[0].rank) >= rank_ord(r@[1].rank)
                        &&& r@[0].suit == Suit::Hearts
                        &&& (r@[1].suit == Suit::Hearts || r@[1].suit == Suit::Diamonds)
                        &&& (r@[1].suit == Suit::Hearts ==> r@[0].rank != r@[1].rank)
                        &&& r@[0] != r@[1]
                        &&& r@ == spec_representative(r@[0], r@[1])
                    },
            decreases r1 - r2,
        {
            let rank2 = rank_from_index(r2);
            let ghost reps0 = reps@;
            let ghost len0 = reps@.len();
            let mut suited_rep: Vec<Card> = Vec::new();
            suited_rep.push(Card { rank: rank1, suit: Suit::Hearts });
            suited_rep.push(Card { rank: rank2, suit: Suit::Hearts });
            proof {
                let s = suited_rep@;
                assert(s.len() == 2 && s[0].rank == rank1 && s[1].rank == rank2);
                assert(s =~= spec_representative(s[0], s[1]));
                assert(s =~= rep_hand_of(r1 as int, r2 as int, true));
            }
            reps.push(suited_rep);
            let mut offsuit_rep: Vec<Card> = Vec::new();
            offsuit_rep.push(Card { rank: rank1, suit: Suit::Hearts });
            offsuit_rep.push(Card { rank: rank2, suit: Suit::Diamonds });
            proof {
                let s = offsuit_rep@;
                assert(s =~= spec_representative(s[0], s[1]));
                assert(s =~= rep_hand_of(r1 as int, r2 as int, false));
            }
            reps.push(offsuit_rep);
            proof {
                // The earlier witnesses survive the two pushes; the new
                // entries witness the pair of ranks just handled.
                assert((reps@[len0 as int])@ == rep_hand_of(r1 as int, r2 as int, true));
                assert((reps@[len0 as int + 1])@ == rep_hand_of(r1 as int, r2 as int, false));
                assert forall|a: int, b: int, suited: bool|
                    0 <= b <= a < r1 && (suited ==> b < a) implies #[trigger] reps_has(
                        reps@,
                        a,
                        b,
                        suited,
                    ) by {
                    assert(reps_has(reps0, a, b, suited));
                    let i = choose|i: int|
                        0 <= i < reps0.len() && (#[trigger] reps0[i])@ == rep_hand_of(a, b, suited);
                    assert(reps@[i] == reps0[i]);
                }
                assert forall|b: int, suited: bool| 0 <= b < r2 + 1 implies #[trigger] reps_has(
                    reps@,
                    r1 as int,
                    b,
                    suited,
                ) by {
                    if b == r2 {
                        if suited {
                            assert((reps@[len0 as int])@ == rep_hand_of(r1 as int, b, suited));
                        } else {
                            assert((reps@[len0 as int + 1])@ == rep_hand_of(r1 as int, b, suited));
                        }
                    } else {
                        assert(reps_has(reps0, r1 as int, b, suited));
                        let i = choose|i: int|
                            0 <= i < reps0.len() && (#[trigger] reps0[i])@ == rep_hand_of(
                                r1 as int,
                                b,
                                suited,
                            );
                        assert(reps@[i] == reps0[i]);
                    }
                }
            }
            r2 = r2 + 1;
        }
        let ghost reps1 = reps@;
        let ghost len1 = reps@.len();
        let mut pair: Vec<Card> = Vec::new();
        pair.push(Card { rank: rank1, suit: Suit::Hearts });
        pair.push(Card { rank: rank1, suit: Suit::Diamonds });
        proof {
            let s = pair@;
            assert(s =~= spec_representative(s[0], s[1]));
            assert(s =~= rep_hand_of(r1 as int, r1 as int, false));
            assert((r1 + 1) * (r1 + 1) == r1 * r1 + 2 * r1 + 1) by (nonlinear_arith);
        }
        reps.push(pair);
        proof {
            // Everything below this rank was complete; the row for this
            // rank was filled by the inner loop, and the pair entry ends it.
            assert((reps@[len1 as int])@ == rep_hand_of(r1 as int, r1 as int, false));
            assert forall|a: int, b: int, suited: bool|
                0 <= b <= a < r1 + 1 && (suited ==> b < a) implies #[trigger] reps_has(
                    reps@,
                    a,
                    b,
                    suited,
                ) by {
                if a == r1 && b == r1 {
                    assert((reps@[len1 as int])@ == rep_hand_of(a, b, suited));
                } else {
                    if a == r1 {
                        assert(reps_has(reps1, r1 as int, b, suited));
                    } else {
                        assert(reps_has(reps1, a, b, suited));
                    }
                    let i = choose|i: int|
                        0 <= i < reps1.len() && (#[trigger] reps1[i])@ == rep_hand_of(a, b, suited);
                    assert(reps@[i] == reps1[i]);
                }
            }
        }
        r1 = r1 + 1;
    }
    reps
}

/// Produce the full pre-flop table: solve every representative hand over
/// an empty board against the full deck. The evaluator cache is shared
/// across all 169 solves.
pub fn precalculate_solutions() -> (res: Vec<PrecalculatedSolution>)
    ensures
        res@.len() == 169,
        preflop_table_complete(res@),
        forall|i: int|
            0 <= i < res@.len() ==> (#[trigger] res@[i]).my_hand@.len() == 2 && res@[i].my_hand@
                == spec_representative(res@[i].my_hand@[0], res@[i].my_hand@[1]),
        forall|i: int|
            0 <= i < res@.len() ==> solution_correct(
                (#[trigger] res@[i]).solution,
                res@[i].my_hand@,
                board_of_five_empty(),
                spec_full_deck(),
            ),
{
    let deck = full_deck();
    let mut cache = EvalCache::new();
    let reps = preflop_representatives();
    let mut out: Vec<PrecalculatedSolution> = Vec::with_capacity(reps.len());
    let mut i: usize = 0;
    while i < reps.len()
        invariant
            cache.wf(),
            deck@ == spec_full_deck(),
            deck@.len() == 52,
            crate::types::distinct_seq(deck@),
            reps@.len() == 169,
            forall|a: int, b: int, suited: bool|
                0 <= b <= a < 13 && (suited ==> b < a) ==> #[trigger] reps_has(
                    reps@,
                    a,
                    b,
                    suited,
                ),
            forall|x: int|
                0 <= x < reps@.len() ==> {
                    let r = #[trigger] reps@[x];
                    &&& r@.len() == 2
                    &&& r@[0] != r@[1]
                    &&& r@ == spec_representative(r@[0], r@[1])
                },
            0 <= i <= reps@.len(),
            out@.len() == i,
            forall|x: int| 0 <= x < i ==> (#[trigger] out@[x]).my_hand@ == reps@[x]@,
            forall|x: int|
                0 <= x < i ==> (#[trigger] out@[x]).my_hand@.len() == 2 && out@[x].my_hand@
                    == spec_representative(out@[x].my_hand@[0], out@[x].my_hand@[1]),
            forall|x: int|
                0 <= x < i ==> solution_correct(
                    (#[trigger] out@[x]).solution,
                    out@[x].my_hand@,
                    board_of_five_empty(),
                    spec_full_deck(),
                ),
        decreases reps@.len() - i,
    {
        let rep = &reps[i];
        let mut hand: Vec<Card> = Vec::new();
        hand.push(rep[0]);
        hand.push(rep[1]);
        proof {
            assert(hand@ =~= rep@);
        }
        let mut board: Vec<Option<Card>> = Vec::new();
        let mut b: usize = 0;
        while b < 5
            invariant
                0 <= b <= 5,
                board@.len() == b,
                forall|x: int| 0 <= x < b ==> board@[x] is None,
            decreases 5 - b,
        {
            board.push(Option::None);
            b = b + 1;
        }
        proof {
            assert(board@ =~= board_of_five_empty());
            lemma_five_empty_board();
        }
        let table = Table { hand, board };
        proof {
            let used = crate::solve::spec_used(table.hand@, table.board@);
            assert(board_cards(table.board@) =~= Seq::<Card>::empty());
            assert(used =~= table.hand@);
            assert(crate::types::distinct_seq(used)) by {
                assert(used.len() == 2 && used[0] != used[1]);
            }
            assert forall|x: int| 0 <= x < used.len() implies spec_full_deck().contains(
                #[trigger] used[x],
            ) by {
                lemma_full_deck_contains(used[x]);
            }
            assert(valid_input(table.hand@, table.board@, deck@));
        }
        let solved = solve_with_deck(&table, deck.as_slice(), &mut cache);
        match solved {
            Result::Ok(solution) => {
                out.push(PrecalculatedSolution { my_hand: table.hand, solution });
                proof {
                    assert((out@[i as int]).my_hand@ == reps@[i as int]@);
                }
            },
            Result::Err(_) => {
                proof {
                    assert(false);
                }
            },
        }
        i = i + 1;
    }
    proof {
        assert forall|a: int, b: int, suited: bool|
            0 <= b <= a < 13 && (suited ==> b < a) implies #[trigger] has_rep(
                out@,
                a,
                b,
                suited,
            ) by {
            assert(reps_has(reps@, a, b, suited));
            let x = choose|x: int|
                0 <= x < reps@.len() && (#[trigger] reps@[x])@ == rep_hand_of(a, b, suited);
            assert((out@[x]).my_hand@ == rep_hand_of(a, b, suited));
        }
    }
    out
}

/// Five empty board slots.
pub open spec fn board_of_five_empty() -> Seq<Option<Card>> {
    seq![Option::None, Option::None, Option::None, Option::None, Option::None]
}

/// A board of empty slots holds no revealed card.
pub proof fn lemma_board_all_empty(board: Seq<Option<Card>>)
    requires
        forall|i: int| 0 <= i < board.len() ==> board[i] is None,
    ensures
        board_cards(board) == Seq::<Card>::empty(),
        board_empty_count(board) == board.len(),
    decreases board.len(),
{
    if board.len() > 0 {
        assert(board[0] is None);
        assert forall|i: int| 0 <= i < board.drop_first().len() implies board.drop_first()[i]
            is None by {
            assert(board.drop_first()[i] == board[i + 1]);
        }
        lemma_board_all_empty(board.drop_first());
        assert(board_cards(board) =~= Seq::<Card>::empty());
    } else {
        assert(board_cards(board) =~= Seq::<Card>::empty());
    }
}

/// An empty board has five empty slots and no revealed card.
pub proof fn lemma_five_empty_board()
    ensures
        board_cards(board_of_five_empty()) == Seq::<Card>::empty(),
        board_empty_count(board_of_five_empty()) == 5,
{
    let b = board_of_five_empty();
    assert forall|i: int| 0 <= i < b.len() implies b[i] is None by {}
    lemma_board_all_empty(b);
}

} // verus!
