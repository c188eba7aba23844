//! The solve driver: deck construction, validation, candidate-hand and
//! board-completion enumeration, per-hand outcome counts, and aggregation
//! into the final solution.

use vstd::prelude::*;
use crate::types::{
    Card, HandSolution, Solution, SolveError, Table, BOARD_SIZE, card_ord,
    distinct_seq, hand_card_le, rank_from_index, rank_index, rank_of_ord, rank_ord,
    suit_from_index, suit_index, suit_of_ord, suit_ord,
};
use crate::evaluator::{
    EvalCache, best_combination, count_matching, lemma_count_matching_le, spec_eval,
};
use crate::types::{lemma_rank_roundtrip, lemma_suit_roundtrip};
use crate::signal::AbortSignal;
use crate::preflop::{get_precalculated_solution, preflop_found, preflop_absent};
use crate::types::PrecalculatedSolution;

verus! {

/// The binomial coefficient: how many `m`-element subsets an `n`-element
/// set has.
pub open spec fn spec_choose(n: nat, m: nat) -> nat
    decreases n, m,
{
    if m == 0 {
        1
    } else if n == 0 {
        0
    } else {
        spec_choose((n - 1) as nat, (m - 1) as nat) + spec_choose((n - 1) as nat, m)
    }
}

/// `2^n`.
pub open spec fn pow2n(n: nat) -> int
    decreases n,
{
    if n == 0 {
        1
    } else {
        2 * pow2n((n - 1) as nat)
    }
}

proof fn lemma_pow2n_mono(m: nat, n: nat)
    requires
        m <= n,
    ensures
        1 <= pow2n(m) <= pow2n(n),
    decreases n,
{
    if n > 0 {
        if m == n {
            lemma_pow2n_mono(0, (n - 1) as nat);
        } else {
            lemma_pow2n_mono(m, (n - 1) as nat);
        }
    }
}

/// A row of Pascal's triangle sums to at most a power of two.
proof fn lemma_choose_le_pow2(n: nat, m: nat)
    ensures
        spec_choose(n, m) <= pow2n(n),
    decreases n, m,
{
    if m == 0 {
        lemma_pow2n_mono(0, n);
    } else if n == 0 {
    } else {
        lemma_choose_le_pow2((n - 1) as nat, (m - 1) as nat);
        lemma_choose_le_pow2((n - 1) as nat, m);
    }
}


/// The value of `2^52`, by direct unfolding.
proof fn lemma_pow2n_52()
    ensures
        pow2n(52) == 0x10000000000000,
{
    assert(pow2n(52) == 0x10000000000000) by {
        assert(pow2n(0) == 1);
        assert(pow2n(1) == 2);
        assert(pow2n(2) == 4);
        assert(pow2n(3) == 8);
        assert(pow2n(4) == 16);
        assert(pow2n(5) == 32);
        assert(pow2n(6) == 64);
        assert(pow2n(7) == 128);
        assert(pow2n(8) == 256);
        assert(pow2n(9) == 512);
        assert(pow2n(10) == 1024);
        assert(pow2n(11) == 2048);
        assert(pow2n(12) == 4096);
        assert(pow2n(13) == 8192);
        assert(pow2n(14) == 16384);
        assert(pow2n(15) == 32768);
        assert(pow2n(16) == 65536);
        assert(pow2n(17) == 131072);
        assert(pow2n(18) == 262144);
        assert(pow2n(19) == 524288);
        assert(pow2n(20) == 1048576);
        assert(pow2n(21) == 2097152);
        assert(pow2n(22) == 4194304);
        assert(pow2n(23) == 8388608);
        assert(pow2n(24) == 16777216);
        assert(pow2n(25) == 33554432);
        assert(pow2n(26) == 67108864);
        assert(pow2n(27) == 134217728);
        assert(pow2n(28) == 268435456);
        assert(pow2n(29) == 536870912);
        assert(pow2n(30) == 1073741824);
        assert(pow2n(31) == 2147483648);
        assert(pow2n(32) == 4294967296);
        assert(pow2n(33) == 8589934592);
        assert(pow2n(34) == 17179869184);
        assert(pow2n(35) == 34359738368);
        assert(pow2n(36) == 68719476736);
        assert(pow2n(37) == 137438953472);
        assert(pow2n(38) == 274877906944);
        assert(pow2n(39) == 549755813888);
        assert(pow2n(40) == 1099511627776);
        assert(pow2n(41) == 2199023255552);
        assert(pow2n(42) == 4398046511104);
        assert(pow2n(43) == 8796093022208);
        assert(pow2n(44) == 17592186044416);
        assert(pow2n(45) == 35184372088832);
        assert(pow2n(46) == 70368744177664);
        assert(pow2n(47) == 140737488355328);
        assert(pow2n(48) == 281474976710656);
        assert(pow2n(49) == 562949953421312);
        assert(pow2n(50) == 1125899906842624);
        assert(pow2n(51) == 2251799813685248);
        assert(pow2n(52) == 4503599627370496);
    }
}


/// Binomial coefficients over a deck-sized set fit comfortably in a
/// machine word.
proof fn lemma_choose_fits(n: nat, m: nat)
    requires
        n <= 52,
    ensures
        spec_choose(n, m) <= 0x10000000000000,
{
    lemma_choose_le_pow2(n, m);
    lemma_pow2n_mono(n, 52);
    lemma_pow2n_52();
}

/// The binomial coefficient `C(n, m)`, by Pascal's rule.
pub fn n_choose_m(n: usize, m: usize) -> (r: u64)
    requires
        m <= n,
        n <= 52,
    ensures
        r == spec_choose(n as nat, m as nat),
{
    let mut row: Vec<u64> = vec![0u64; m + 1];
    row[0] = 1;
    proof {
        assert forall|j: int| 0 <= j <= m implies row@[j] == spec_choose(0, j as nat) by {}
    }
    let mut i: usize = 0;
    while i < n
        invariant
            row@.len() == m + 1,
            m <= n <= 52,
            i <= n,
            forall|j: int| 0 <= j <= m ==> row@[j] == spec_choose(i as nat, j as nat),
        decreases n - i,
    {
        let mut j: usize = m;
        while j >= 1
            invariant
                row@.len() == m + 1,
                m <= n <= 52,
                i < n,
                0 <= j <= m,
                forall|t: int| j < t <= m ==> row@[t] == spec_choose((i + 1) as nat, t as nat),
                forall|t: int| 0 <= t <= j ==> row@[t] == spec_choose(i as nat, t as nat),
            decreases j,
        {
            proof {
                lemma_choose_fits((i + 1) as nat, j as nat);
                lemma_choose_fits(i as nat, j as nat);
                lemma_choose_fits(i as nat, (j - 1) as nat);
            }
            row[j] = row[j] + row[j - 1];
            j = j - 1;
        }
        i = i + 1;
    }
    let out = row[m];
    out
}

/// The full 52-card deck: suits in enum order, ranks ascending within each
/// suit.
pub open spec fn spec_full_deck() -> Seq<Card> {
    Seq::new(52, |i: int| Card { rank: rank_of_ord(i % 13), suit: suit_of_ord(i / 13) })
}

/// Ranks are recovered from ordinals in range.
proof fn lemma_rank_of_ord_inj(x: int, y: int)
    requires
        0 <= x < 13,
        0 <= y < 13,
        rank_of_ord(x) == rank_of_ord(y),
    ensures
        x == y,
{
    assert(rank_ord(rank_of_ord(x)) == x);
    assert(rank_ord(rank_of_ord(y)) == y);
}

/// Suits are recovered from ordinals in range.
proof fn lemma_suit_of_ord_inj(x: int, y: int)
    requires
        0 <= x < 4,
        0 <= y < 4,
        suit_of_ord(x) == suit_of_ord(y),
    ensures
        x == y,
{
    assert(suit_ord(suit_of_ord(x)) == x);
    assert(suit_ord(suit_of_ord(y)) == y);
}

/// No card appears twice in the full deck.
pub proof fn lemma_full_deck_distinct()
    ensures
        distinct_seq(spec_full_deck()),
{
    assert forall|i: int, j: int| 0 <= i < j < 52 implies spec_full_deck()[i]
        != spec_full_deck()[j] by {
        if spec_full_deck()[i] == spec_full_deck()[j] {
            lemma_rank_of_ord_inj(i % 13, j % 13);
            lemma_suit_of_ord_inj(i / 13, j / 13);
        }
    }
}

/// Every card stands in the full deck.
pub proof fn lemma_full_deck_contains(c: Card)
    ensures
        spec_full_deck().contains(c),
{
    let i = suit_ord(c.suit) * 13 + rank_ord(c.rank);
    lemma_rank_roundtrip(c.rank);
    lemma_suit_roundtrip(c.suit);
    assert(i % 13 == rank_ord(c.rank) && i / 13 == suit_ord(c.suit)) by {
        assert(0 <= rank_ord(c.rank) < 13);
        assert(0 <= suit_ord(c.suit) < 4);
    }
    assert(spec_full_deck()[i] == c);
}

/// The full 52-card deck.
pub fn full_deck() -> (deck: Vec<Card>)
    ensures
        deck@ == spec_full_deck(),
        deck@.len() == 52,
        distinct_seq(deck@),
{
    let mut deck: Vec<Card> = Vec::new();
    let mut si: u8 = 0;
    while si < 4
        invariant
            0 <= si <= 4,
            deck@.len() == si * 13,
            forall|t: int| 0 <= t < deck@.len() ==> deck@[t] == spec_full_deck()[t],
        decreases 4 - si,
    {
        let mut ri: u8 = 0;
        while ri < 13
            invariant
                0 <= si < 4,
                0 <= ri <= 13,
                deck@.len() == si * 13 + ri,
                forall|t: int| 0 <= t < deck@.len() ==> deck@[t] == spec_full_deck()[t],
            decreases 13 - ri,
        {
            let card = Card { rank: rank_from_index(ri), suit: suit_from_index(si) };
            deck.push(card);
            proof {
                let t = si * 13 + ri;
                assert(t % 13 == ri && t / 13 == si);
                assert(spec_full_deck()[t as int] == card);
            }
            ri = ri + 1;
        }
        si = si + 1;
    }
    proof {
        assert(deck@ =~= spec_full_deck());
        lemma_full_deck_distinct();
    }
    deck
}


/// `s` with every card of `ex` removed, in order.
pub open spec fn seq_diff(s: Seq<Card>, ex: Seq<Card>) -> Seq<Card>
    decreases s.len(),
{
    if s.len() == 0 {
        Seq::empty()
    } else {
        (if ex.contains(s.first()) {
            Seq::<Card>::empty()
        } else {
            seq![s.first()]
        }) + seq_diff(s.drop_first(), ex)
    }
}

/// Every card of the difference comes from `s` and misses `ex`.
proof fn lemma_seq_diff_subset(s: Seq<Card>, ex: Seq<Card>)
    ensures
        forall|x: Card| #[trigger] seq_diff(s, ex).contains(x) ==> s.contains(x) && !ex.contains(x),
    decreases s.len(),
{
    if s.len() > 0 {
        lemma_seq_diff_subset(s.drop_first(), ex);
        assert forall|x: Card| #[trigger] seq_diff(s, ex).contains(x) implies s.contains(x)
            && !ex.contains(x) by {
            let d = seq_diff(s, ex);
            let i = choose|i: int| 0 <= i < d.len() && d[i] == x;
            if ex.contains(s.first()) {
                assert(d[i] == seq_diff(s.drop_first(), ex)[i]);
                assert(seq_diff(s.drop_first(), ex).contains(x));
                let j = choose|j: int|
                    0 <= j < s.drop_first().len() && s.drop_first()[j] == x;
                assert(s[j + 1] == x);
            } else {
                if i == 0 {
                    assert(x == s.first());
                    assert(s[0] == x);
                } else {
                    assert(d[i] == seq_diff(s.drop_first(), ex)[i - 1]);
                    assert(seq_diff(s.drop_first(), ex).contains(x));
                    let j = choose|j: int|
                        0 <= j < s.drop_first().len() && s.drop_first()[j] == x;
                    assert(s[j + 1] == x);
                }
            }
        }
    }
}

/// The difference of a duplicate-free sequence is duplicate-free.
proof fn lemma_seq_diff_distinct(s: Seq<Card>, ex: Seq<Card>)
    requires
        distinct_seq(s),
    ensures
        distinct_seq(seq_diff(s, ex)),
    decreases s.len(),
{
    if s.len() > 0 {
        let d = seq_diff(s, ex);
        let rest = seq_diff(s.drop_first(), ex);
        assert forall|i: int, j: int| 0 <= i < j < s.drop_first().len() implies s.drop_first()[i]
            != s.drop_first()[j] by {
            assert(s.drop_first()[i] == s[i + 1]);
            assert(s.drop_first()[j] == s[j + 1]);
        }
        lemma_seq_diff_distinct(s.drop_first(), ex);
        lemma_seq_diff_subset(s.drop_first(), ex);
        if !ex.contains(s.first()) {
            assert forall|i: int, j: int| 0 <= i < j < d.len() implies d[i] != d[j] by {
                if i == 0 {
                    assert(d[j] == rest[j - 1]);
                    assert(rest.contains(rest[j - 1]));
                    assert(s.drop_first().contains(rest[j - 1]));
                    let t = choose|t: int|
                        0 <= t < s.drop_first().len() && s.drop_first()[t] == rest[j - 1];
                    assert(s[t + 1] == rest[j - 1]);
                    assert(s[0] != s[t + 1]);
                } else {
                    assert(d[i] == rest[i - 1] && d[j] == rest[j - 1]);
                }
            }
        }
    }
}

/// Splitting a count over two disjoint predicates.
proof fn lemma_count_split<A>(s: Seq<A>, p: spec_fn(A) -> bool, q: spec_fn(A) -> bool, pq: spec_fn(A) -> bool)
    requires
        forall|x: A| #[trigger] pq(x) <==> (p(x) || q(x)),
        forall|x: A| !(#[trigger] p(x) && q(x)),
    ensures
        count_matching(s, pq) == count_matching(s, p) + count_matching(s, q),
    decreases s.len(),
{
    if s.len() > 0 {
        lemma_count_split(s.drop_first(), p, q, pq);
        assert(pq(s.first()) <==> (p(s.first()) || q(s.first())));
    }
}

/// A value that is absent matches nothing.
proof fn lemma_count_absent<A>(s: Seq<A>, p: spec_fn(A) -> bool)
    requires
        forall|i: int| 0 <= i < s.len() ==> !p(#[trigger] s[i]),
    ensures
        count_matching(s, p) == 0,
    decreases s.len(),
{
    if s.len() > 0 {
        assert forall|i: int| 0 <= i < s.drop_first().len() implies !p(
            #[trigger] s.drop_first()[i],
        ) by {
            assert(s.drop_first()[i] == s[i + 1]);
        }
        lemma_count_absent(s.drop_first(), p);
        assert(!p(s[0]));
    }
}

/// A duplicate-free sequence holds a present value exactly once.
proof fn lemma_count_once(s: Seq<Card>, e: Card)
    requires
        distinct_seq(s),
        s.contains(e),
    ensures
        count_matching(s, |c: Card| c == e) == 1,
    decreases s.len(),
{
    let p = |c: Card| c == e;
    if s.first() == e {
        assert forall|i: int| 0 <= i < s.drop_first().len() implies !p(
            #[trigger] s.drop_first()[i],
        ) by {
            assert(s.drop_first()[i] == s[i + 1]);
            assert(s[0] != s[i + 1]);
        }
        lemma_count_absent(s.drop_first(), p);
        assert(p(s.first()));
    } else {
        let i = choose|i: int| 0 <= i < s.len() && s[i] == e;
        assert(s.drop_first()[i - 1] == e);
        assert(s.drop_first().contains(e));
        assert forall|a: int, b: int| 0 <= a < b < s.drop_first().len() implies s.drop_first()[a]
            != s.drop_first()[b] by {
            assert(s.drop_first()[a] == s[a + 1]);
            assert(s.drop_first()[b] == s[b + 1]);
        }
        lemma_count_once(s.drop_first(), e);
        assert(!p(s.first()));
    }
}

/// The difference drops one card of `s` for each member of `ex`.
proof fn lemma_count_diff(s: Seq<Card>, ex: Seq<Card>)
    ensures
        seq_diff(s, ex).len() + count_matching(s, |c: Card| ex.contains(c)) == s.len(),
    decreases s.len(),
{
    if s.len() > 0 {
        lemma_count_diff(s.drop_first(), ex);
    }
}

/// How many cards of a duplicate-free `s` lie in a duplicate-free `ex`
/// all of whose cards come from `s`.
proof fn lemma_count_members(s: Seq<Card>, ex: Seq<Card>)
    requires
        distinct_seq(s),
        distinct_seq(ex),
        forall|i: int| 0 <= i < ex.len() ==> s.contains(#[trigger] ex[i]),
    ensures
        count_matching(s, |c: Card| ex.contains(c)) == ex.len(),
    decreases ex.len(),
{
    if ex.len() == 0 {
        lemma_count_absent(s, |c: Card| ex.contains(c));
    } else {
        let e = ex.last();
        let ex2 = ex.drop_last();
        assert forall|i: int| 0 <= i < ex2.len() implies s.contains(#[trigger] ex2[i]) by {
            assert(ex2[i] == ex[i]);
        }
        lemma_count_members(s, ex2);
        assert(s.contains(ex[ex.len() - 1]));
        lemma_count_once(s, e);
        let p = |c: Card| ex2.contains(c);
        let q = |c: Card| c == e;
        assert forall|x: Card| #[trigger] ex.contains(x) <==> (p(x) || q(x)) by {
            if ex.contains(x) {
                let i = choose|i: int| 0 <= i < ex.len() && ex[i] == x;
                if i < ex.len() - 1 {
                    assert(ex2[i] == x);
                }
            }
            if p(x) {
                let i = choose|i: int| 0 <= i < ex2.len() && ex2[i] == x;
                assert(ex[i] == x);
            }
            if q(x) {
                assert(ex[ex.len() - 1] == x);
            }
        }
        assert forall|x: Card| !(#[trigger] p(x) && q(x)) by {
            if p(x) && q(x) {
                let i = choose|i: int| 0 <= i < ex2.len() && ex2[i] == x;
                assert(ex[i] == ex[ex.len() - 1]);
            }
        }
        lemma_count_split(s, p, q, |c: Card| ex.contains(c));
    }
}

/// The difference with a duplicate-free subset shrinks by its length.
proof fn lemma_seq_diff_len(s: Seq<Card>, ex: Seq<Card>)
    requires
        distinct_seq(s),
        distinct_seq(ex),
        forall|i: int| 0 <= i < ex.len() ==> s.contains(#[trigger] ex[i]),
    ensures
        seq_diff(s, ex).len() == s.len() - ex.len(),
{
    lemma_count_diff(s, ex);
    lemma_count_members(s, ex);
}

/// The revealed board cards, in slot order.
pub open spec fn board_cards(board: Seq<Option<Card>>) -> Seq<Card>
    decreases board.len(),
{
    if board.len() == 0 {
        Seq::empty()
    } else {
        (match board.first() {
            Option::Some(c) => seq![c],
            Option::None => Seq::<Card>::empty(),
        }) + board_cards(board.drop_first())
    }
}

/// How many board slots are still empty.
pub open spec fn board_empty_count(board: Seq<Option<Card>>) -> nat
    decreases board.len(),
{
    if board.len() == 0 {
        0
    } else {
        (match board.first() {
            Option::Some(_) => 0nat,
            Option::None => 1nat,
        }) + board_empty_count(board.drop_first())
    }
}

/// Revealed and empty slots partition the board.
pub proof fn lemma_board_partition(board: Seq<Option<Card>>)
    ensures
        board_cards(board).len() + board_empty_count(board) == board.len(),
    decreases board.len(),
{
    if board.len() > 0 {
        lemma_board_partition(board.drop_first());
    }
}


/// Outcome counts for one candidate hand over every way to draw `k` more
/// board cards from `deck`: how many completions the opponent wins
/// (`beats me`) and how many the player wins (`is beaten`). Ties count for
/// neither side. Each draw either takes the deck's first card or leaves it.
pub open spec fn spec_outcomes(my: Seq<Card>, opp: Seq<Card>, deck: Seq<Card>, k: nat) -> (nat,
    nat)
    decreases k, deck.len(),
{
    if k == 0 {
        if spec_eval(my) < spec_eval(opp) {
            (1nat, 0nat)
        } else if spec_eval(my) > spec_eval(opp) {
            (0nat, 1nat)
        } else {
            (0nat, 0nat)
        }
    } else if deck.len() < k {
        (0nat, 0nat)
    } else {
        let taken = spec_outcomes(
            my.push(deck.first()),
            opp.push(deck.first()),
            deck.drop_first(),
            (k - 1) as nat,
        );
        let left = spec_outcomes(my, opp, deck.drop_first(), k);
        ((taken.0 + left.0) as nat, (taken.1 + left.1) as nat)
    }
}

/// Wins and losses together never exceed the number of completions.
proof fn lemma_outcomes_bound(my: Seq<Card>, opp: Seq<Card>, deck: Seq<Card>, k: nat)
    ensures
        spec_outcomes(my, opp, deck, k).0 + spec_outcomes(my, opp, deck, k).1 <= spec_choose(
            deck.len(),
            k,
        ),
    decreases k, deck.len(),
{
    if k == 0 {
    } else if deck.len() < k {
    } else {
        lemma_outcomes_bound(
            my.push(deck.first()),
            opp.push(deck.first()),
            deck.drop_first(),
            (k - 1) as nat,
        );
        lemma_outcomes_bound(my, opp, deck.drop_first(), k);
    }
}

/// Count the outcomes of every way to draw `k` cards from
/// `deck[start..]` on top of the fixed cards in `my` and `opp`.
/// The two buffers come back unchanged.
fn count_outcomes(
    my: &mut Vec<Card>,
    opp: &mut Vec<Card>,
    deck: &Vec<Card>,
    start: usize,
    k: usize,
    cache: &mut EvalCache,
) -> (r: (u64, u64))
    requires
        old(cache).wf(),
        start <= deck@.len() <= 52,
        old(my)@.len() + k == 7,
        old(opp)@.len() + k == 7,
    ensures
        final(cache).wf(),
        final(my)@ == old(my)@,
        final(opp)@ == old(opp)@,
        r.0 == spec_outcomes(old(my)@, old(opp)@, deck@.skip(start as int), k as nat).0,
        r.1 == spec_outcomes(old(my)@, old(opp)@, deck@.skip(start as int), k as nat).1,
    decreases k, deck@.len() - start,
{
    let ghost rest = deck@.skip(start as int);
    if k == 0 {
        let ms = best_combination(my.as_slice(), cache);
        let os = best_combination(opp.as_slice(), cache);
        if ms < os {
            (1, 0)
        } else if ms > os {
            (0, 1)
        } else {
            (0, 0)
        }
    } else if deck.len() - start < k {
        (0, 0)
    } else {
        let card = deck[start];
        proof {
            assert(rest.first() == deck@[start as int]);
            assert(rest.drop_first() =~= deck@.skip(start as int + 1));
        }
        my.push(card);
        opp.push(card);
        let (a1, b1) = count_outcomes(my, opp, deck, start + 1, k - 1, cache);
        let ghost my_pushed = my@;
        let ghost opp_pushed = opp@;
        my.pop();
        opp.pop();
        proof {
            assert(my@ =~= old(my)@);
            assert(opp@ =~= old(opp)@);
        }
        let (a2, b2) = count_outcomes(my, opp, deck, start + 1, k, cache);
        proof {
            lemma_outcomes_bound(
                old(my)@.push(rest.first()),
                old(opp)@.push(rest.first()),
                rest.drop_first(),
                (k - 1) as nat,
            );
            lemma_outcomes_bound(old(my)@, old(opp)@, rest.drop_first(), k as nat);
            lemma_choose_fits(rest.drop_first().len(), (k - 1) as nat);
            lemma_choose_fits(rest.drop_first().len(), k as nat);
        }
        (a1 + a2, b1 + b2)
    }
}

/// All unordered pairs of cards from the remaining deck, each pair sorted
/// by rank descending then suit ascending; pairs with the deck's first card
/// come first.
pub open spec fn sorted_pair(a: Card, b: Card) -> Seq<Card> {
    if hand_card_le(a, b) {
        seq![a, b]
    } else {
        seq![b, a]
    }
}

/// The pairs made of `s`'s first card and each later card, in order.
pub open spec fn pairs_with_first(s: Seq<Card>) -> Seq<Seq<Card>> {
    if s.len() == 0 {
        Seq::empty()
    } else {
        Seq::new((s.len() - 1) as nat, |j: int| sorted_pair(s[0], s[j + 1]))
    }
}

/// All unordered pairs of cards from `s`, in enumeration order.
pub open spec fn spec_candidates(s: Seq<Card>) -> Seq<Seq<Card>>
    decreases s.len(),
{
    if s.len() < 2 {
        Seq::empty()
    } else {
        pairs_with_first(s) + spec_candidates(s.drop_first())
    }
}

/// `C(n, 1) == n`.
proof fn lemma_choose_one(n: nat)
    ensures
        spec_choose(n, 1) == n,
    decreases n,
{
    if n > 0 {
        lemma_choose_one((n - 1) as nat);
        assert(spec_choose((n - 1) as nat, 0) == 1);
        assert(spec_choose(n, 1) == spec_choose((n - 1) as nat, 0) + spec_choose((n - 1) as nat, 1));
    }
}

/// There are `C(n, 2)` pairs.
proof fn lemma_candidates_len(s: Seq<Card>)
    ensures
        spec_candidates(s).len() == spec_choose(s.len(), 2),
    decreases s.len(),
{
    if s.len() < 2 {
        if s.len() == 0 {
            assert(spec_choose(0, 2) == 0);
        } else {
            assert(spec_choose(0, 1) == 0);
            assert(spec_choose(0, 2) == 0);
            assert(spec_choose(1, 2) == spec_choose(0, 1) + spec_choose(0, 2));
        }
    } else {
        lemma_candidates_len(s.drop_first());
        lemma_choose_one((s.len() - 1) as nat);
        assert(spec_choose(s.len(), 2) == spec_choose((s.len() - 1) as nat, 1) + spec_choose(
            (s.len() - 1) as nat,
            2,
        ));
        assert(pairs_with_first(s).len() == s.len() - 1);
    }
}

/// The two cards of a candidate hand, sorted for comparison.
fn sort_pair_exec(a: Card, b: Card) -> (p: Vec<Card>)
    ensures
        p@ == sorted_pair(a, b),
        p@.len() == 2,
{
    let ga = rank_index(a.rank);
    let gb = rank_index(b.rank);
    let first_le = ga > gb || (ga == gb && suit_index(a.suit) <= suit_index(b.suit));
    let mut p: Vec<Card> = Vec::new();
    if first_le {
        p.push(a);
        p.push(b);
        proof {
            assert(p@ =~= seq![a, b]);
        }
    } else {
        p.push(b);
        p.push(a);
        proof {
            assert(p@ =~= seq![b, a]);
        }
    }
    p
}

/// All candidate opponent hands from the remaining deck: every unordered
/// pair, each stored rank-descending then suit-ascending.
pub fn candidate_hands(remaining_deck: &Vec<Card>) -> (res: Vec<Vec<Card>>)
    requires
        remaining_deck@.len() >= 2,
        distinct_seq(remaining_deck@),
    ensures
        res@.map_values(|v: Vec<Card>| v@) == spec_candidates(remaining_deck@),
        res@.len() == spec_choose(remaining_deck@.len(), 2),
        forall|t: int|
            0 <= t < res@.len() ==> (#[trigger] res@[t])@.len() == 2 && remaining_deck@.contains(
                res@[t]@[0],
            ) && remaining_deck@.contains(res@[t]@[1]) && res@[t]@[0] != res@[t]@[1],
{
    let ghost vs = remaining_deck@;
    let n = remaining_deck.len();
    let mut res: Vec<Vec<Card>> = Vec::new();
    let mut i: usize = 0;
    proof {
        assert(vs.skip(0) =~= vs);
        assert(res@.map_values(|v: Vec<Card>| v@) =~= Seq::<Seq<Card>>::empty());
    }
    while i < n - 1
        invariant
            vs == remaining_deck@,
            n == vs.len(),
            2 <= n,
            distinct_seq(vs),
            0 <= i <= n - 1,
            res@.map_values(|v: Vec<Card>| v@) + spec_candidates(vs.skip(i as int))
                == spec_candidates(vs),
            forall|t: int|
                0 <= t < res@.len() ==> (#[trigger] res@[t])@.len() == 2 && vs.contains(
                    res@[t]@[0],
                ) && vs.contains(res@[t]@[1]) && res@[t]@[0] != res@[t]@[1],
        decreases n - 1 - i,
    {
        let ghost sub = vs.skip(i as int);
        let card1 = remaining_deck[i];
        let mut j: usize = i + 1;
        proof {
            assert(sub.len() >= 2);
            assert(spec_candidates(sub) == pairs_with_first(sub) + spec_candidates(
                sub.drop_first(),
            ));
            assert(pairs_with_first(sub).len() == sub.len() - 1);
        }
        while j < n
            invariant
                vs == remaining_deck@,
                n == vs.len(),
                2 <= n,
                distinct_seq(vs),
                0 <= i < n - 1,
                i + 1 <= j <= n,
                sub == vs.skip(i as int),
                card1 == vs[i as int],
                res@.map_values(|v: Vec<Card>| v@) + pairs_with_first(sub).skip(j - i - 1)
                    + spec_candidates(sub.drop_first()) == spec_candidates(vs),
                forall|t: int|
                    0 <= t < res@.len() ==> (#[trigger] res@[t])@.len() == 2 && vs.contains(
                        res@[t]@[0],
                    ) && vs.contains(res@[t]@[1]) && res@[t]@[0] != res@[t]@[1],
            decreases n - j,
        {
            let card2 = remaining_deck[j];
            let p = sort_pair_exec(card1, card2);
            res.push(p);
            proof {
                let f = |v: Vec<Card>| v@;
                let pw = pairs_with_first(sub);
                assert(sub[0] == vs[i as int]);
                assert(sub[j - i] == vs[j as int]);
                assert(pw[j - i - 1] == sorted_pair(card1, card2));
                assert(pw.skip(j - i - 1).first() == pw[j - i - 1]);
                assert(pw.skip(j - i - 1).drop_first() =~= pw.skip(j - i));
                assert(res@.map_values(f) =~= res@.drop_last().map_values(f).push(p@));
                assert((res@.drop_last().map_values(f).push(p@)) + pw.skip(j - i)
                    + spec_candidates(sub.drop_first()) =~= res@.drop_last().map_values(f) + pw.skip(
                    j - i - 1,
                ) + spec_candidates(sub.drop_first()));
                assert(vs[i as int] != vs[j as int]);
            }
            j = j + 1;
        }
        proof {
            assert(pairs_with_first(sub).skip(sub.len() - 1) =~= Seq::<Seq<Card>>::empty());
            assert(res@.map_values(|v: Vec<Card>| v@) + Seq::<Seq<Card>>::empty()
                + spec_candidates(sub.drop_first()) =~= res@.map_values(|v: Vec<Card>| v@)
                + spec_candidates(sub.drop_first()));
            assert(sub.drop_first() =~= vs.skip(i as int + 1));
        }
        i = i + 1;
    }
    proof {
        assert(spec_candidates(vs.skip(n - 1)) =~= Seq::<Seq<Card>>::empty());
        assert(res@.map_values(|v: Vec<Card>| v@) + Seq::<Seq<Card>>::empty() =~= res@.map_values(
            |v: Vec<Card>| v@,
        ));
        lemma_candidates_len(vs);
        assert(res@.len() == res@.map_values(|v: Vec<Card>| v@).len());
    }
    res
}


/// The outcome counts of one candidate opponent hand: board completions
/// are drawn from the remaining deck less the candidate's own two cards;
/// the player's final cards are the revealed board plus their hand, the
/// opponent's the revealed board plus the candidate.
pub open spec fn spec_hand_outcomes(
    cand: Seq<Card>,
    hand: Seq<Card>,
    board: Seq<Option<Card>>,
    remaining: Seq<Card>,
) -> (nat, nat) {
    spec_outcomes(
        board_cards(board) + hand,
        board_cards(board) + cand,
        seq_diff(remaining, cand),
        board_empty_count(board),
    )
}

/// Solve one candidate opponent hand: count, over every completion of the
/// board from the remaining deck, how often the candidate beats the player
/// and how often it is beaten.
pub fn hand_solution(
    candidate_hand: &Vec<Card>,
    table: &Table,
    remaining_deck: &Vec<Card>,
    cache: &mut EvalCache,
) -> (hs: HandSolution)
    requires
        old(cache).wf(),
        table.hand@.len() == 2,
        table.board@.len() == 5,
        candidate_hand@.len() == 2,
        remaining_deck@.len() <= 52,
    ensures
        final(cache).wf(),
        hs.hand@ == candidate_hand@,
        hs.beats_me_count == spec_hand_outcomes(
            candidate_hand@,
            table.hand@,
            table.board@,
            remaining_deck@,
        ).0,
        hs.is_beaten_count == spec_hand_outcomes(
            candidate_hand@,
            table.hand@,
            table.board@,
            remaining_deck@,
        ).1,
{
    let ghost vs = remaining_deck@;
    let ghost cand = candidate_hand@;
    let ghost board = table.board@;
    let c0 = candidate_hand[0];
    let c1 = candidate_hand[1];
    let mut rem2: Vec<Card> = Vec::new();
    let mut i: usize = 0;
    proof {
        assert(vs.skip(0) =~= vs);
        assert(rem2@ + seq_diff(vs, cand) =~= seq_diff(vs, cand));
    }
    while i < remaining_deck.len()
        invariant
            vs == remaining_deck@,
            cand == candidate_hand@,
            cand.len() == 2,
            c0 == cand[0],
            c1 == cand[1],
            0 <= i <= vs.len() <= 52,
            rem2@.len() <= i,
            rem2@ + seq_diff(vs.skip(i as int), cand) == seq_diff(vs, cand),
        decreases vs.len() - i,
    {
        let ghost sub = vs.skip(i as int);
        let c = remaining_deck[i];
        proof {
            assert(sub.first() == vs[i as int]);
            assert(sub.drop_first() =~= vs.skip(i as int + 1));
            if cand.contains(c) {
                let t = choose|t: int| 0 <= t < cand.len() && cand[t] == c;
                assert(t == 0 || t == 1);
            }
        }
        if !(c == c0 || c == c1) {
            rem2.push(c);
            proof {
                assert(!cand.contains(c));
                assert(rem2@ + seq_diff(vs.skip(i as int + 1), cand) =~= rem2@.drop_last() + (seq![c]
                    + seq_diff(vs.skip(i as int + 1), cand)));
            }
        } else {
            proof {
                assert(cand[if c == c0 {
                    0int
                } else {
                    1int
                }] == c);
                assert(cand.contains(c));
            }
        }
        i = i + 1;
    }
    proof {
        assert(seq_diff(vs.skip(vs.len() as int), cand) =~= Seq::<Card>::empty());
        assert(rem2@ + Seq::<Card>::empty() =~= rem2@);
        assert(rem2@ == seq_diff(vs, cand));
    }
    let mut my_final: Vec<Card> = Vec::new();
    let mut candidate_final: Vec<Card> = Vec::new();
    let mut cards_to_fill: usize = 0;
    let mut b: usize = 0;
    proof {
        assert(board.skip(0) =~= board);
        assert(my_final@ + board_cards(board) =~= board_cards(board));
    }
    while b < table.board.len()
        invariant
            board == table.board@,
            board.len() == 5,
            0 <= b <= 5,
            cards_to_fill <= b,
            my_final@ == candidate_final@,
            my_final@.len() <= b,
            my_final@ + board_cards(board.skip(b as int)) == board_cards(board),
            cards_to_fill + board_empty_count(board.skip(b as int)) == board_empty_count(board),
        decreases board.len() - b,
    {
        proof {
            assert(board.skip(b as int).first() == board[b as int]);
            assert(board.skip(b as int).drop_first() =~= board.skip(b as int + 1));
        }
        match table.board[b] {
            Option::Some(c) => {
                my_final.push(c);
                candidate_final.push(c);
                proof {
                    assert(my_final@ + board_cards(board.skip(b as int + 1)) =~= my_final@.drop_last()
                        + (seq![c] + board_cards(board.skip(b as int + 1))));
                }
            },
            Option::None => {
                cards_to_fill = cards_to_fill + 1;
            },
        }
        b = b + 1;
    }
    proof {
        assert(board_cards(board.skip(5)) =~= Seq::<Card>::empty());
        assert(board_empty_count(board.skip(5)) == 0);
        assert(my_final@ + Seq::<Card>::empty() =~= my_final@);
        assert(my_final@ == board_cards(board));
        lemma_board_partition(board);
    }
    my_final.push(table.hand[0]);
    my_final.push(table.hand[1]);
    candidate_final.push(c0);
    candidate_final.push(c1);
    proof {
        assert(my_final@ =~= board_cards(board) + table.hand@);
        assert(candidate_final@ =~= board_cards(board) + cand);
        assert(rem2@.skip(0) =~= rem2@);
    }
    let (beats_me_count, is_beaten_count) = count_outcomes(
        &mut my_final,
        &mut candidate_final,
        &rem2,
        0,
        cards_to_fill,
        cache,
    );
    let mut hand: Vec<Card> = Vec::new();
    hand.push(c0);
    hand.push(c1);
    proof {
        assert(hand@ =~= cand);
    }
    HandSolution { hand, beats_me_count, is_beaten_count }
}


/// How the candidate hand fares overall: negative when the player mostly
/// wins against it, positive when the candidate mostly wins.
pub open spec fn hs_score(h: HandSolution) -> int {
    h.beats_me_count - h.is_beaten_count
}

/// Lexicographic order on card sequences under `(rank, suit)` ascending.
pub open spec fn hand_lex_le(a: Seq<Card>, b: Seq<Card>) -> bool
    decreases a.len(),
{
    if a.len() == 0 {
        true
    } else if b.len() == 0 {
        false
    } else if card_ord(a.first()) < card_ord(b.first()) {
        true
    } else if card_ord(a.first()) > card_ord(b.first()) {
        false
    } else {
        hand_lex_le(a.drop_first(), b.drop_first())
    }
}

proof fn lemma_hand_lex_total(a: Seq<Card>, b: Seq<Card>)
    ensures
        hand_lex_le(a, b) || hand_lex_le(b, a),
    decreases a.len(),
{
    if a.len() > 0 && b.len() > 0 && card_ord(a.first()) == card_ord(b.first()) {
        lemma_hand_lex_total(a.drop_first(), b.drop_first());
    }
}

proof fn lemma_hand_lex_trans(a: Seq<Card>, b: Seq<Card>, c: Seq<Card>)
    requires
        hand_lex_le(a, b),
        hand_lex_le(b, c),
    ensures
        hand_lex_le(a, c),
    decreases a.len(),
{
    if a.len() == 0 {
    } else {
        assert(b.len() > 0);
        assert(c.len() > 0);
        if card_ord(a.first()) == card_ord(b.first()) && card_ord(b.first()) == card_ord(
            c.first(),
        ) {
            lemma_hand_lex_trans(a.drop_first(), b.drop_first(), c.drop_first());
        }
    }
}

/// The order of the final hands list: by `hs_score` ascending, then fewer
/// ties (smaller `is_beaten_count`), then the hand's cards.
pub open spec fn hs_leq() -> spec_fn(HandSolution, HandSolution) -> bool {
    |a: HandSolution, b: HandSolution|
        hs_score(a) < hs_score(b) || (hs_score(a) == hs_score(b) && ((a.is_beaten_count as int)
            < b.is_beaten_count as int || (a.is_beaten_count == b.is_beaten_count && hand_lex_le(
            a.hand@,
            b.hand@,
        ))))
}

proof fn lemma_hs_total(a: HandSolution, b: HandSolution)
    ensures
        hs_leq()(a, b) || hs_leq()(b, a),
{
    lemma_hand_lex_total(a.hand@, b.hand@);
}

proof fn lemma_hs_trans(a: HandSolution, b: HandSolution, c: HandSolution)
    requires
        hs_leq()(a, b),
        hs_leq()(b, c),
    ensures
        hs_leq()(a, c),
{
    if hs_score(a) == hs_score(b) && hs_score(b) == hs_score(c) && a.is_beaten_count
        == b.is_beaten_count && b.is_beaten_count == c.is_beaten_count {
        lemma_hand_lex_trans(a.hand@, b.hand@, c.hand@);
    }
}

/// What a hand solution says, as plain values.
pub open spec fn hs_view_fn() -> spec_fn(HandSolution) -> (Seq<Card>, nat, nat) {
    |h: HandSolution| (h.hand@, h.beats_me_count as nat, h.is_beaten_count as nat)
}

/// The player mostly wins against this hand.
pub open spec fn hs_neg() -> spec_fn(HandSolution) -> bool {
    |h: HandSolution| hs_score(h) < 0
}

/// The candidate mostly wins against the player.
pub open spec fn hs_pos() -> spec_fn(HandSolution) -> bool {
    |h: HandSolution| hs_score(h) > 0
}

/// Ordinal of a card, as a machine integer.
fn card_index(c: Card) -> (i: u8)
    ensures
        i == card_ord(c),
        i < 52,
{
    rank_index(c.rank) * 4 + suit_index(c.suit)
}

/// Executable lexicographic comparison of two card lists.
fn hand_lex_le_exec(a: &Vec<Card>, b: &Vec<Card>) -> (r: bool)
    ensures
        r == hand_lex_le(a@, b@),
{
    let mut i: usize = 0;
    proof {
        assert(a@.skip(0) =~= a@);
        assert(b@.skip(0) =~= b@);
    }
    while i < a.len() && i < b.len()
        invariant
            i <= a@.len(),
            i <= b@.len(),
            hand_lex_le(a@, b@) == hand_lex_le(a@.skip(i as int), b@.skip(i as int)),
        decreases a@.len() - i,
    {
        let ca = card_index(a[i]);
        let cb = card_index(b[i]);
        proof {
            assert(a@.skip(i as int).first() == a@[i as int]);
            assert(b@.skip(i as int).first() == b@[i as int]);
            assert(a@.skip(i as int).drop_first() =~= a@.skip(i as int + 1));
            assert(b@.skip(i as int).drop_first() =~= b@.skip(i as int + 1));
        }
        if ca < cb {
            return true;
        }
        if ca > cb {
            return false;
        }
        i = i + 1;
    }
    if i == a.len() {
        proof {
            assert(a@.skip(i as int).len() == 0);
        }
        true
    } else {
        proof {
            assert(b@.skip(i as int).len() == 0);
            assert(a@.skip(i as int).len() > 0);
        }
        false
    }
}

/// Executable comparison under the hands-list order.
fn hs_le(a: &HandSolution, b: &HandSolution) -> (r: bool)
    ensures
        r == hs_leq()(*a, *b),
{
    let a_shifted: u128 = a.beats_me_count as u128 + b.is_beaten_count as u128;
    let b_shifted: u128 = b.beats_me_count as u128 + a.is_beaten_count as u128;
    if a_shifted < b_shifted {
        true
    } else if a_shifted > b_shifted {
        false
    } else if a.is_beaten_count < b.is_beaten_count {
        true
    } else if a.is_beaten_count > b.is_beaten_count {
        false
    } else {
        hand_lex_le_exec(&a.hand, &b.hand)
    }
}

/// Sort the hands list ascending under `hs_leq`, keeping its contents.
fn sort_hand_solutions(v: &mut Vec<HandSolution>)
    ensures
        final(v)@.len() == old(v)@.len(),
        vstd::relations::sorted_by(final(v)@, hs_leq()),
        final(v)@.map_values(hs_view_fn()).to_multiset() == old(v)@.map_values(
            hs_view_fn(),
        ).to_multiset(),
{
    let ghost f = hs_view_fn();
    let ghost orig = v@;
    if v.len() < 2 {
        return ;
    }
    let mut i: usize = 1;
    while i < v.len()
        invariant
            v@.len() == orig.len(),
            2 <= v@.len(),
            1 <= i <= v@.len(),
            v@.map_values(f).to_multiset() == orig.map_values(f).to_multiset(),
            f == hs_view_fn(),
            vstd::relations::sorted_by(v@.take(i as int), hs_leq()),
        decreases v@.len() - i,
    {
        let ghost cur = v@;
        let x = v.remove(i);
        let ghost mid = v@;
        proof {
            assert(mid == cur.remove(i as int));
            assert(mid.take(i as int) =~= cur.take(i as int));
            assert(mid.map_values(f) =~= cur.map_values(f).remove(i as int));
            vstd::seq_lib::to_multiset_remove::<(Seq<Card>, nat, nat)>(
                cur.map_values(f),
                i as int,
            );
        }
        let mut j: usize = i;
        while j > 0 && !hs_le(&v[j - 1], &x)
            invariant
                v@ == mid,
                mid.len() == orig.len() - 1,
                0 <= j <= i,
                i < orig.len(),
                forall|t: int| j <= t < i ==> !hs_leq()(#[trigger] mid[t], x),
            decreases j,
        {
            j = j - 1;
        }
        v.insert(j, x);
        proof {
            let newv = v@;
            let leq = hs_leq();
            assert(newv == mid.insert(j as int, x));
            assert(newv.map_values(f) =~= mid.map_values(f).insert(j as int, f(x)));
            vstd::seq_lib::to_multiset_insert::<(Seq<Card>, nat, nat)>(
                mid.map_values(f),
                j as int,
                f(x),
            );
            assert(cur.map_values(f)[i as int] == f(x));
            assert(cur.map_values(f).contains(f(x)));
            vstd::seq_lib::to_multiset_contains::<(Seq<Card>, nat, nat)>(cur.map_values(f), f(x));
            broadcast use vstd::multiset::group_multiset_axioms;

            assert(cur.map_values(f).to_multiset().remove(f(x)).insert(f(x)) =~= cur.map_values(
                f,
            ).to_multiset());
            assert(newv.map_values(f).to_multiset() == orig.map_values(f).to_multiset());
            assert forall|t: int| 0 <= t < i implies mid[t] == cur.take(i as int)[t] by {
                assert(mid[t] == cur[t]);
            }
            assert forall|a: int, b: int| 0 <= a < b < i implies leq(
                #[trigger] mid[a],
                #[trigger] mid[b],
            ) by {
                assert(leq(cur.take(i as int)[a], cur.take(i as int)[b]));
            }
            if j > 0 {
                assert(leq(mid[j - 1], x));
            }
            assert forall|a: int, b: int| 0 <= a < b <= i implies leq(
                #[trigger] newv[a],
                #[trigger] newv[b],
            ) by {
                if b < j {
                    assert(newv[a] == mid[a] && newv[b] == mid[b]);
                } else if b == j {
                    assert(newv[a] == mid[a] && newv[b] == x);
                    if a < j - 1 {
                        assert(leq(mid[a], mid[j - 1]));
                        lemma_hs_trans(mid[a], mid[j - 1], x);
                    }
                } else {
                    assert(newv[b] == mid[b - 1]);
                    if a < j {
                        assert(newv[a] == mid[a]);
                        if j > 0 {
                            if a < j - 1 {
                                assert(leq(mid[a], mid[j - 1]));
                                lemma_hs_trans(mid[a], mid[j - 1], x);
                            }
                            lemma_hs_total(x, mid[b - 1]);
                            lemma_hs_trans(mid[a], x, mid[b - 1]);
                        }
                    } else if a == j {
                        assert(newv[a] == x);
                        lemma_hs_total(x, mid[b - 1]);
                    } else {
                        assert(newv[a] == mid[a - 1]);
                    }
                }
            }
            assert forall|a: int, b: int| 0 <= a < b < i + 1 implies leq(
                #[trigger] newv.take(i + 1)[a],
                #[trigger] newv.take(i + 1)[b],
            ) by {
                assert(newv.take(i + 1)[a] == newv[a]);
                assert(newv.take(i + 1)[b] == newv[b]);
            }
            assert(vstd::relations::sorted_by(newv.take(i + 1), leq));
        }
        i = i + 1;
    }
    proof {
        assert(v@.take(v@.len() as int) =~= v@);
    }
}


/// All cards the input fixes: the player's hand, then the revealed board
/// cards in slot order.
pub open spec fn spec_used(hand: Seq<Card>, board: Seq<Option<Card>>) -> Seq<Card> {
    hand + board_cards(board)
}

/// A candidate hand, paired with its outcome counts, as plain values.
pub open spec fn hand_view_fn(
    hand: Seq<Card>,
    board: Seq<Option<Card>>,
    remaining: Seq<Card>,
) -> spec_fn(Seq<Card>) -> (Seq<Card>, nat, nat) {
    |c: Seq<Card>|
        (
            c,
            spec_hand_outcomes(c, hand, board, remaining).0,
            spec_hand_outcomes(c, hand, board, remaining).1,
        )
}

/// Does the slice hold this card?
fn slice_contains_card(v: &[Card], c: Card) -> (r: bool)
    ensures
        r == v@.contains(c),
{
    let mut i: usize = 0;
    while i < v.len()
        invariant
            i <= v@.len(),
            forall|t: int| 0 <= t < i ==> v@[t] != c,
        decreases v@.len() - i,
    {
        if v[i] == c {
            return true;
        }
        i = i + 1;
    }
    false
}

/// The input is well-formed against the deck: no card is used twice and
/// every used card comes from the deck.
pub open spec fn valid_input(hand: Seq<Card>, board: Seq<Option<Card>>, deck: Seq<Card>) -> bool {
    distinct_seq(spec_used(hand, board)) && forall|i: int|
        0 <= i < spec_used(hand, board).len() ==> deck.contains(
            #[trigger] spec_used(hand, board)[i],
        )
}

/// What an assembled solution promises over a given remaining deck: the
/// exact number of board completions and candidate hands, the sorted
/// order, the per-candidate outcome counts, the aggregate win and lose
/// counts, and the per-hand bound on outcomes.
pub open spec fn solution_correct_for(
    sol: Solution,
    hand: Seq<Card>,
    board: Seq<Option<Card>>,
    remaining: Seq<Card>,
) -> bool {
    let k = board_empty_count(board);
    &&& sol.board_possibilities == spec_choose((remaining.len() - 2) as nat, k)
    &&& sol.hands@.len() == spec_choose(remaining.len(), 2)
    &&& vstd::relations::sorted_by(sol.hands@, hs_leq())
    &&& sol.hands@.map_values(hs_view_fn()).to_multiset() == spec_candidates(
        remaining,
    ).map_values(hand_view_fn(hand, board, remaining)).to_multiset()
    &&& sol.win_count == count_matching(sol.hands@, hs_neg())
    &&& sol.lose_count == count_matching(sol.hands@, hs_pos())
    &&& forall|t: int|
        0 <= t < sol.hands@.len() ==> (#[trigger] sol.hands@[t]).beats_me_count
            + sol.hands@[t].is_beaten_count <= sol.board_possibilities
}

/// What a successful solve promises: the remaining deck is the given deck
/// less the used cards, and the solution is assembled correctly over it.
pub open spec fn solution_correct(
    sol: Solution,
    hand: Seq<Card>,
    board: Seq<Option<Card>>,
    deck: Seq<Card>,
) -> bool {
    let used = spec_used(hand, board);
    let remaining = seq_diff(deck, used);
    &&& remaining.len() == deck.len() - 7 + board_empty_count(board)
    &&& solution_correct_for(sol, hand, board, remaining)
}

/// The aggregate counts never exceed the number of hands: each hand
/// counts toward the win count or the lose count, never both, and ties
/// count toward neither.
pub proof fn lemma_win_lose_bound(
    sol: Solution,
    hand: Seq<Card>,
    board: Seq<Option<Card>>,
    deck: Seq<Card>,
)
    requires
        solution_correct(sol, hand, board, deck),
    ensures
        sol.win_count + sol.lose_count <= sol.hands@.len(),
{
    let s = sol.hands@;
    let decided = |h: HandSolution| hs_neg()(h) || hs_pos()(h);
    lemma_count_split(s, hs_neg(), hs_pos(), decided);
    lemma_count_matching_le(s, decided);
}

/// How many board slots are still empty.
pub fn count_empty_slots(board: &Vec<Option<Card>>) -> (k: usize)
    ensures
        k == board_empty_count(board@),
        k <= board@.len(),
{
    let ghost bs = board@;
    let mut empties: usize = 0;
    let mut e: usize = 0;
    proof {
        assert(bs.skip(0) =~= bs);
    }
    while e < board.len()
        invariant
            bs == board@,
            0 <= e <= bs.len(),
            empties <= e,
            empties + board_empty_count(bs.skip(e as int)) == board_empty_count(bs),
        decreases bs.len() - e,
    {
        proof {
            assert(bs.skip(e as int).first() == bs[e as int]);
            assert(bs.skip(e as int).drop_first() =~= bs.skip(e as int + 1));
        }
        match board[e] {
            Option::Some(_) => {},
            Option::None => {
                empties = empties + 1;
            },
        }
        e = e + 1;
    }
    proof {
        assert(board_empty_count(bs.skip(bs.len() as int)) == 0);
    }
    empties
}

/// Validate the table against the deck and hand back the remaining deck:
/// the deck less the player's hand and the revealed board cards. Reports
/// the first card used twice, else the first used card not in the deck.
pub fn validate_and_remaining(table: &Table, deck: &[Card]) -> (res: Result<Vec<Card>, SolveError>)
    requires
        table.hand@.len() == 2,
        table.board@.len() == 5,
        distinct_seq(deck@),
    ensures
        (res matches Result::Err(SolveError::DuplicateCard(c)) ==> !distinct_seq(
            spec_used(table.hand@, table.board@),
        ) && (exists|i: int, j: int|
            0 <= i < j < spec_used(table.hand@, table.board@).len() && spec_used(
                table.hand@,
                table.board@,
            )[i] == c && spec_used(table.hand@, table.board@)[j] == c)),
        ((res matches Result::Err(SolveError::DuplicateCard(c))) <==> !distinct_seq(
            spec_used(table.hand@, table.board@),
        )),
        (res matches Result::Err(SolveError::UnknownCard(c)) ==> spec_used(
            table.hand@,
            table.board@,
        ).contains(c) && !deck@.contains(c)),
        ((res matches Result::Err(SolveError::UnknownCard(c))) <==> (distinct_seq(
            spec_used(table.hand@, table.board@),
        ) && exists|i: int|
            0 <= i < spec_used(table.hand@, table.board@).len() && !deck@.contains(
                #[trigger] spec_used(table.hand@, table.board@)[i],
            ))),
        ((res matches Result::Ok(rem)) <==> valid_input(table.hand@, table.board@, deck@)),
        (res matches Result::Ok(rem) ==> rem@ == seq_diff(
            deck@,
            spec_used(table.hand@, table.board@),
        ) && distinct_seq(rem@) && rem@.len() == deck@.len() - 7 + board_empty_count(table.board@)),
{
    let ghost dk = deck@;
    let ghost board = table.board@;
    // Gather the used cards: the hand, then the revealed board cards.
    let mut used_cards: Vec<Card> = Vec::new();
    used_cards.push(table.hand[0]);
    used_cards.push(table.hand[1]);
    let mut b: usize = 0;
    proof {
        assert(board.skip(0) =~= board);
        assert(used_cards@ =~= table.hand@);
    }
    while b < table.board.len()
        invariant
            board == table.board@,
            board.len() == 5,
            table.hand@.len() == 2,
            0 <= b <= 5,
            used_cards@.len() <= 2 + b,
            used_cards@ + board_cards(board.skip(b as int)) == spec_used(
                table.hand@,
                table.board@,
            ),
        decreases board.len() - b,
    {
        proof {
            assert(board.skip(b as int).first() == board[b as int]);
            assert(board.skip(b as int).drop_first() =~= board.skip(b as int + 1));
        }
        match table.board[b] {
            Option::Some(c) => {
                used_cards.push(c);
                proof {
                    assert(used_cards@ + board_cards(board.skip(b as int + 1))
                        =~= used_cards@.drop_last() + (seq![c] + board_cards(
                        board.skip(b as int + 1),
                    )));
                }
            },
            Option::None => {},
        }
        b = b + 1;
    }
    let ghost used = spec_used(table.hand@, table.board@);
    proof {
        assert(board_cards(board.skip(5)) =~= Seq::<Card>::empty());
        assert(used_cards@ + Seq::<Card>::empty() =~= used_cards@);
        assert(used_cards@ == used);
        lemma_board_partition(board);
        assert(used.len() == 7 - board_empty_count(board));
    }
    // Report a card used twice, if any: the first card that repeats an
    // earlier one.
    let mut j: usize = 1;
    while j < used_cards.len()
        invariant
            used_cards@ == used,
            used == spec_used(table.hand@, table.board@),
            1 <= j <= used.len(),
            forall|x: int, y: int| 0 <= x < y < j ==> used[x] != used[y],
        decreases used.len() - j,
    {
        let mut i2: usize = 0;
        while i2 < j
            invariant
                used_cards@ == used,
                used == spec_used(table.hand@, table.board@),
                1 <= j < used.len(),
                0 <= i2 <= j,
                forall|x: int| 0 <= x < i2 ==> used[x] != used[j as int],
            decreases j - i2,
        {
            if used_cards[i2] == used_cards[j] {
                proof {
                    assert(used[i2 as int] == used[j as int]);
                    assert(!distinct_seq(used));
                    assert(exists|x: int, y: int|
                        0 <= x < y < used.len() && used[x] == used[j as int] && used[y] == used[
                            j as int
                        ]) by {
                        assert(0 <= i2 < j < used.len() && used[i2 as int] == used[j as int]
                            && used[j as int] == used[j as int]);
                    }
                }
                return Result::Err(SolveError::DuplicateCard(used_cards[j]));
            }
            i2 = i2 + 1;
        }
        j = j + 1;
    }
    proof {
        assert(distinct_seq(used));
    }
    // Report a card that is not in the deck, if any.
    let mut u: usize = 0;
    while u < used_cards.len()
        invariant
            used_cards@ == used,
            used == spec_used(table.hand@, table.board@),
            distinct_seq(used),
            dk == deck@,
            0 <= u <= used.len(),
            forall|x: int| 0 <= x < u ==> dk.contains(#[trigger] used[x]),
        decreases used.len() - u,
    {
        if !slice_contains_card(deck, used_cards[u]) {
            proof {
                assert(used.contains(used[u as int]));
                assert(exists|x: int|
                    0 <= x < used.len() && !dk.contains(#[trigger] used[x])) by {
                    assert(0 <= u < used.len() && !dk.contains(used[u as int]));
                }
            }
            return Result::Err(SolveError::UnknownCard(used_cards[u]));
        }
        u = u + 1;
    }
    // The deck minus the used cards.
    let mut remaining_deck: Vec<Card> = Vec::new();
    let mut i: usize = 0;
    proof {
        assert(dk.skip(0) =~= dk);
        assert(remaining_deck@ + seq_diff(dk, used) =~= seq_diff(dk, used));
    }
    while i < deck.len()
        invariant
            used_cards@ == used,
            dk == deck@,
            0 <= i <= dk.len(),
            remaining_deck@.len() <= i,
            remaining_deck@ + seq_diff(dk.skip(i as int), used) == seq_diff(dk, used),
        decreases dk.len() - i,
    {
        let ghost sub = dk.skip(i as int);
        proof {
            assert(sub.first() == dk[i as int]);
            assert(sub.drop_first() =~= dk.skip(i as int + 1));
        }
        let c = deck[i];
        if !slice_contains_card(used_cards.as_slice(), c) {
            remaining_deck.push(c);
            proof {
                assert(remaining_deck@ + seq_diff(dk.skip(i as int + 1), used)
                    =~= remaining_deck@.drop_last() + (seq![c] + seq_diff(
                    dk.skip(i as int + 1),
                    used,
                )));
            }
        }
        i = i + 1;
    }
    proof {
        assert(seq_diff(dk.skip(dk.len() as int), used) =~= Seq::<Card>::empty());
        assert(remaining_deck@ + Seq::<Card>::empty() =~= remaining_deck@);
        assert(remaining_deck@ == seq_diff(dk, used));
        lemma_seq_diff_len(dk, used);
        lemma_seq_diff_distinct(dk, used);
        assert(remaining_deck@.len() == dk.len() - used.len());
    }
    Result::Ok(remaining_deck)
}

/// Every enumerated candidate hand holds two distinct cards of the
/// remaining deck.
proof fn lemma_candidates_elements(s: Seq<Card>)
    requires
        distinct_seq(s),
    ensures
        forall|t: int|
            0 <= t < spec_candidates(s).len() ==> {
                let c = #[trigger] spec_candidates(s)[t];
                &&& c.len() == 2
                &&& c[0] != c[1]
                &&& s.contains(c[0])
                &&& s.contains(c[1])
            },
    decreases s.len(),
{
    if s.len() >= 2 {
        let d = s.drop_first();
        assert forall|x: int, y: int| 0 <= x < y < d.len() implies d[x] != d[y] by {
            assert(d[x] == s[x + 1]);
            assert(d[y] == s[y + 1]);
        }
        lemma_candidates_elements(d);
        let pw = pairs_with_first(s);
        assert forall|t: int| 0 <= t < spec_candidates(s).len() implies {
            let c = #[trigger] spec_candidates(s)[t];
            &&& c.len() == 2
            &&& c[0] != c[1]
            &&& s.contains(c[0])
            &&& s.contains(c[1])
        } by {
            let c = spec_candidates(s)[t];
            if t < pw.len() {
                assert(c == sorted_pair(s[0], s[t + 1]));
                assert(s[0] != s[t + 1]);
            } else {
                assert(c == spec_candidates(d)[t - pw.len()]);
                let cd = spec_candidates(d)[t - pw.len()];
                assert(cd.len() == 2 && cd[0] != cd[1] && d.contains(cd[0]) && d.contains(cd[1]));
                let x0 = choose|x: int| 0 <= x < d.len() && d[x] == cd[0];
                let x1 = choose|x: int| 0 <= x < d.len() && d[x] == cd[1];
                assert(s[x0 + 1] == cd[0]);
                assert(s[x1 + 1] == cd[1]);
            }
        }
    }
}

/// Assemble the final solution from the per-candidate results: sort the
/// hands worst-for-the-opponent first, count the hands the player wins
/// and loses against, and attach the number of board completions. The
/// hands must be exactly the per-candidate outcome counts, in the
/// enumeration order of the candidate hands.
pub fn assemble_solution(table: &Table, hands: Vec<HandSolution>, remaining_deck: &Vec<Card>) -> (sol:
    Solution)
    requires
        table.hand@.len() == 2,
        table.board@.len() == 5,
        distinct_seq(remaining_deck@),
        remaining_deck@.len() <= 52,
        2 + board_empty_count(table.board@) <= remaining_deck@.len(),
        hands@.map_values(hs_view_fn()) == spec_candidates(remaining_deck@).map_values(
            hand_view_fn(table.hand@, table.board@, remaining_deck@),
        ),
    ensures
        solution_correct_for(sol, table.hand@, table.board@, remaining_deck@),
{
    let ghost board = table.board@;
    let ghost remaining = remaining_deck@;
    let ghost hv = hand_view_fn(table.hand@, table.board@, remaining);
    let ghost target = spec_candidates(remaining).map_values(hv);
    let ghost k = board_empty_count(board);
    let ghost bound = spec_choose((remaining.len() - 2) as nat, k);
    let cards_to_fill = count_empty_slots(&table.board);
    let mut hands = hands;
    proof {
        lemma_candidates_len(remaining);
        lemma_candidates_elements(remaining);
        assert(hands@.len() == target.len());
    }
    // Order the hands: the candidates that fare worst for the opponent
    // first.
    sort_hand_solutions(&mut hands);
    proof {
        broadcast use vstd::seq_lib::group_to_multiset_ensures;

        assert forall|x: int| 0 <= x < hands@.len() implies (#[trigger] hands@[x]).beats_me_count
            + hands@[x].is_beaten_count <= bound by {
            let f = hs_view_fn();
            let view = f(hands@[x]);
            assert(hands@.map_values(f)[x] == view);
            assert(hands@.map_values(f).contains(view));
            assert(hands@.map_values(f).to_multiset().contains(view));
            assert(target.to_multiset().contains(view));
            assert(target.contains(view));
            let y = choose|y: int| 0 <= y < target.len() && target[y] == view;
            let cand = spec_candidates(remaining)[y];
            assert(target[y] == hv(cand));
            assert(cand.len() == 2 && cand[0] != cand[1] && remaining.contains(cand[0])
                && remaining.contains(cand[1]));
            assert(distinct_seq(cand) && forall|z: int|
                0 <= z < cand.len() ==> remaining.contains(#[trigger] cand[z])) by {
                assert forall|z: int| 0 <= z < cand.len() implies remaining.contains(
                    #[trigger] cand[z],
                ) by {
                    assert(z == 0 || z == 1);
                }
            }
            lemma_seq_diff_len(remaining, cand);
            lemma_outcomes_bound(
                board_cards(board) + table.hand@,
                board_cards(board) + cand,
                seq_diff(remaining, cand),
                k,
            );
        }
    }
    // Count the hands the player wins and loses against overall.
    let hands_len = hands.len();
    let mut win_count: u64 = 0;
    let mut lose_count: u64 = 0;
    let mut w: usize = 0;
    proof {
        assert(hands@.skip(0) =~= hands@);
        assert(hands@.len() == hands_len);
    }
    while w < hands.len()
        invariant
            0 <= w <= hands@.len(),
            win_count <= w,
            lose_count <= w,
            hands@.len() <= usize::MAX,
            win_count + count_matching(hands@.skip(w as int), hs_neg()) == count_matching(
                hands@,
                hs_neg(),
            ),
            lose_count + count_matching(hands@.skip(w as int), hs_pos()) == count_matching(
                hands@,
                hs_pos(),
            ),
        decreases hands@.len() - w,
    {
        proof {
            assert(hands@.skip(w as int).first() == hands@[w as int]);
            assert(hands@.skip(w as int).drop_first() =~= hands@.skip(w as int + 1));
        }
        let h_beats = hands[w].beats_me_count;
        let h_beaten = hands[w].is_beaten_count;
        if h_beats < h_beaten {
            win_count = win_count + 1;
        } else if h_beats > h_beaten {
            lose_count = lose_count + 1;
        }
        w = w + 1;
    }
    proof {
        assert(count_matching(hands@.skip(hands@.len() as int), hs_neg()) == 0);
        assert(count_matching(hands@.skip(hands@.len() as int), hs_pos()) == 0);
    }
    let board_possibilities = n_choose_m(remaining_deck.len() - 2, cards_to_fill);
    Solution { hands, board_possibilities, win_count, lose_count }
}

/// Solve a table against an explicit deck, optionally racing a
/// cancellation signal that is observed once per candidate hand.
fn solve_with_deck_inner(
    table: &Table,
    deck: &[Card],
    cache: &mut EvalCache,
    signal: Option<&AbortSignal>,
) -> (res: Result<Solution, SolveError>)
    requires
        old(cache).wf(),
        table.hand@.len() == 2,
        table.board@.len() == 5,
        distinct_seq(deck@),
        deck@.len() <= 52,
        deck@.len() >= 9,
    ensures
        final(cache).wf(),
        (res matches Result::Err(SolveError::DuplicateCard(c)) ==> !distinct_seq(spec_used(table.hand@, table.board@))
            && (exists|i: int, j: int|
            0 <= i < j < spec_used(table.hand@, table.board@).len() && spec_used(table.hand@, table.board@)[i] == c && spec_used(table.hand@, table.board@)[j] == c)),
        ((res matches Result::Err(SolveError::DuplicateCard(c))) <==> !distinct_seq(
            spec_used(table.hand@, table.board@),
        )),
        (res matches Result::Err(SolveError::UnknownCard(c)) ==> spec_used(table.hand@, table.board@).contains(c)
            && !deck@.contains(c)),
        ((res matches Result::Err(SolveError::UnknownCard(c))) <==> (distinct_seq(
            spec_used(table.hand@, table.board@),
        ) && exists|i: int|
            0 <= i < spec_used(table.hand@, table.board@).len() && !deck@.contains(#[trigger] spec_used(table.hand@, table.board@)[i]))),
        (res matches Result::Err(SolveError::Cancelled) ==> signal matches Option::Some(_)
            && valid_input(table.hand@, table.board@, deck@)),
        (res matches Result::Ok(sol) ==> valid_input(table.hand@, table.board@, deck@)),
        (valid_input(table.hand@, table.board@, deck@) ==> (res matches Result::Ok(sol) || res matches Result::Err(
            SolveError::Cancelled,
        ))),
        (signal matches Option::None ==> ((res matches Result::Ok(sol)) <==> valid_input(table.hand@, table.board@, deck@))),
        (res matches Result::Ok(sol) ==> solution_correct(sol, table.hand@, table.board@, deck@)),
{
    let ghost dk = deck@;
    let ghost board = table.board@;
    let remaining_deck = match validate_and_remaining(table, deck) {
        Result::Err(e) => {
            return Result::Err(e);
        },
        Result::Ok(rem) => rem,
    };
    let ghost used = spec_used(table.hand@, table.board@);
    let ghost remaining = remaining_deck@;
    proof {
        lemma_board_partition(board);
        assert(remaining.len() >= 2 + board_empty_count(board));
    }
    // Enumerate the candidate opponent hands and solve each, watching the
    // cancellation signal between candidates.
    let cands = candidate_hands(&remaining_deck);
    let ghost hv = hand_view_fn(table.hand@, table.board@, remaining);
    let ghost target = spec_candidates(remaining).map_values(hv);
    let mut hands: Vec<HandSolution> = Vec::with_capacity(cands.len());
    let mut t: usize = 0;
    proof {
        assert(hands@.map_values(hs_view_fn()) =~= target.take(0));
    }
    while t < cands.len()
        invariant
            old(cache).wf(),
            cache.wf(),
            valid_input(table.hand@, table.board@, dk),
            dk == deck@,
            remaining_deck@ == remaining,
            remaining == seq_diff(dk, spec_used(table.hand@, table.board@)),
            remaining.len() <= 52,
            remaining.len() == dk.len() - 7 + board_empty_count(board),
            table.hand@.len() == 2,
            table.board@.len() == 5,
            board == table.board@,
            distinct_seq(remaining),
            hv == hand_view_fn(table.hand@, table.board@, remaining),
            target == spec_candidates(remaining).map_values(hv),
            cands@.map_values(|v: Vec<Card>| v@) == spec_candidates(remaining),
            forall|x: int| 0 <= x < cands@.len() ==> (#[trigger] cands@[x])@.len() == 2,
            0 <= t <= cands@.len(),
            hands@.len() == t,
            hands@.map_values(hs_view_fn()) == target.take(t as int),
        decreases cands@.len() - t,
    {
        match signal {
            Option::Some(sig) => {
                if sig.aborted() {
                    return Result::Err(SolveError::Cancelled);
                }
            },
            Option::None => {},
        }
        let hs = hand_solution(&cands[t], table, &remaining_deck, cache);
        proof {
            let cand = cands@[t as int]@;
            assert(cands@.map_values(|v: Vec<Card>| v@)[t as int] == cand);
            assert(spec_candidates(remaining)[t as int] == cand);
            assert(hv(cand) == (
                cand,
                spec_hand_outcomes(cand, table.hand@, board, remaining).0,
                spec_hand_outcomes(cand, table.hand@, board, remaining).1,
            ));
            assert(target[t as int] == hv(cand));
        }
        hands.push(hs);
        proof {
            assert(hands@.map_values(hs_view_fn()) =~= target.take(t as int + 1));
        }
        t = t + 1;
    }
    proof {
        assert(target.take(target.len() as int) =~= target);
    }
    let sol = assemble_solution(table, hands, &remaining_deck);
    Result::Ok(sol)
}

/// Solve a table against an explicit deck: validate the input, enumerate
/// every candidate opponent hand, count its outcomes over every board
/// completion, and aggregate the sorted result.
///
/// The deck must hold distinct cards and enough of them for the player's
/// hand, the board, one opponent hand and the cards still to be drawn.
pub fn solve_with_deck(table: &Table, deck: &[Card], cache: &mut EvalCache) -> (res: Result<
    Solution,
    SolveError,
>)
    requires
        old(cache).wf(),
        table.hand@.len() == 2,
        table.board@.len() == 5,
        distinct_seq(deck@),
        deck@.len() <= 52,
        deck@.len() >= 9,
    ensures
        final(cache).wf(),
        (res matches Result::Err(SolveError::DuplicateCard(c)) ==> !distinct_seq(spec_used(table.hand@, table.board@))
            && (exists|i: int, j: int|
            0 <= i < j < spec_used(table.hand@, table.board@).len() && spec_used(table.hand@, table.board@)[i] == c && spec_used(table.hand@, table.board@)[j] == c)),
        ((res matches Result::Err(SolveError::DuplicateCard(c))) <==> !distinct_seq(
            spec_used(table.hand@, table.board@),
        )),
        (res matches Result::Err(SolveError::UnknownCard(c)) ==> spec_used(table.hand@, table.board@).contains(c)
            && !deck@.contains(c)),
        ((res matches Result::Err(SolveError::UnknownCard(c))) <==> (distinct_seq(
            spec_used(table.hand@, table.board@),
        ) && exists|i: int|
            0 <= i < spec_used(table.hand@, table.board@).len() && !deck@.contains(#[trigger] spec_used(table.hand@, table.board@)[i]))),
        ((res matches Result::Ok(sol)) <==> valid_input(table.hand@, table.board@, deck@)),
        (res matches Result::Ok(sol) ==> solution_correct(sol, table.hand@, table.board@, deck@)),
{
    solve_with_deck_inner(table, deck, cache, Option::None)
}

/// Solve a table: the pre-flop fast path when all five board slots are
/// empty, otherwise the full enumeration over the 52-card deck, racing
/// the cancellation signal.
pub fn solve(
    cancellation_token: &AbortSignal,
    table: &Table,
    precalculated: &Vec<PrecalculatedSolution>,
) -> (res: Result<Solution, SolveError>)
    requires
        table.hand@.len() == 2,
        table.board@.len() == 5,
    ensures
        board_empty_count(table.board@) == 5 ==> ((res matches Result::Ok(sol)
            ==> preflop_found(sol, table.hand@, precalculated@)) && ((res matches Result::Err(
            SolveError::PreflopNoMatch(_),
        )) <==> preflop_absent(table.hand@, precalculated@)) && ((res matches Result::Ok(sol))
            <==> !preflop_absent(table.hand@, precalculated@)) && (res matches Result::Err(
            SolveError::PreflopNoMatch(h),
        ) ==> h@ == table.hand@)),
        board_empty_count(table.board@) < 5 ==> {
            &&& ((res matches Result::Err(SolveError::DuplicateCard(c))) <==> !distinct_seq(
                spec_used(table.hand@, table.board@),
            ))
            &&& ((res matches Result::Err(SolveError::UnknownCard(c))) <==> (distinct_seq(
                spec_used(table.hand@, table.board@),
            ) && exists|i: int|
                0 <= i < spec_used(table.hand@, table.board@).len() && !spec_full_deck().contains(
                    #[trigger] spec_used(table.hand@, table.board@)[i],
                )))
            &&& (res matches Result::Ok(sol) ==> valid_input(table.hand@, table.board@, spec_full_deck()))
            &&& (valid_input(table.hand@, table.board@, spec_full_deck()) ==> (res matches Result::Ok(sol)
                || res matches Result::Err(SolveError::Cancelled)))
            &&& (res matches Result::Ok(sol) ==> solution_correct(sol, table.hand@, table.board@, spec_full_deck()))
        },
{
    let empties = count_empty_slots(&table.board);
    if empties == BOARD_SIZE {
        return get_precalculated_solution(&table.hand, precalculated);
    }
    let deck = full_deck();
    let mut cache = EvalCache::new();
    solve_with_deck_inner(table, deck.as_slice(), &mut cache, Option::Some(cancellation_token))
}

} // verus!
