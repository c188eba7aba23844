//! The seven-card hand evaluator: suit reduction, straight detection,
//! classification into the nine combinations, and a memoizing score cache.

use vstd::prelude::*;
use std::collections::HashMap;
use crate::types::{
    Card, Combination, Rank, ReducedCard, Suit, COMBINATION_SIZE, lemma_rank_roundtrip,
    lemma_suit_roundtrip, rank_index, rank_from_index, rank_of_ord, rank_ord, rc_ord, spec_score,
    suit_index, suit_of_ord, suit_ord,
};

verus! {

/// How many elements of `s` satisfy `p`.
pub open spec fn count_matching<A>(s: Seq<A>, p: spec_fn(A) -> bool) -> nat
    decreases s.len(),
{
    if s.len() == 0 {
        0
    } else {
        (if p(s.first()) {
            1nat
        } else {
            0nat
        }) + count_matching(s.drop_first(), p)
    }
}

/// How many cards of `s` have rank ordinal `r`.
pub open spec fn cnt(s: Seq<ReducedCard>, r: int) -> nat {
    count_matching(s, |c: ReducedCard| rank_ord(c.rank) == r)
}

/// Some card of `s` has rank ordinal `r`.
pub open spec fn has_rank(s: Seq<ReducedCard>, r: int) -> bool {
    exists|i: int| 0 <= i < s.len() && rank_ord(s[i].rank) == r
}

/// Length of the run of consecutive present ranks that ends at rank
/// ordinal `r`: 0 when `r` is absent, otherwise one more than the run
/// ending just below it.
pub open spec fn chain_len(s: Seq<ReducedCard>, r: int) -> nat
    decreases r + 1,
{
    if r < 0 || !has_rank(s, r) {
        0
    } else {
        1 + chain_len(s, r - 1)
    }
}

/// The highest rank ordinal `x <= h` at which a run of five consecutive
/// present ranks ends, if any.
pub open spec fn straight_high_from(s: Seq<ReducedCard>, h: int) -> Option<int>
    decreases h + 1,
{
    if h < 0 {
        None
    } else if chain_len(s, h) >= 5 {
        Some(h)
    } else {
        straight_high_from(s, h - 1)
    }
}

/// The highest rank ordinal at which a straight ends in `s`, if any.
pub open spec fn straight_high(s: Seq<ReducedCard>) -> Option<int> {
    straight_high_from(s, 12)
}

/// `straight_high`, as a rank.
pub open spec fn spec_straight_rank(s: Seq<ReducedCard>) -> Option<Rank> {
    match straight_high(s) {
        Option::None => Option::None,
        Option::Some(h) => Option::Some(rank_of_ord(h)),
    }
}

/// Ranks never exceed their position: a run ending at `r` spans at most
/// `r + 1` ranks.
proof fn lemma_chain_le(s: Seq<ReducedCard>, r: int)
    ensures
        r >= 0 ==> chain_len(s, r) <= r + 1,
        r < 0 ==> chain_len(s, r) == 0,
    decreases r + 1,
{
    if r >= 0 && has_rank(s, r) {
        lemma_chain_le(s, r - 1);
    }
}

/// A run of five consecutive ranks needs five cards.
proof fn lemma_chain_needs_five(s: Seq<ReducedCard>, r: int)
    requires
        chain_len(s, r) >= 5,
    ensures
        s.len() >= 5,
{
    let i0 = choose|i: int| 0 <= i < s.len() && rank_ord(s[i].rank) == r;
    let i1 = choose|i: int| 0 <= i < s.len() && rank_ord(s[i].rank) == r - 1;
    let i2 = choose|i: int| 0 <= i < s.len() && rank_ord(s[i].rank) == r - 2;
    let i3 = choose|i: int| 0 <= i < s.len() && rank_ord(s[i].rank) == r - 3;
    let i4 = choose|i: int| 0 <= i < s.len() && rank_ord(s[i].rank) == r - 4;
    assert(has_rank(s, r) && chain_len(s, r - 1) >= 4);
    assert(has_rank(s, r - 1) && chain_len(s, r - 2) >= 3);
    assert(has_rank(s, r - 2) && chain_len(s, r - 3) >= 2);
    assert(has_rank(s, r - 3) && chain_len(s, r - 4) >= 1);
    assert(has_rank(s, r - 4));
    assert(0 <= i0 < s.len() && rank_ord(s[i0].rank) == r);
    assert(0 <= i1 < s.len() && rank_ord(s[i1].rank) == r - 1);
    assert(0 <= i2 < s.len() && rank_ord(s[i2].rank) == r - 2);
    assert(0 <= i3 < s.len() && rank_ord(s[i3].rank) == r - 3);
    assert(0 <= i4 < s.len() && rank_ord(s[i4].rank) == r - 4);
}

/// Two sequences with the same present ranks up to `r` have the same run
/// length at `r`.
proof fn lemma_chain_agree(s1: Seq<ReducedCard>, s2: Seq<ReducedCard>, r: int)
    requires
        forall|t: int| t <= r ==> (has_rank(s1, t) <==> has_rank(s2, t)),
    ensures
        chain_len(s1, r) == chain_len(s2, r),
    decreases r + 1,
{
    if r >= 0 {
        lemma_chain_agree(s1, s2, r - 1);
    }
}

/// Two sequences with the same present ranks up to `h` have the same
/// straight search result from `h` down.
proof fn lemma_straight_agree(s1: Seq<ReducedCard>, s2: Seq<ReducedCard>, h: int)
    requires
        forall|t: int| t <= h ==> (has_rank(s1, t) <==> has_rank(s2, t)),
    ensures
        straight_high_from(s1, h) == straight_high_from(s2, h),
    decreases h + 1,
{
    if h >= 0 {
        lemma_chain_agree(s1, s2, h);
        lemma_straight_agree(s1, s2, h - 1);
    }
}

/// Ranks above `h` with short runs do not change the straight search.
proof fn lemma_straight_skip_above(s: Seq<ReducedCard>, top: int, h: int)
    requires
        -1 <= h <= top,
        forall|t: int| h < t <= top ==> chain_len(s, t) < 5,
    ensures
        straight_high_from(s, top) == straight_high_from(s, h),
    decreases top - h,
{
    if top > h {
        lemma_straight_skip_above(s, top - 1, h);
    }
}

/// The empty search finds nothing.
proof fn lemma_straight_none(s: Seq<ReducedCard>, h: int)
    requires
        h >= -1,
        forall|t: int| t <= h ==> chain_len(s, t) < 5,
    ensures
        straight_high_from(s, h) == Option::<int>::None,
{
    lemma_straight_skip_above(s, h, -1);
}

/// Rank ordinals of `s` are non-increasing.
pub open spec fn ranks_descending(s: Seq<ReducedCard>) -> bool {
    forall|i: int, j: int|
        0 <= i < j < s.len() ==> rank_ord(#[trigger] s[i].rank) >= rank_ord(#[trigger] s[j].rank)
}

/// The present ranks of a suffix are the first element's rank plus the
/// present ranks of the rest.
proof fn lemma_suffix_ranks(vs: Seq<ReducedCard>, j: int)
    requires
        0 <= j < vs.len(),
    ensures
        forall|t: int|
            #![trigger has_rank(vs.skip(j), t)]
            has_rank(vs.skip(j), t) <==> (t == rank_ord(vs[j].rank) || has_rank(vs.skip(j + 1), t)),
{
    let sub2 = vs.skip(j);
    let sub = vs.skip(j + 1);
    assert forall|t: int|
        has_rank(vs.skip(j), t) <==> (t == rank_ord(vs[j].rank) || has_rank(
            vs.skip(j + 1),
            t,
        )) by {
        if has_rank(sub2, t) {
            let i = choose|i: int| 0 <= i < sub2.len() && rank_ord(sub2[i].rank) == t;
            if i > 0 {
                assert(sub[i - 1] == sub2[i]);
                assert(has_rank(sub, t));
            } else {
                assert(sub2[0] == vs[j]);
            }
        }
        if t == rank_ord(vs[j].rank) {
            assert(sub2[0] == vs[j]);
            assert(rank_ord(sub2[0].rank) == t);
            assert(has_rank(sub2, t));
        }
        if has_rank(sub, t) {
            let i = choose|i: int| 0 <= i < sub.len() && rank_ord(sub[i].rank) == t;
            assert(sub2[i + 1] == sub[i]);
            assert(has_rank(sub2, t));
        }
    }
}

/// In a rank-descending list, every rank present in a suffix is at most
/// the rank at the suffix's head.
proof fn lemma_suffix_bounded(vs: Seq<ReducedCard>, j: int)
    requires
        ranks_descending(vs),
        0 <= j < vs.len(),
    ensures
        forall|t: int| has_rank(vs.skip(j), t) ==> t <= rank_ord(vs[j].rank),
{
    let sub = vs.skip(j);
    assert forall|t: int| has_rank(vs.skip(j), t) implies t <= rank_ord(vs[j].rank) by {
        let i = choose|i: int| 0 <= i < sub.len() && rank_ord(sub[i].rank) == t;
        assert(sub[i] == vs[j + i]);
        if i > 0 {
            assert(rank_ord(vs[j].rank) >= rank_ord(vs[j + i].rank));
        }
    }
}

/// How the run length and the straight found so far change when the scan
/// takes in one more card, by the three cases of its rank against the
/// previous one: equal, one above, or further above.
proof fn lemma_straight_step(vs: Seq<ReducedCard>, j: int)
    requires
        ranks_descending(vs),
        1 <= j < vs.len(),
    ensures
        rank_ord(vs[j - 1].rank) == rank_ord(vs[j].rank) ==> chain_len(
            vs.skip(j - 1),
            rank_ord(vs[j - 1].rank),
        ) == chain_len(vs.skip(j), rank_ord(vs[j].rank)) && straight_high(vs.skip(j - 1))
            == straight_high(vs.skip(j)),
        rank_ord(vs[j - 1].rank) == rank_ord(vs[j].rank) + 1 ==> chain_len(
            vs.skip(j - 1),
            rank_ord(vs[j - 1].rank),
        ) == chain_len(vs.skip(j), rank_ord(vs[j].rank)) + 1 && (chain_len(
            vs.skip(j - 1),
            rank_ord(vs[j - 1].rank),
        ) >= 5 ==> straight_high(vs.skip(j - 1)) == Option::Some(rank_ord(vs[j - 1].rank))) && (
        chain_len(vs.skip(j - 1), rank_ord(vs[j - 1].rank)) < 5 ==> straight_high(vs.skip(j - 1))
            == straight_high(vs.skip(j))),
        rank_ord(vs[j - 1].rank) > rank_ord(vs[j].rank) + 1 ==> chain_len(
            vs.skip(j - 1),
            rank_ord(vs[j - 1].rank),
        ) == 1 && straight_high(vs.skip(j - 1)) == straight_high(vs.skip(j)),
{
    let sub = vs.skip(j);
    let sub2 = vs.skip(j - 1);
    let lr = rank_ord(vs[j].rank);
    let cr = rank_ord(vs[j - 1].rank);
    assert(0 <= lr <= 12 && 0 <= cr <= 12);
    assert(cr >= lr);
    lemma_suffix_ranks(vs, j - 1);
    lemma_suffix_bounded(vs, j);
    lemma_suffix_bounded(vs, j - 1);
    assert(sub[0] == vs[j]);
    assert(has_rank(sub, lr));
    assert(sub2[0] == vs[j - 1]);
    assert(has_rank(sub2, cr));
    if cr == lr {
        assert forall|t: int| t <= 12 implies (has_rank(sub2, t) <==> has_rank(sub, t)) by {}
        lemma_chain_agree(sub2, sub, cr);
        lemma_straight_agree(sub2, sub, 12);
    } else if cr == lr + 1 {
        assert forall|t: int| t <= lr implies (has_rank(sub2, t) <==> has_rank(sub, t)) by {}
        lemma_chain_agree(sub2, sub, lr);
        assert(chain_len(sub2, cr) == 1 + chain_len(sub2, lr));
        if chain_len(sub2, cr) >= 5 {
            assert forall|t: int| cr < t <= 12 implies chain_len(sub2, t) < 5 by {
                assert(!has_rank(sub2, t));
            }
            lemma_straight_skip_above(sub2, 12, cr);
            assert(straight_high_from(sub2, cr) == Option::Some(cr));
        } else {
            assert forall|t: int| lr < t <= 12 implies chain_len(sub2, t) < 5 by {
                if t > cr {
                    assert(!has_rank(sub2, t));
                    assert(chain_len(sub2, t) == 0);
                }
            }
            lemma_straight_skip_above(sub2, 12, lr);
            assert forall|t: int| lr < t <= 12 implies chain_len(sub, t) < 5 by {
                assert(!has_rank(sub, t));
            }
            lemma_straight_skip_above(sub, 12, lr);
            lemma_straight_agree(sub2, sub, lr);
        }
    } else {
        assert forall|t: int| t <= lr implies (has_rank(sub2, t) <==> has_rank(sub, t)) by {}
        assert(!has_rank(sub2, cr - 1));
        assert(chain_len(sub2, cr - 1) == 0);
        assert(chain_len(sub2, cr) == 1);
        assert forall|t: int| lr < t <= 12 implies chain_len(sub2, t) < 5 by {
            if t > cr {
                assert(!has_rank(sub2, t));
                assert(chain_len(sub2, t) == 0);
            } else if t < cr {
                assert(!has_rank(sub2, t));
                assert(chain_len(sub2, t) == 0);
            }
        }
        lemma_straight_skip_above(sub2, 12, lr);
        assert forall|t: int| lr < t <= 12 implies chain_len(sub, t) < 5 by {
            assert(!has_rank(sub, t));
        }
        lemma_straight_skip_above(sub, 12, lr);
        lemma_straight_agree(sub2, sub, lr);
    }
}

/// The scan's state over the one-card suffix it starts from.
proof fn lemma_straight_init(vs: Seq<ReducedCard>)
    requires
        vs.len() >= 1,
    ensures
        chain_len(vs.skip(vs.len() - 1), rank_ord(vs[vs.len() - 1].rank)) == 1,
        straight_high(vs.skip(vs.len() - 1)) == Option::<int>::None,
{
    let j = vs.len() - 1;
    let sub = vs.skip(j);
    let lr = rank_ord(vs[j as int].rank);
    assert(sub.len() == 1);
    assert(sub[0] == vs[j as int]);
    assert(has_rank(sub, lr));
    assert forall|t: int| has_rank(sub, t) implies t == lr by {
        let i = choose|i: int| 0 <= i < sub.len() && rank_ord(sub[i].rank) == t;
        assert(i == 0);
    }
    assert(!has_rank(sub, lr - 1));
    assert(chain_len(sub, lr - 1) == 0);
    assert(chain_len(sub, lr) == 1);
    assert forall|t: int| t <= 12 implies chain_len(sub, t) < 5 by {
        if t >= 0 && has_rank(sub, t) {
            assert(t == lr);
            assert(chain_len(sub, t) == 1 + chain_len(sub, t - 1));
            assert(!has_rank(sub, t - 1));
        }
    }
    lemma_straight_none(sub, 12);
}

/// Fewer than five cards can hold no straight.
proof fn lemma_straight_short(vs: Seq<ReducedCard>)
    requires
        vs.len() < 5,
    ensures
        straight_high(vs) == Option::<int>::None,
{
    assert forall|t: int| t <= 12 implies chain_len(vs, t) < 5 by {
        if chain_len(vs, t) >= 5 {
            lemma_chain_needs_five(vs, t);
        }
    }
    lemma_straight_none(vs, 12);
}

/// The highest rank at which a five-card straight ends on a rank-descending
/// list, or `None` if the list holds no straight. There is no wheel
/// (A-2-3-4-5) straight.
pub fn find_straight_highest_rank(cards_descending: &[ReducedCard]) -> (res: Option<Rank>)
    requires
        ranks_descending(cards_descending@),
    ensures
        res == spec_straight_rank(cards_descending@),
{
    let ghost vs = cards_descending@;
    let n = cards_descending.len();
    if n < COMBINATION_SIZE {
        proof {
            lemma_straight_short(vs);
        }
        return Option::None;
    }
    let mut last_rank: Rank = cards_descending[n - 1].rank;
    let mut run_count: usize = 1;
    let mut straight_highest: Option<Rank> = Option::None;
    let mut j: usize = n - 1;
    proof {
        lemma_straight_init(vs);
    }
    while j > 0
        invariant
            vs == cards_descending@,
            n == vs.len(),
            5 <= n,
            0 <= j <= n - 1,
            ranks_descending(vs),
            rank_ord(last_rank) == rank_ord(vs[j as int].rank),
            run_count == chain_len(vs.skip(j as int), rank_ord(last_rank)),
            straight_high(vs.skip(j as int)) == (match straight_highest {
                Option::None => Option::<int>::None,
                Option::Some(r) => Option::Some(rank_ord(r)),
            }),
        decreases j,
    {
        let card = cards_descending[j - 1];
        proof {
            lemma_straight_step(vs, j as int);
            lemma_chain_le(vs.skip(j as int), rank_ord(last_rank));
        }
        let li = rank_index(last_rank);
        let ci = rank_index(card.rank);
        if ci == li {
            // A duplicate rank: the run and the best straight are unchanged.
        } else if ci == li + 1 {
            run_count = run_count + 1;
            if run_count >= COMBINATION_SIZE {
                straight_highest = Option::Some(card.rank);
            }
            last_rank = card.rank;
        } else {
            run_count = 1;
            last_rank = card.rank;
        }
        j = j - 1;
    }
    proof {
        assert(vs.skip(0) =~= vs);
        match straight_highest {
            Option::None => {},
            Option::Some(r) => {
                lemma_rank_roundtrip(r);
            },
        }
    }
    straight_highest
}


/// A predicate holds of at most every element.
pub proof fn lemma_count_matching_le<A>(s: Seq<A>, p: spec_fn(A) -> bool)
    ensures
        count_matching(s, p) <= s.len(),
    decreases s.len(),
{
    if s.len() > 0 {
        lemma_count_matching_le(s.drop_first(), p);
    }
}

/// Entries `(c, rank)` for every rank ordinal at most `r` whose number of
/// occurrences in `s` is exactly `c`, rank-descending.
pub open spec fn ranks_with_count(s: Seq<ReducedCard>, c: u8, r: int) -> Seq<(u8, u8)>
    decreases r + 1,
{
    if r < 0 {
        Seq::empty()
    } else {
        let rest = ranks_with_count(s, c, r - 1);
        if cnt(s, r) == c as nat {
            seq![(c, r as u8)] + rest
        } else {
            rest
        }
    }
}

/// All thirteen `(count, rank)` pairs of `s`, sorted descending by
/// `(count, rank)`: count groups from `c` down to 0, ranks descending
/// within each group.
pub open spec fn kind_seq_from(s: Seq<ReducedCard>, c: int) -> Seq<(u8, u8)>
    decreases c + 1,
{
    if c < 0 {
        Seq::empty()
    } else {
        ranks_with_count(s, c as u8, 12) + kind_seq_from(s, c - 1)
    }
}

/// The `(count, rank)` pairs of all thirteen ranks, sorted descending by
/// `(count, rank)`. Counts of a card set of at most seven cards never
/// exceed seven, so every rank lands in exactly one group.
pub open spec fn kind_seq(s: Seq<ReducedCard>) -> Seq<(u8, u8)> {
    kind_seq_from(s, 7)
}

/// Each rank with a count of at most 7 lands in exactly one count group.
proof fn lemma_rwc_partition(s: Seq<ReducedCard>, r: int)
    requires
        forall|t: int| 0 <= t <= 12 ==> cnt(s, t) <= 7,
        -1 <= r <= 12,
    ensures
        ranks_with_count(s, 0, r).len() + ranks_with_count(s, 1, r).len() + ranks_with_count(
            s,
            2,
            r,
        ).len() + ranks_with_count(s, 3, r).len() + ranks_with_count(s, 4, r).len()
            + ranks_with_count(s, 5, r).len() + ranks_with_count(s, 6, r).len() + ranks_with_count(
            s,
            7,
            r,
        ).len() == r + 1,
    decreases r + 1,
{
    if r >= 0 {
        lemma_rwc_partition(s, r - 1);
        assert(0 <= cnt(s, r) <= 7);
    }
}

/// The kind list always has thirteen entries.
proof fn lemma_kind_seq_len(s: Seq<ReducedCard>)
    requires
        forall|t: int| 0 <= t <= 12 ==> cnt(s, t) <= 7,
    ensures
        kind_seq(s).len() == 13,
{
    lemma_rwc_partition(s, 12);
    assert(kind_seq_from(s, -1).len() == 0);
    assert(kind_seq_from(s, 0).len() == ranks_with_count(s, 0, 12).len());
    assert(kind_seq_from(s, 1).len() == ranks_with_count(s, 1, 12).len() + kind_seq_from(
        s,
        0,
    ).len());
    assert(kind_seq_from(s, 2).len() == ranks_with_count(s, 2, 12).len() + kind_seq_from(
        s,
        1,
    ).len());
    assert(kind_seq_from(s, 3).len() == ranks_with_count(s, 3, 12).len() + kind_seq_from(
        s,
        2,
    ).len());
    assert(kind_seq_from(s, 4).len() == ranks_with_count(s, 4, 12).len() + kind_seq_from(
        s,
        3,
    ).len());
    assert(kind_seq_from(s, 5).len() == ranks_with_count(s, 5, 12).len() + kind_seq_from(
        s,
        4,
    ).len());
    assert(kind_seq_from(s, 6).len() == ranks_with_count(s, 6, 12).len() + kind_seq_from(
        s,
        5,
    ).len());
    assert(kind_seq_from(s, 7).len() == ranks_with_count(s, 7, 12).len() + kind_seq_from(
        s,
        6,
    ).len());
}

/// Every entry of a count group carries that group's count and a rank
/// ordinal at most `r`.
proof fn lemma_rwc_entries(s: Seq<ReducedCard>, c: u8, r: int)
    requires
        -1 <= r <= 12,
    ensures
        forall|i: int|
            0 <= i < ranks_with_count(s, c, r).len() ==> (#[trigger] ranks_with_count(s, c, r)[i]).0
                == c && ranks_with_count(s, c, r)[i].1 <= r,
    decreases r + 1,
{
    if r >= 0 {
        lemma_rwc_entries(s, c, r - 1);
        let cur = ranks_with_count(s, c, r);
        let rest = ranks_with_count(s, c, r - 1);
        if cnt(s, r) == c as nat {
            assert(cur == seq![(c, r as u8)] + rest);
            assert forall|i: int| 0 <= i < cur.len() implies (#[trigger] cur[i]).0 == c && cur[i].1
                <= r by {
                if i == 0 {
                    assert(cur[0] == (c, r as u8));
                } else {
                    assert(cur[i] == rest[i - 1]);
                }
            }
        } else {
            assert(cur == rest);
            assert forall|i: int| 0 <= i < cur.len() implies (#[trigger] cur[i]).0 == c && cur[i].1
                <= r by {
                assert(cur[i] == rest[i]);
            }
        }
    }
}

/// Every entry of the kind list carries a count of at most 7 and a rank
/// ordinal of at most 12.
proof fn lemma_kind_entries(s: Seq<ReducedCard>, c: int)
    requires
        -1 <= c <= 7,
    ensures
        forall|i: int|
            0 <= i < kind_seq_from(s, c).len() ==> (#[trigger] kind_seq_from(s, c)[i]).0 <= 7
                && kind_seq_from(s, c)[i].1 <= 12,
    decreases c + 1,
{
    if c >= 0 {
        lemma_kind_entries(s, c - 1);
        lemma_rwc_entries(s, c as u8, 12);
        let cur = kind_seq_from(s, c);
        let a = ranks_with_count(s, c as u8, 12);
        let b = kind_seq_from(s, c - 1);
        assert(cur == a + b);
        assert forall|i: int| 0 <= i < cur.len() implies (#[trigger] cur[i]).0 <= 7 && cur[i].1
            <= 12 by {
            if i < a.len() {
                assert(cur[i] == a[i]);
            } else {
                assert(cur[i] == b[i - a.len()]);
            }
        }
    }
}

/// Per-rank occurrence counts of a card set of at most seven cards.
fn rank_counts(cards: &[ReducedCard]) -> (counts: Vec<u8>)
    requires
        cards@.len() <= 7,
    ensures
        counts@.len() == 13,
        forall|r: int| 0 <= r < 13 ==> counts@[r] as nat == cnt(cards@, r),
{
    let ghost vs = cards@;
    let mut counts: Vec<u8> = vec![0u8; 13];
    let mut i: usize = 0;
    proof {
        assert(vs.skip(0) =~= vs);
    }
    while i < cards.len()
        invariant
            vs == cards@,
            vs.len() <= 7,
            i <= vs.len(),
            counts@.len() == 13,
            forall|r: int|
                0 <= r < 13 ==> counts@[r] as nat + cnt(vs.skip(i as int), r) == cnt(vs, r),
        decreases vs.len() - i,
    {
        let idx = rank_index(cards[i].rank) as usize;
        proof {
            assert forall|r: int| 0 <= r < 13 implies cnt(vs.skip(i as int), r) == (if rank_ord(
                vs[i as int].rank,
            ) == r {
                1nat
            } else {
                0nat
            }) + cnt(vs.skip(i + 1), r) by {
                assert(vs.skip(i as int).drop_first() =~= vs.skip(i + 1));
                assert(vs.skip(i as int).first() == vs[i as int]);
            }
            lemma_count_matching_le(vs, |c: ReducedCard| rank_ord(c.rank) == idx as int);
            assert(cnt(vs, idx as int) <= 7);
        }
        counts[idx] = counts[idx] + 1;
        i = i + 1;
    }
    proof {
        assert forall|r: int| 0 <= r < 13 implies cnt(vs.skip(i as int), r) == 0 by {
            assert(vs.skip(i as int).len() == 0);
        }
    }
    counts
}

/// Build the descending `(count, rank)` list from the per-rank counts.
/// `s` is the card set the counts were taken from.
fn build_kind_list(counts: &Vec<u8>, Ghost(s): Ghost<Seq<ReducedCard>>) -> (v: Vec<(u8, u8)>)
    requires
        counts@.len() == 13,
        forall|r: int| 0 <= r < 13 ==> counts@[r] as nat == cnt(s, r),
    ensures
        v@ == kind_seq(s),
{
    let mut v: Vec<(u8, u8)> = Vec::new();
    let mut c8: u8 = 8;
    proof {
        assert(v@ + kind_seq_from(s, 7) =~= kind_seq_from(s, 7));
    }
    while c8 > 0
        invariant
            counts@.len() == 13,
            forall|r: int| 0 <= r < 13 ==> counts@[r] as nat == cnt(s, r),
            0 <= c8 <= 8,
            v@ + kind_seq_from(s, c8 as int - 1) == kind_seq(s),
        decreases c8,
    {
        c8 = c8 - 1;
        let cc = c8;
        let mut r8: u8 = 13;
        proof {
            assert(kind_seq_from(s, cc as int) == ranks_with_count(s, cc, 12) + kind_seq_from(
                s,
                cc as int - 1,
            ));
            assert(v@ + (ranks_with_count(s, cc, r8 as int - 1) + kind_seq_from(s, cc as int - 1))
                =~= v@ + kind_seq_from(s, cc as int));
        }
        while r8 > 0
            invariant
                counts@.len() == 13,
                forall|r: int| 0 <= r < 13 ==> counts@[r] as nat == cnt(s, r),
                0 <= r8 <= 13,
                v@ + (ranks_with_count(s, cc, r8 as int - 1) + kind_seq_from(s, cc as int - 1))
                    == kind_seq(s),
            decreases r8,
        {
            r8 = r8 - 1;
            let r = r8;
            proof {
                assert(ranks_with_count(s, cc, r as int) == if cnt(s, r as int) == cc as nat {
                    seq![(cc, r)] + ranks_with_count(s, cc, r as int - 1)
                } else {
                    ranks_with_count(s, cc, r as int - 1)
                });
            }
            if counts[r as usize] == cc {
                v.push((cc, r));
                proof {
                    assert(v@ + (ranks_with_count(s, cc, r as int - 1) + kind_seq_from(
                        s,
                        cc as int - 1,
                    )) =~= (v@.drop_last() + (seq![(cc, r)] + (ranks_with_count(s, cc, r as int - 1)
                        + kind_seq_from(s, cc as int - 1)))));
                }
            }
        }
        proof {
            assert(ranks_with_count(s, cc, -1) =~= Seq::<(u8, u8)>::empty());
            assert(v@ + (ranks_with_count(s, cc, -1) + kind_seq_from(s, cc as int - 1)) =~= v@
                + kind_seq_from(s, cc as int - 1));
        }
    }
    proof {
        assert(kind_seq_from(s, -1) =~= Seq::<(u8, u8)>::empty());
        assert(v@ + kind_seq_from(s, -1) =~= v@);
    }
    v
}

/// Reduced cards are sorted descending by `(is_flush, rank)`.
pub open spec fn reduced_sorted(s: Seq<ReducedCard>) -> bool {
    forall|i: int, j: int| 0 <= i < j < s.len() ==> rc_ord(#[trigger] s[i]) >= rc_ord(#[trigger] s[j])
}

/// How many flush-suited cards stand at the front of the list.
pub open spec fn flush_prefix_len(s: Seq<ReducedCard>) -> nat
    decreases s.len(),
{
    if s.len() == 0 || !s.first().is_flush {
        0
    } else {
        1 + flush_prefix_len(s.drop_first())
    }
}

/// A maximal all-flush prefix has exactly the length of `flush_prefix_len`.
proof fn lemma_flush_prefix(s: Seq<ReducedCard>, e: int)
    requires
        0 <= e <= s.len(),
        forall|i: int| 0 <= i < e ==> (#[trigger] s[i]).is_flush,
        e == s.len() || !s[e].is_flush,
    ensures
        flush_prefix_len(s) == e,
    decreases e + 1,
{
    if e == 0 {
    } else {
        assert(s[0].is_flush);
        let d = s.drop_first();
        assert forall|i: int| 0 <= i < e - 1 implies (#[trigger] d[i]).is_flush by {
            assert(d[i] == s[i + 1]);
        }
        if e - 1 < d.len() {
            assert(d[e - 1] == s[e as int]);
        }
        lemma_flush_prefix(d, e - 1);
    }
}

/// The classification of a sorted reduced card list into the nine
/// combinations, following the straight-flush, kind, flush, straight
/// order of precedence.
pub open spec fn spec_classify(s: Seq<ReducedCard>) -> Combination {
    let fl = flush_prefix_len(s) as int;
    match straight_high(s.take(fl)) {
        Option::Some(h) => Combination::StraightFlush(rank_of_ord(h)),
        Option::None => {
            let k = kind_seq(s);
            if k[0].0 == 4 {
                Combination::FourOfAKind(rank_of_ord(k[0].1 as int), rank_of_ord(k[1].1 as int))
            } else if k[0].0 == 3 && k[1].0 == 2 {
                Combination::FullHouse(rank_of_ord(k[0].1 as int), rank_of_ord(k[1].1 as int))
            } else if fl > 0 {
                Combination::Flush(s[0].rank, s[1].rank, s[2].rank, s[3].rank, s[4].rank)
            } else {
                match straight_high(s) {
                    Option::Some(h) => Combination::Straight(rank_of_ord(h)),
                    Option::None => {
                        if k[0].0 == 3 {
                            Combination::ThreeOfAKind(
                                rank_of_ord(k[0].1 as int),
                                rank_of_ord(k[1].1 as int),
                                rank_of_ord(k[2].1 as int),
                            )
                        } else if k[0].0 == 2 && k[1].0 == 2 {
                            Combination::TwoPairs(
                                rank_of_ord(k[0].1 as int),
                                rank_of_ord(k[1].1 as int),
                                rank_of_ord(k[2].1 as int),
                            )
                        } else if k[0].0 == 2 {
                            Combination::Pair(
                                rank_of_ord(k[0].1 as int),
                                rank_of_ord(k[1].1 as int),
                                rank_of_ord(k[2].1 as int),
                                rank_of_ord(k[3].1 as int),
                            )
                        } else {
                            Combination::HighCard(
                                s[0].rank,
                                s[1].rank,
                                s[2].rank,
                                s[3].rank,
                                s[4].rank,
                            )
                        }
                    },
                }
            }
        },
    }
}

/// The best five-card combination of a sorted reduced card list of five to
/// seven cards.
pub fn best_combination_from_sorted(cards_descending: &[ReducedCard]) -> (res: Combination)
    requires
        5 <= cards_descending@.len() <= 7,
        reduced_sorted(cards_descending@),
    ensures
        res == spec_classify(cards_descending@),
{
    let ghost vs = cards_descending@;
    let n = cards_descending.len();
    let mut flush_end: usize = 0;
    while flush_end < n && cards_descending[flush_end].is_flush
        invariant
            vs == cards_descending@,
            n == vs.len(),
            0 <= flush_end <= n,
            forall|i: int| 0 <= i < flush_end ==> (#[trigger] vs[i]).is_flush,
        decreases n - flush_end,
    {
        flush_end = flush_end + 1;
    }
    proof {
        lemma_flush_prefix(vs, flush_end as int);
    }
    let suited_cards = &cards_descending[0..flush_end];
    proof {
        assert(suited_cards@ =~= vs.take(flush_end as int));
        assert forall|i: int, j: int| 0 <= i < j < suited_cards@.len() implies rank_ord(
            #[trigger] suited_cards@[i].rank,
        ) >= rank_ord(#[trigger] suited_cards@[j].rank) by {
            assert(suited_cards@[i] == vs[i]);
            assert(suited_cards@[j] == vs[j]);
            assert(rc_ord(vs[i]) >= rc_ord(vs[j]));
            assert(vs[i].is_flush && vs[j].is_flush);
        }
    }
    if let Option::Some(rank) = find_straight_highest_rank(suited_cards) {
        return Combination::StraightFlush(rank);
    }
    let counts = rank_counts(cards_descending);
    proof {
        assert forall|t: int| 0 <= t <= 12 implies cnt(vs, t) <= 7 by {
            lemma_count_matching_le(vs, |c: ReducedCard| rank_ord(c.rank) == t);
        }
        lemma_kind_seq_len(vs);
        lemma_kind_entries(vs, 7);
    }
    let same_of_a_kind = build_kind_list(&counts, Ghost(vs));
    let k0 = same_of_a_kind[0];
    let k1 = same_of_a_kind[1];
    if k0.0 == 4 {
        return Combination::FourOfAKind(rank_from_index(k0.1), rank_from_index(k1.1));
    }
    if k0.0 == 3 && k1.0 == 2 {
        return Combination::FullHouse(rank_from_index(k0.1), rank_from_index(k1.1));
    }
    if flush_end > 0 {
        return Combination::Flush(
            cards_descending[0].rank,
            cards_descending[1].rank,
            cards_descending[2].rank,
            cards_descending[3].rank,
            cards_descending[4].rank,
        );
    }
    proof {
        assert forall|i: int, j: int| 0 <= i < j < vs.len() implies rank_ord(#[trigger] vs[i].rank)
            >= rank_ord(#[trigger] vs[j].rank) by {
            assert(!vs[i].is_flush && !vs[j].is_flush);
            assert(rc_ord(vs[i]) >= rc_ord(vs[j]));
        }
    }
    if let Option::Some(rank) = find_straight_highest_rank(cards_descending) {
        return Combination::Straight(rank);
    }
    if k0.0 == 3 {
        let k2 = same_of_a_kind[2];
        return Combination::ThreeOfAKind(
            rank_from_index(k0.1),
            rank_from_index(k1.1),
            rank_from_index(k2.1),
        );
    }
    if k0.0 == 2 && k1.0 == 2 {
        let k2 = same_of_a_kind[2];
        return Combination::TwoPairs(
            rank_from_index(k0.1),
            rank_from_index(k1.1),
            rank_from_index(k2.1),
        );
    }
    if k0.0 == 2 {
        let k2 = same_of_a_kind[2];
        let k3 = same_of_a_kind[3];
        return Combination::Pair(
            rank_from_index(k0.1),
            rank_from_index(k1.1),
            rank_from_index(k2.1),
            rank_from_index(k3.1),
        );
    }
    Combination::HighCard(
        cards_descending[0].rank,
        cards_descending[1].rank,
        cards_descending[2].rank,
        cards_descending[3].rank,
        cards_descending[4].rank,
    )
}

/// How many cards of `cards` wear suit `st`.
pub open spec fn suit_cnt(cards: Seq<Card>, st: Suit) -> nat {
    count_matching(cards, |c: Card| c.suit == st)
}

/// The flush suit: the first suit in enum order that covers at least five
/// cards, if any.
pub open spec fn spec_flush_suit(cards: Seq<Card>) -> Option<Suit> {
    if suit_cnt(cards, Suit::Hearts) >= 5 {
        Option::Some(Suit::Hearts)
    } else if suit_cnt(cards, Suit::Diamonds) >= 5 {
        Option::Some(Suit::Diamonds)
    } else if suit_cnt(cards, Suit::Spades) >= 5 {
        Option::Some(Suit::Spades)
    } else if suit_cnt(cards, Suit::Clubs) >= 5 {
        Option::Some(Suit::Clubs)
    } else {
        Option::None
    }
}

/// A card reduced against the chosen flush suit.
pub open spec fn reduce_one(c: Card, fs: Option<Suit>) -> ReducedCard {
    ReducedCard { is_flush: fs == Option::Some(c.suit), rank: c.rank }
}

/// All cards reduced against the chosen flush suit, in input order.
pub open spec fn mark(cards: Seq<Card>, fs: Option<Suit>) -> Seq<ReducedCard> {
    cards.map_values(|c: Card| reduce_one(c, fs))
}

/// The descending order on reduced cards, as a `leq`-shaped relation:
/// `a` may stand before `b`.
pub open spec fn rc_leq() -> spec_fn(ReducedCard, ReducedCard) -> bool {
    |a: ReducedCard, b: ReducedCard| rc_ord(a) >= rc_ord(b)
}

/// The reduced, canonically sorted form of a card set: each card keeps its
/// rank and whether it wears the flush suit, sorted descending by
/// `(is_flush, rank)`. This sequence is the evaluator's cache key.
pub open spec fn spec_reduce(cards: Seq<Card>) -> Seq<ReducedCard> {
    mark(cards, spec_flush_suit(cards)).sort_by(rc_leq())
}

/// Two reduced cards with one ordinal are one card.
pub proof fn lemma_rc_ord_inj(a: ReducedCard, b: ReducedCard)
    requires
        rc_ord(a) == rc_ord(b),
    ensures
        a == b,
{
    lemma_rank_roundtrip(a.rank);
    lemma_rank_roundtrip(b.rank);
}

/// The descending order on reduced cards is a total ordering.
pub proof fn lemma_rc_leq_total()
    ensures
        vstd::relations::total_ordering(rc_leq()),
{
    let leq = rc_leq();
    assert forall|a: ReducedCard, b: ReducedCard| #[trigger] leq(a, b) && #[trigger] leq(b, a)
        implies a == b by {
        lemma_rc_ord_inj(a, b);
    }
    assert(vstd::relations::antisymmetric(leq));
    assert(vstd::relations::transitive(leq));
    assert(vstd::relations::strongly_connected(leq));
}

/// Executable ordinal of a reduced card.
fn rc_index(c: ReducedCard) -> (i: u8)
    ensures
        i == rc_ord(c),
        i < 26,
{
    let base: u8 = if c.is_flush {
        13
    } else {
        0
    };
    base + rank_index(c.rank)
}

/// Sort a vector of reduced cards descending by `(is_flush, rank)`.
fn sort_reduced_desc(v: &mut Vec<ReducedCard>)
    ensures
        final(v)@.len() == old(v)@.len(),
        vstd::relations::sorted_by(final(v)@, rc_leq()),
        final(v)@.to_multiset() == old(v)@.to_multiset(),
{
    broadcast use vstd::seq_lib::group_to_multiset_ensures;
    broadcast use vstd::multiset::group_multiset_axioms;

    let ghost orig = v@;
    if v.len() < 2 {
        return ;
    }
    let mut i: usize = 1;
    while i < v.len()
        invariant
            v@.len() == orig.len(),
            2 <= v@.len(),
            1 <= i <= v@.len(),
            v@.to_multiset() == orig.to_multiset(),
            vstd::relations::sorted_by(v@.take(i as int), rc_leq()),
        decreases v@.len() - i,
    {
        let ghost cur = v@;
        let x = v.remove(i);
        let ghost mid = v@;
        proof {
            assert(mid == cur.remove(i as int));
            assert(mid.take(i as int) =~= cur.take(i as int));
        }
        let mut j: usize = i;
        while j > 0 && rc_index(v[j - 1]) < rc_index(x)
            invariant
                v@ == mid,
                mid.len() == orig.len() - 1,
                0 <= j <= i,
                i < orig.len(),
                forall|t: int| j <= t < i ==> rc_ord(#[trigger] mid[t]) < rc_ord(x),
            decreases j,
        {
            j = j - 1;
        }
        v.insert(j, x);
        proof {
            let newv = v@;
            let leq = rc_leq();
            assert(newv == mid.insert(j as int, x));
            // The multiset is restored: the removed card went back in.
            assert(x == cur[i as int]);
            vstd::seq_lib::to_multiset_remove::<ReducedCard>(cur, i as int);
            vstd::seq_lib::to_multiset_insert::<ReducedCard>(mid, j as int, x);
            assert(cur.remove(i as int).to_multiset() == cur.to_multiset().remove(x));
            assert(mid.insert(j as int, x).to_multiset() == mid.to_multiset().insert(x));
            assert(cur.contains(x));
            vstd::seq_lib::to_multiset_contains::<ReducedCard>(cur, x);
            assert(cur.to_multiset().count(x) > 0);
            assert(cur.to_multiset().remove(x).insert(x) =~= cur.to_multiset());
            assert(newv.to_multiset() == orig.to_multiset());
            // The first `i + 1` cards are sorted: the sorted prefix kept its
            // order, everything before the insertion point is at least `x`,
            // and everything the scan passed over is strictly below `x`.
            assert forall|t: int| 0 <= t < i implies mid[t] == cur.take(i as int)[t] by {
                assert(mid[t] == cur[t]);
            }
            assert forall|a: int, b: int| 0 <= a < b < i implies rc_ord(#[trigger] mid[a])
                >= rc_ord(#[trigger] mid[b]) by {
                assert(leq(cur.take(i as int)[a], cur.take(i as int)[b]));
            }
            if j > 0 {
                assert(rc_ord(mid[j - 1]) >= rc_ord(x));
            }
            assert forall|a: int, b: int| 0 <= a < b <= i implies leq(
                #[trigger] newv[a],
                #[trigger] newv[b],
            ) by {
                if b < j {
                    assert(newv[a] == mid[a] && newv[b] == mid[b]);
                } else if b == j {
                    assert(newv[a] == mid[a] && newv[b] == x);
                    assert(rc_ord(mid[a]) >= rc_ord(mid[j - 1]));
                } else {
                    assert(newv[b] == mid[b - 1]);
                    if a < j {
                        assert(newv[a] == mid[a]);
                        if a < b - 1 {
                            assert(rc_ord(mid[a]) >= rc_ord(mid[b - 1]));
                        }
                    } else if a == j {
                        assert(newv[a] == x);
                        assert(rc_ord(mid[b - 1]) < rc_ord(x));
                    } else {
                        assert(newv[a] == mid[a - 1] && rc_ord(mid[a - 1]) >= rc_ord(mid[b - 1]));
                    }
                }
            }
            assert forall|a: int, b: int| 0 <= a < b < i + 1 implies leq(
                #[trigger] newv.take(i + 1)[a],
                #[trigger] newv.take(i + 1)[b],
            ) by {
                assert(newv.take(i + 1)[a] == newv[a]);
                assert(newv.take(i + 1)[b] == newv[b]);
            }
            assert(vstd::relations::sorted_by(newv.take(i + 1), leq));
        }
        i = i + 1;
    }
    proof {
        assert(v@.take(v@.len() as int) =~= v@);
    }
}

/// The reduced, sorted form of a card set: each card keeps its rank and
/// whether it wears the flush suit; the result is sorted descending by
/// `(is_flush, rank)` and is the evaluator's canonical cache key.
pub fn reduce_card_set(cards: &[Card]) -> (res: Vec<ReducedCard>)
    ensures
        res@ == spec_reduce(cards@),
        res@.len() == cards@.len(),
{
    let ghost vs = cards@;
    let mut suits_counts: Vec<usize> = vec![0usize; 4];
    let mut i: usize = 0;
    proof {
        assert(vs.skip(0) =~= vs);
    }
    while i < cards.len()
        invariant
            vs == cards@,
            i <= vs.len(),
            suits_counts@.len() == 4,
            forall|s: int|
                0 <= s < 4 ==> suits_counts@[s] as nat + suit_cnt(vs.skip(i as int), suit_of_ord(s))
                    == suit_cnt(vs, suit_of_ord(s)),
            forall|s: int| 0 <= s < 4 ==> suits_counts@[s] <= i,
        decreases vs.len() - i,
    {
        let si = suit_index(cards[i].suit) as usize;
        proof {
            assert forall|s: int| 0 <= s < 4 implies suit_cnt(vs.skip(i as int), suit_of_ord(s))
                == (if vs[i as int].suit == suit_of_ord(s) {
                1nat
            } else {
                0nat
            }) + suit_cnt(vs.skip(i + 1), suit_of_ord(s)) by {
                assert(vs.skip(i as int).drop_first() =~= vs.skip(i + 1));
                assert(vs.skip(i as int).first() == vs[i as int]);
            }
            lemma_suit_roundtrip(vs[i as int].suit);
        }
        suits_counts[si] = suits_counts[si] + 1;
        i = i + 1;
    }
    proof {
        assert forall|s: int| 0 <= s < 4 implies suit_cnt(vs.skip(i as int), suit_of_ord(s))
            == 0 by {
            assert(vs.skip(i as int).len() == 0);
        }
    }
    let flush_suit: Option<Suit> = if suits_counts[0] >= COMBINATION_SIZE {
        Option::Some(Suit::Hearts)
    } else if suits_counts[1] >= COMBINATION_SIZE {
        Option::Some(Suit::Diamonds)
    } else if suits_counts[2] >= COMBINATION_SIZE {
        Option::Some(Suit::Spades)
    } else if suits_counts[3] >= COMBINATION_SIZE {
        Option::Some(Suit::Clubs)
    } else {
        Option::None
    };
    proof {
        assert(suit_of_ord(0) == Suit::Hearts && suit_of_ord(1) == Suit::Diamonds && suit_of_ord(2)
            == Suit::Spades && suit_of_ord(3) == Suit::Clubs);
        assert(suits_counts@[0] as nat == suit_cnt(vs, suit_of_ord(0)));
        assert(suits_counts@[1] as nat == suit_cnt(vs, suit_of_ord(1)));
        assert(suits_counts@[2] as nat == suit_cnt(vs, suit_of_ord(2)));
        assert(suits_counts@[3] as nat == suit_cnt(vs, suit_of_ord(3)));
        assert(flush_suit == spec_flush_suit(vs));
    }
    let mut reduced_set: Vec<ReducedCard> = Vec::new();
    let mut k: usize = 0;
    proof {
        assert(reduced_set@ =~= mark(vs.take(0), flush_suit));
    }
    while k < cards.len()
        invariant
            vs == cards@,
            k <= vs.len(),
            reduced_set@ == mark(vs.take(k as int), flush_suit),
        decreases vs.len() - k,
    {
        let c = cards[k];
        let is_flush = match flush_suit {
            Option::Some(fs) => fs == c.suit,
            Option::None => false,
        };
        reduced_set.push(ReducedCard { is_flush, rank: c.rank });
        proof {
            assert(reduced_set@ =~= mark(vs.take(k + 1), flush_suit));
        }
        k = k + 1;
    }
    sort_reduced_desc(&mut reduced_set);
    proof {
        assert(vs.take(vs.len() as int) =~= vs);
        let marked = mark(vs, flush_suit);
        marked.lemma_sort_by_ensures(rc_leq());
        lemma_rc_leq_total();
        vstd::seq_lib::lemma_sorted_unique(reduced_set@, marked.sort_by(rc_leq()), rc_leq());
        assert(reduced_set@ =~= spec_reduce(vs));
    }
    reduced_set
}

/// The cache code of a reduced card, one above its ordinal so that no code
/// is zero: values in `1..=26`.
pub open spec fn rc_code(c: ReducedCard) -> int {
    1 + rc_ord(c)
}

/// The cache key of a reduced card list: its codes as base-32 digits, the
/// first card most significant.
pub open spec fn key_of(s: Seq<ReducedCard>) -> int
    decreases s.len(),
{
    if s.len() == 0 {
        0
    } else {
        key_of(s.drop_last()) * 32 + rc_code(s.last())
    }
}

/// `32^n`.
pub open spec fn pow32(n: nat) -> int
    decreases n,
{
    if n == 0 {
        1
    } else {
        32 * pow32((n - 1) as nat)
    }
}

proof fn lemma_pow32_mono(m: nat, n: nat)
    requires
        m <= n,
    ensures
        1 <= pow32(m) <= pow32(n),
    decreases n,
{
    if n > 0 {
        if m == n {
            lemma_pow32_mono(0, (n - 1) as nat);
        } else {
            lemma_pow32_mono(m, (n - 1) as nat);
        }
    }
}

/// A key is non-negative and bounded by `32` to the list's length.
proof fn lemma_key_bound(s: Seq<ReducedCard>)
    ensures
        0 <= key_of(s) < pow32(s.len()),
    decreases s.len(),
{
    if s.len() > 0 {
        lemma_key_bound(s.drop_last());
    }
}

/// Distinct reduced card lists have distinct keys.
proof fn lemma_key_injective(a: Seq<ReducedCard>, b: Seq<ReducedCard>)
    requires
        key_of(a) == key_of(b),
    ensures
        a == b,
    decreases a.len(),
{
    lemma_key_bound(a);
    lemma_key_bound(b);
    if a.len() == 0 && b.len() == 0 {
        assert(a =~= b);
    } else if a.len() == 0 {
        lemma_key_bound(b.drop_last());
        assert(key_of(b) >= 1);
        assert(false);
    } else if b.len() == 0 {
        lemma_key_bound(a.drop_last());
        assert(key_of(a) >= 1);
        assert(false);
    } else {
        lemma_key_bound(a.drop_last());
        lemma_key_bound(b.drop_last());
        let ka = key_of(a.drop_last());
        let kb = key_of(b.drop_last());
        let ca = rc_code(a.last());
        let cb = rc_code(b.last());
        assert(1 <= ca <= 26 && 1 <= cb <= 26);
        assert(ka * 32 + ca == kb * 32 + cb);
        assert(ca == cb && ka == kb) by {
            assert((ka - kb) * 32 == cb - ca) by {
                assert(ka * 32 + ca == kb * 32 + cb);
                assert(ka * 32 - kb * 32 == (ka - kb) * 32) by (nonlinear_arith);
            }
            assert(-26 < cb - ca < 26);
            assert(ka - kb == 0) by {
                if ka - kb >= 1 {
                    assert((ka - kb) * 32 >= 32) by (nonlinear_arith)
                        requires ka - kb >= 1;
                } else if ka - kb <= -1 {
                    assert((ka - kb) * 32 <= -32) by (nonlinear_arith)
                        requires ka - kb <= -1;
                }
            }
        }
        lemma_rc_ord_inj(a.last(), b.last());
        lemma_key_injective(a.drop_last(), b.drop_last());
        assert(a =~= a.drop_last().push(a.last()));
        assert(b =~= b.drop_last().push(b.last()));
        assert(a =~= b);
    }
}

/// The cache key of a reduced card list, as a machine integer.
fn encode_key(s: &Vec<ReducedCard>) -> (k: u64)
    requires
        s@.len() <= 7,
    ensures
        k == key_of(s@),
{
    let mut acc: u64 = 0;
    let mut i: usize = 0;
    proof {
        assert(s@.take(0) =~= Seq::<ReducedCard>::empty());
    }
    while i < s.len()
        invariant
            i <= s@.len() <= 7,
            acc == key_of(s@.take(i as int)),
        decreases s@.len() - i,
    {
        proof {
            assert(s@.take(i + 1).drop_last() =~= s@.take(i as int));
            assert(s@.take(i + 1).last() == s@[i as int]);
            lemma_key_bound(s@.take(i as int));
            lemma_pow32_mono(i as nat, 6);
            assert(pow32(0) == 1);
            assert(pow32(1) == 32);
            assert(pow32(2) == 1024);
            assert(pow32(3) == 32768);
            assert(pow32(4) == 1048576);
            assert(pow32(5) == 33554432);
            assert(pow32(6) == 1073741824);
        }
        let code = rc_index(s[i]) as u64 + 1;
        acc = acc * 32 + code;
        i = i + 1;
    }
    proof {
        assert(s@.take(s@.len() as int) =~= s@);
    }
    acc
}

/// The memoization cache: from the key of a reduced card list to the score
/// of its best combination. Every stored value is the score that the
/// classifier would compute for the list its key encodes.
pub struct EvalCache {
    map: HashMap<u64, u64>,
}

impl EvalCache {
    /// Every entry stores the classification score of the unique reduced
    /// card list its key encodes.
    pub closed spec fn wf(self) -> bool {
        forall|k: u64, v: u64|
            #[trigger] self.map@.contains_pair(k, v) ==> exists|s: Seq<ReducedCard>|
                key_of(s) == k && v == spec_score(spec_classify(s))
    }

    /// The memoized entries, from key to score.
    pub closed spec fn spec_entries(self) -> Map<u64, u64> {
        self.map@
    }

    /// An empty cache.
    pub fn new() -> (c: Self)
        ensures
            c.wf(),
            c.spec_entries() == Map::<u64, u64>::empty(),
    {
        let map: HashMap<u64, u64> = HashMap::new();
        proof {
            broadcast use vstd::std_specs::hash::group_hash_axioms;

        }
        EvalCache { map }
    }
}

/// The evaluator: the score of the best five-card combination of five to
/// seven cards. The reduced card list is both the semantic compression --
/// non-flush suits are collapsed -- and the memoization key.
pub fn best_combination(cards: &[Card], cache: &mut EvalCache) -> (score: u64)
    requires
        old(cache).wf(),
        5 <= cards@.len() <= 7,
    ensures
        final(cache).wf(),
        score == spec_eval(cards@),
        final(cache).spec_entries() == old(cache).spec_entries().insert(
            key_of(spec_reduce(cards@)) as u64,
            spec_eval(cards@) as u64,
        ),
{
    broadcast use vstd::std_specs::hash::group_hash_axioms;

    let reduced = reduce_card_set(cards);
    proof {
        let marked = mark(cards@, spec_flush_suit(cards@));
        marked.lemma_sort_by_ensures(rc_leq());
        assert forall|a: int, b: int| 0 <= a < b < reduced@.len() implies rc_ord(
            #[trigger] reduced@[a],
        ) >= rc_ord(#[trigger] reduced@[b]) by {
            assert(rc_leq()(reduced@[a], reduced@[b]));
        }
        assert(reduced_sorted(reduced@));
    }
    let key = encode_key(&reduced);
    let cached = cache.map.get(&key);
    match cached {
        Option::Some(v) => {
            let score = *v;
            proof {
                assert(cache.map@.contains_pair(key, score));
                let s = choose|s: Seq<ReducedCard>|
                    key_of(s) == key && score == spec_score(spec_classify(s));
                lemma_key_injective(s, reduced@);
                // The key was present with the true score, so re-inserting
                // it changes nothing.
                lemma_key_bound(reduced@);
                assert(key_of(spec_reduce(cards@)) as u64 == key);
                assert(spec_eval(cards@) as u64 == score);
                assert(cache.map@.insert(key, score) =~= cache.map@);
            }
            score
        },
        Option::None => {
            let comb = best_combination_from_sorted(reduced.as_slice());
            let sc = comb.score();
            cache.map.insert(key, sc);
            proof {
                lemma_key_bound(reduced@);
                assert(key_of(spec_reduce(cards@)) as u64 == key);
                assert(spec_eval(cards@) as u64 == sc);
                assert forall|k2: u64, v2: u64| #[trigger]
                    cache.map@.contains_pair(k2, v2) implies exists|s: Seq<ReducedCard>|
                    key_of(s) == k2 && v2 == spec_score(spec_classify(s)) by {
                    if k2 == key {
                        assert(key_of(reduced@) == key && v2 == spec_score(
                            spec_classify(reduced@),
                        ));
                    } else {
                        assert(old(cache).map@.contains_pair(k2, v2));
                    }
                }
            }
            sc
        },
    }
}

/// The score of the best five-card combination of a card set: the
/// evaluator's defining function.
pub open spec fn spec_eval(cards: Seq<Card>) -> int {
    spec_score(spec_classify(spec_reduce(cards)))
}

/// The evaluator's output depends only on the multiset of reduced cards:
/// once the flush suit has been chosen and each card collapsed to
/// `(is_flush, rank)`, any two card sets with the same reduced multiset --
/// in particular, sets differing only by a permutation of the non-flush
/// suits -- evaluate to the same score.
pub proof fn lemma_eval_respects_reduction(a: Seq<Card>, b: Seq<Card>)
    requires
        mark(a, spec_flush_suit(a)).to_multiset() == mark(b, spec_flush_suit(b)).to_multiset(),
    ensures
        spec_eval(a) == spec_eval(b),
{
    let ma = mark(a, spec_flush_suit(a));
    let mb = mark(b, spec_flush_suit(b));
    ma.lemma_sort_by_ensures(rc_leq());
    mb.lemma_sort_by_ensures(rc_leq());
    lemma_rc_leq_total();
    vstd::seq_lib::lemma_sorted_unique(ma.sort_by(rc_leq()), mb.sort_by(rc_leq()), rc_leq());
}
} // verus!
