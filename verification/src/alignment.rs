//! What a match is, and what it is worth.
//!
//! An alignment assigns to each pattern position an index of the candidate
//! string, in strictly increasing order, such that the characters agree up to
//! ASCII case. Its score is the sum of the scores of its cells and of the gaps
//! between consecutive cells.

use vstd::prelude::*;
use crate::chars::{chars_match, is_separator, Letter};

verus! {

pub const BONUS_UPPER_MATCH: i64 = 10;

pub const BONUS_ADJACENCY: i64 = 10;

pub const BONUS_SEPARATOR: i64 = 8;

pub const PENALTY_CASE_UNMATCHED: i64 = -1;

/// Penalty for every character before the first match.
pub const PENALTY_LEADING: i64 = -6;

/// The most that leading characters can cost.
pub const PENALTY_MAX_LEADING: i64 = -18;

/// Penalty for every character skipped between two matches.
pub const PENALTY_UNMATCHED: i64 = -2;

/// Score of a cell at string index `i`: a bonus or a penalty for the case
/// of the two characters, a bonus where the cell starts a word, and for the
/// first pattern position a penalty for the characters before it.
pub open spec fn cell_value(upper_match: bool, after_separator: bool, i: int, first: bool) -> int {
    (if upper_match {
        BONUS_UPPER_MATCH as int
    } else {
        PENALTY_CASE_UNMATCHED as int
    }) + (if after_separator {
        BONUS_SEPARATOR as int
    } else {
        0
    }) + (if first {
        if i * PENALTY_LEADING >= PENALTY_MAX_LEADING {
            i * PENALTY_LEADING
        } else {
            PENALTY_MAX_LEADING as int
        }
    } else {
        0
    })
}

/// Score of matching pattern position `p` at string index `i`, on its own.
/// The case bonus is for an upper-case letter matched by itself; a cell
/// starts a word when a separator stands before it.
pub open spec fn cell_score(choice: Seq<Letter>, pattern: Seq<Letter>, i: int, p: int) -> int {
    cell_value(
        pattern[p].upper && choice[i].upper && pattern[p].ch == choice[i].ch,
        i > 0 && is_separator(choice[i - 1].ch),
        i,
        p == 0,
    )
}

/// Score of the step from a match at `prev` to the next match at `next`:
/// a bonus when they are adjacent, a penalty per skipped character otherwise.
pub open spec fn gap_score(prev: int, next: int) -> int {
    if next - prev == 1 {
        BONUS_ADJACENCY as int
    } else {
        PENALTY_UNMATCHED * (next - prev - 1)
    }
}

/// `a` aligns the first `a.len()` pattern positions to `choice`.
pub open spec fn is_prefix_alignment(choice: Seq<Letter>, pattern: Seq<Letter>, a: Seq<int>) -> bool {
    &&& a.len() <= pattern.len()
    &&& forall|k: int|
        0 <= k < a.len() ==> 0 <= #[trigger] a[k] < choice.len() && chars_match(
            choice[a[k]].ch,
            pattern[k].ch,
        )
    &&& forall|j: int, k: int| 0 <= j < k < a.len() ==> a[j] < a[k]
}

/// `a` aligns the whole pattern to `choice`.
pub open spec fn is_alignment(choice: Seq<Letter>, pattern: Seq<Letter>, a: Seq<int>) -> bool {
    is_prefix_alignment(choice, pattern, a) && a.len() == pattern.len()
}

/// `pattern` occurs in `choice` as a subsequence, up to ASCII case.
pub open spec fn is_subsequence(choice: Seq<Letter>, pattern: Seq<Letter>) -> bool {
    exists|a: Seq<int>| is_alignment(choice, pattern, a)
}

/// Sum of the cell scores of `a` and of the gap scores between its cells.
pub open spec fn alignment_score(choice: Seq<Letter>, pattern: Seq<Letter>, a: Seq<int>) -> int
    decreases a.len(),
{
    if a.len() == 0 {
        0
    } else {
        let p = a.len() - 1;
        alignment_score(choice, pattern, a.drop_last()) + (if p == 0 {
            0
        } else {
            gap_score(a[p - 1], a[p])
        }) + cell_score(choice, pattern, a[p], p)
    }
}

/// `a` and `b` differ, and at the last position where they do `a` lies
/// further right.
pub open spec fn later_alignment(a: Seq<int>, b: Seq<int>) -> bool {
    &&& a.len() == b.len()
    &&& exists|k: int|
        0 <= k < a.len() && #[trigger] b[k] < a[k] && forall|j: int|
            k < j < a.len() ==> a[j] == b[j]
}

/// `b` scores no more than `a`, and where they score the same and differ,
/// `a` is the later of the two.
pub open spec fn dominated(choice: Seq<Letter>, pattern: Seq<Letter>, b: Seq<int>, a: Seq<int>) -> bool {
    &&& alignment_score(choice, pattern, b) <= alignment_score(choice, pattern, a)
    &&& alignment_score(choice, pattern, b) == alignment_score(choice, pattern, a) && b != a
        ==> later_alignment(a, b)
}

/// `a` is the alignment the matcher reports: one of highest score, and among
/// those the one that lies furthest right, compared from the last position
/// backwards.
pub open spec fn is_best_alignment(choice: Seq<Letter>, pattern: Seq<Letter>, a: Seq<int>) -> bool {
    &&& is_alignment(choice, pattern, a)
    &&& forall|b: Seq<int>| #[trigger]
        is_alignment(choice, pattern, b) ==> dominated(choice, pattern, b, a)
}

/// The indices of a result as mathematical integers.
pub open spec fn positions(picked: Seq<usize>) -> Seq<int> {
    picked.map_values(|i: usize| i as int)
}

/// The k-th index of an alignment is at least k.
pub proof fn lemma_index_at_least_position(
    choice: Seq<Letter>,
    pattern: Seq<Letter>,
    a: Seq<int>,
    k: int,
)
    requires
        is_prefix_alignment(choice, pattern, a),
        0 <= k < a.len(),
    ensures
        k <= a[k],
    decreases k,
{
    if k > 0 {
        lemma_index_at_least_position(choice, pattern, a, k - 1);
    }
}

/// An alignment without its last cell aligns one pattern position less.
pub proof fn lemma_drop_last_is_prefix(choice: Seq<Letter>, pattern: Seq<Letter>, a: Seq<int>)
    requires
        is_prefix_alignment(choice, pattern, a),
        a.len() > 0,
    ensures
        is_prefix_alignment(choice, pattern, a.drop_last()),
{
    let d = a.drop_last();
    assert forall|k: int| 0 <= k < d.len() implies 0 <= #[trigger] d[k] < choice.len()
        && chars_match(choice[d[k]].ch, pattern[k].ch) by {
        assert(d[k] == a[k]);
    }
    assert forall|j: int, k: int| 0 <= j < k < d.len() implies d[j] < d[k] by {
        assert(d[j] == a[j] && d[k] == a[k]);
    }
}

/// A cell's own score lies between -19 and 18.
pub proof fn lemma_cell_score_bounds(choice: Seq<Letter>, pattern: Seq<Letter>, i: int, p: int)
    requires
        0 <= i,
    ensures
        -19 <= cell_score(choice, pattern, i, p) <= 18,
{
}

/// The score of a non-empty alignment is bounded by its length and by the
/// index of its last cell.
pub proof fn lemma_score_bounds(choice: Seq<Letter>, pattern: Seq<Letter>, a: Seq<int>)
    requires
        is_prefix_alignment(choice, pattern, a),
        a.len() > 0,
    ensures
        -19 * a.len() - 2 * a.last() <= alignment_score(choice, pattern, a) <= 28 * a.len(),
        a.len() <= a.last() + 1,
    decreases a.len(),
{
    let p = a.len() - 1;
    lemma_index_at_least_position(choice, pattern, a, p);
    lemma_cell_score_bounds(choice, pattern, a[p], p);
    if p == 0 {
        assert(a.drop_last().len() == 0);
        assert(alignment_score(choice, pattern, a.drop_last()) == 0);
    } else {
        let d = a.drop_last();
        lemma_drop_last_is_prefix(choice, pattern, a);
        lemma_score_bounds(choice, pattern, d);
        assert(d.last() == a[p - 1]);
        assert(a[p - 1] < a[p]);
    }
}

/// Appending a matching index to the right of an alignment gives an
/// alignment, whose score is that of the old one plus the gap and the cell.
pub proof fn lemma_push_cell(choice: Seq<Letter>, pattern: Seq<Letter>, a: Seq<int>, e: int)
    requires
        is_prefix_alignment(choice, pattern, a),
        a.len() < pattern.len(),
        0 <= e < choice.len(),
        chars_match(choice[e].ch, pattern[a.len() as int].ch),
        a.len() > 0 ==> a.last() < e,
    ensures
        is_prefix_alignment(choice, pattern, a.push(e)),
        alignment_score(choice, pattern, a.push(e)) == alignment_score(choice, pattern, a) + (if a.len()
            == 0 {
            0
        } else {
            gap_score(a.last(), e)
        }) + cell_score(choice, pattern, e, a.len() as int),
{
    let g = a.push(e);
    assert(g.drop_last() =~= a);
    assert forall|j: int, k: int| 0 <= j < k < g.len() implies g[j] < g[k] by {
        if k == a.len() {
            assert(g[j] == a[j]);
            assert(a[j] <= a.last());
        } else {
            assert(g[j] == a[j] && g[k] == a[k]);
        }
    }
    assert forall|k: int| 0 <= k < g.len() implies 0 <= #[trigger] g[k] < choice.len()
        && chars_match(choice[g[k]].ch, pattern[k].ch) by {
        if k < a.len() {
            assert(g[k] == a[k]);
        }
    }
}

/// The score of an alignment, split at its last cell.
pub proof fn lemma_score_split(choice: Seq<Letter>, pattern: Seq<Letter>, a: Seq<int>)
    requires
        a.len() >= 2,
    ensures
        alignment_score(choice, pattern, a) == alignment_score(choice, pattern, a.drop_last())
            + gap_score(a[a.len() - 2], a[a.len() - 1]) + cell_score(
            choice,
            pattern,
            a[a.len() - 1],
            a.len() - 1,
        ),
{
}

/// "Later" is transitive.
pub proof fn lemma_later_transitive(a: Seq<int>, b: Seq<int>, c: Seq<int>)
    requires
        later_alignment(a, b),
        later_alignment(b, c),
    ensures
        later_alignment(a, c),
{
    let k1 = choose|k: int|
        0 <= k < a.len() && #[trigger] b[k] < a[k] && forall|j: int|
            k < j < a.len() ==> a[j] == b[j];
    let k2 = choose|k: int|
        0 <= k < b.len() && #[trigger] c[k] < b[k] && forall|j: int|
            k < j < b.len() ==> b[j] == c[j];
    let k = if k1 >= k2 {
        k1
    } else {
        k2
    };
    assert(c[k] < a[k]);
    assert forall|j: int| k < j < a.len() implies a[j] == c[j] by {
        assert(a[j] == b[j]);
        assert(b[j] == c[j]);
    }
}

/// No alignment is later than itself, so "later" orders alignments strictly.
pub proof fn lemma_later_asymmetric(a: Seq<int>, b: Seq<int>)
    requires
        later_alignment(a, b),
    ensures
        !later_alignment(b, a),
        a != b,
{
    if later_alignment(b, a) {
        lemma_later_transitive(a, b, a);
        let k = choose|k: int|
            0 <= k < a.len() && #[trigger] a[k] < a[k] && forall|j: int|
                k < j < a.len() ==> a[j] == a[j];
        assert(false);
    }
    let k1 = choose|k: int|
        0 <= k < a.len() && #[trigger] b[k] < a[k] && forall|j: int|
            k < j < a.len() ==> a[j] == b[j];
    assert(a[k1] != b[k1]);
}

/// Domination is transitive.
pub proof fn lemma_dominated_transitive(
    choice: Seq<Letter>,
    pattern: Seq<Letter>,
    c: Seq<int>,
    b: Seq<int>,
    a: Seq<int>,
)
    requires
        dominated(choice, pattern, c, b),
        dominated(choice, pattern, b, a),
    ensures
        dominated(choice, pattern, c, a),
{
    if alignment_score(choice, pattern, c) == alignment_score(choice, pattern, a) && c != a {
        if c == b {
        } else if b == a {
        } else {
            lemma_later_transitive(a, b, c);
        }
    }
}

/// Two alignments that end in the same cell compare as what they chose
/// before it: if `b` without its last cell is dominated by `mid`, and `mid`
/// followed by the cell is no better than `a`, which prefers the later
/// predecessor on a tie, then `b` is dominated by `a`.
pub proof fn lemma_extension_dominated(
    choice: Seq<Letter>,
    pattern: Seq<Letter>,
    b: Seq<int>,
    a: Seq<int>,
    mid: Seq<int>,
)
    requires
        a.len() == b.len(),
        a.len() >= 2,
        mid.len() == a.len() - 1,
        a.last() == b.last(),
        mid.last() == b[b.len() - 2],
        dominated(choice, pattern, b.drop_last(), mid),
        alignment_score(choice, pattern, mid) + gap_score(mid.last(), a.last()) <= alignment_score(
            choice,
            pattern,
            a.drop_last(),
        ) + gap_score(a[a.len() - 2], a.last()),
        alignment_score(choice, pattern, mid) + gap_score(mid.last(), a.last()) == alignment_score(
            choice,
            pattern,
            a.drop_last(),
        ) + gap_score(a[a.len() - 2], a.last()) ==> mid.last() <= a[a.len() - 2],
        mid.last() == a[a.len() - 2] ==> mid == a.drop_last(),
    ensures
        dominated(choice, pattern, b, a),
{
    let p = a.len() - 1;
    let bd = b.drop_last();
    let ad = a.drop_last();
    lemma_score_split(choice, pattern, a);
    lemma_score_split(choice, pattern, b);
    if alignment_score(choice, pattern, b) == alignment_score(choice, pattern, a) && b != a {
        assert(alignment_score(choice, pattern, bd) == alignment_score(choice, pattern, mid));
        if mid.last() < a[p - 1] {
            assert(b[p - 1] < a[p - 1]);
            assert forall|j: int| p - 1 < j < a.len() implies a[j] == b[j] by {
                assert(j == p);
            }
            assert(later_alignment(a, b));
        } else {
            assert(mid == ad);
            if bd == ad {
                assert(b =~= bd.push(b.last()));
                assert(a =~= ad.push(a.last()));
                assert(false);
            }
            assert(later_alignment(ad, bd));
            let k = choose|k: int|
                0 <= k < ad.len() && #[trigger] bd[k] < ad[k] && forall|j: int|
                    k < j < ad.len() ==> ad[j] == bd[j];
            assert(bd[k] == b[k] && ad[k] == a[k]);
            assert(b[k] < a[k]);
            assert forall|j: int| k < j < a.len() implies a[j] == b[j] by {
                if j < p {
                    assert(ad[j] == bd[j]);
                    assert(bd[j] == b[j] && ad[j] == a[j]);
                }
            }
            assert(later_alignment(a, b));
        }
    }
}

/// At most one alignment is the best one: the matcher's answer is determined
/// by the two strings.
pub proof fn lemma_best_alignment_unique(
    choice: Seq<Letter>,
    pattern: Seq<Letter>,
    a: Seq<int>,
    b: Seq<int>,
)
    requires
        is_best_alignment(choice, pattern, a),
        is_best_alignment(choice, pattern, b),
    ensures
        a == b,
{
    assert(dominated(choice, pattern, a, b));
    assert(dominated(choice, pattern, b, a));
    if a != b {
        lemma_later_asymmetric(a, b);
    }
}

/// A pattern longer than the string does not occur in it.
pub proof fn lemma_longer_pattern_never_matches(choice: Seq<Letter>, pattern: Seq<Letter>)
    requires
        pattern.len() > choice.len(),
    ensures
        !is_subsequence(choice, pattern),
{
    assert forall|a: Seq<int>| !is_alignment(choice, pattern, a) by {
        if is_alignment(choice, pattern, a) {
            lemma_index_at_least_position(choice, pattern, a, a.len() - 1);
        }
    }
}

/// The alignment that matches position `k` at index `k`, for the first `n`
/// positions.
pub open spec fn identity_alignment(n: nat) -> Seq<int> {
    Seq::new(n, |k: int| k)
}

/// The k-th index of an alignment leaves room for the indices behind it.
pub proof fn lemma_index_leaves_room(choice: Seq<Letter>, pattern: Seq<Letter>, a: Seq<int>, k: int)
    requires
        is_prefix_alignment(choice, pattern, a),
        0 <= k < a.len(),
    ensures
        a[k] + (a.len() - k) <= choice.len(),
    decreases a.len() - k,
{
    if k + 1 < a.len() {
        lemma_index_leaves_room(choice, pattern, a, k + 1);
        assert(a[k] < a[k + 1]);
    }
}

/// A pattern as long as the string can only be aligned position by position.
pub proof fn lemma_full_length_alignment_is_identity(
    choice: Seq<Letter>,
    pattern: Seq<Letter>,
    a: Seq<int>,
)
    requires
        is_alignment(choice, pattern, a),
        pattern.len() == choice.len(),
    ensures
        a == identity_alignment(choice.len()),
{
    assert forall|k: int| 0 <= k < a.len() implies a[k] == k by {
        lemma_index_at_least_position(choice, pattern, a, k);
        lemma_index_leaves_room(choice, pattern, a, k);
    }
    assert(a =~= identity_alignment(choice.len()));
}

/// Of two patterns that both match `choice` position by position, the one
/// spelled exactly like `choice` scores at least as much on every prefix,
/// and more as soon as `choice` has an upper-case letter that the other
/// pattern spells differently.
proof fn lemma_exact_prefix_scores_most(choice: Seq<Letter>, other: Seq<Letter>, j: nat)
    requires
        other.len() == choice.len(),
        j <= choice.len(),
    ensures
        alignment_score(choice, other, identity_alignment(j)) <= alignment_score(
            choice,
            choice,
            identity_alignment(j),
        ),
        (exists|k: int| 0 <= k < j && choice[k].upper && other[k] != choice[k])
            ==> alignment_score(choice, other, identity_alignment(j)) < alignment_score(
            choice,
            choice,
            identity_alignment(j),
        ),
    decreases j,
{
    if j > 0 {
        let shorter = (j - 1) as nat;
        lemma_exact_prefix_scores_most(choice, other, shorter);
        assert(identity_alignment(j).drop_last() =~= identity_alignment(shorter));
        assert(cell_score(choice, other, j - 1, j - 1) <= cell_score(choice, choice, j - 1, j - 1));
        if exists|k: int| 0 <= k < j && choice[k].upper && other[k] != choice[k] {
            let k = choose|k: int| 0 <= k < j && choice[k].upper && other[k] != choice[k];
            if k == j - 1 {
                assert(cell_score(choice, other, j - 1, j - 1) < cell_score(
                    choice,
                    choice,
                    j - 1,
                    j - 1,
                ));
            } else {
                assert(0 <= k < shorter && choice[k].upper && other[k] != choice[k]);
            }
        }
    }
}

/// A string matched against itself is aligned position by position, and
/// so is any pattern of the same length that matches it.
proof fn lemma_full_length_match(choice: Seq<Letter>, other: Seq<Letter>)
    requires
        other.len() == choice.len(),
        is_subsequence(choice, other),
    ensures
        is_best_alignment(choice, choice, identity_alignment(choice.len())),
        is_best_alignment(choice, other, identity_alignment(choice.len())),
{
    let id = identity_alignment(choice.len());
    let witness = choose|a: Seq<int>| is_alignment(choice, other, a);
    lemma_full_length_alignment_is_identity(choice, other, witness);
    assert(is_alignment(choice, choice, id));
    assert forall|b: Seq<int>| #[trigger] is_alignment(choice, choice, b) implies dominated(
        choice,
        choice,
        b,
        id,
    ) by {
        lemma_full_length_alignment_is_identity(choice, choice, b);
    }
    assert forall|b: Seq<int>| #[trigger] is_alignment(choice, other, b) implies dominated(
        choice,
        other,
        b,
        id,
    ) by {
        lemma_full_length_alignment_is_identity(choice, other, b);
    }
}

/// A string matched against itself scores the most that a pattern of its
/// length can score against it: where `exact` is the best alignment of
/// `choice` to itself and `loose` that of another pattern of the same length,
/// both match position by position, `loose` scores no more than `exact`, and
/// strictly less if `choice` has an upper-case letter that the other pattern
/// spells differently.
pub proof fn lemma_exact_match_scores_most(
    choice: Seq<Letter>,
    other: Seq<Letter>,
    exact: Seq<int>,
    loose: Seq<int>,
)
    requires
        other.len() == choice.len(),
        is_best_alignment(choice, choice, exact),
        is_best_alignment(choice, other, loose),
    ensures
        exact == identity_alignment(choice.len()),
        loose == identity_alignment(choice.len()),
        alignment_score(choice, other, loose) <= alignment_score(choice, choice, exact),
        (exists|k: int| 0 <= k < choice.len() && choice[k].upper && other[k] != choice[k])
            ==> alignment_score(choice, other, loose) < alignment_score(choice, choice, exact),
{
    lemma_full_length_match(choice, other);
    lemma_best_alignment_unique(choice, choice, exact, identity_alignment(choice.len()));
    lemma_best_alignment_unique(choice, other, loose, identity_alignment(choice.len()));
    lemma_exact_prefix_scores_most(choice, other, choice.len());
}

/// A string is a subsequence of itself.
pub proof fn lemma_matches_itself(choice: Seq<Letter>)
    ensures
        is_subsequence(choice, choice),
{
    assert(is_alignment(choice, choice, identity_alignment(choice.len())));
}

} // verus!
