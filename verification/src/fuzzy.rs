//! The subsequence matcher.
//!
//! Matching runs in three steps. For each pattern position the indices of
//! the candidate string that can hold it are listed; the lists are then
//! chained, each cell taking the best cell of the list before it as its
//! predecessor; at the end the best cell of the last list is followed back to
//! the first.

use vstd::prelude::*;
use crate::alignment::{
    alignment_score, cell_score, cell_value, dominated, gap_score, is_alignment, is_best_alignment,
    is_prefix_alignment, is_subsequence, later_alignment, lemma_cell_score_bounds,
    lemma_dominated_transitive, lemma_drop_last_is_prefix, lemma_extension_dominated,
    lemma_push_cell, lemma_score_bounds, lemma_score_split, positions, BONUS_ADJACENCY,
    PENALTY_UNMATCHED, BONUS_SEPARATOR, BONUS_UPPER_MATCH, PENALTY_CASE_UNMATCHED,
    PENALTY_LEADING, PENALTY_MAX_LEADING,
};
use crate::chars::{ascii_lower, chars_match, is_separator_char, letter_of, letters, Letter};

verus! {

/// Longest candidate string the matcher accepts: scores of longer strings
/// could leave the range of `i64`.
pub const MAX_CHOICE_LEN: u64 = 0x0400_0000_0000_0000;

/// One way of matching a pattern position: the string index, the score of
/// the cell on its own, the score of the best alignment that ends in it, and
/// the place of its predecessor in the list before.
#[derive(Clone, Copy, Debug)]
pub struct MatchingStatus {
    pub idx: usize,
    pub score: i64,
    pub final_score: i64,
    pub back_ref: usize,
}

/// Scores a cell at string index `index` from what is known of its
/// characters: whether an upper-case letter is matched by itself, whether a
/// separator stands before it, and whether it matches the first pattern
/// position.
pub fn score_cell(upper_match: bool, after_separator: bool, index: usize, first: bool) -> (score:
    i64)
    ensures
        score == cell_value(upper_match, after_separator, index as int, first),
{
    let mut score: i64 = 0;
    if upper_match {
        score += BONUS_UPPER_MATCH;
    } else {
        score += PENALTY_CASE_UNMATCHED;
    }
    if after_separator {
        score += BONUS_SEPARATOR;
    }
    if first {
        if index < 3 {
            score += (index as i64) * PENALTY_LEADING;
        } else {
            score += PENALTY_MAX_LEADING;
        }
    }
    score
}

/// Scores the match of `pattern[pattern_idx]` at `string[index]` on its own:
/// exact upper-case matches and matches at the start of a word earn a bonus,
/// and the first pattern character pays for the characters before it.
pub fn fuzzy_score(string: &[char], index: usize, pattern: &[char], pattern_idx: usize) -> (score:
    i64)
    requires
        index < string@.len(),
        pattern_idx < pattern@.len(),
    ensures
        score == cell_score(letters(string@), letters(pattern@), index as int, pattern_idx as int),
{
    let pattern_char = pattern[pattern_idx];
    let cur = string[index];
    let upper_match = pattern_char.is_uppercase() && cur.is_uppercase() && pattern_char == cur;
    let after_separator = index > 0 && is_separator_char(string[index - 1]);
    score_cell(upper_match, after_separator, index, pattern_idx == 0)
}

/// Scores the match of `pattern[pattern_idx]` at `string[index]` on its own,
/// for letters whose case is known.
pub fn letter_score(string: &[Letter], index: usize, pattern: &[Letter], pattern_idx: usize) -> (score:
    i64)
    requires
        index < string@.len(),
        pattern_idx < pattern@.len(),
    ensures
        score == cell_score(string@, pattern@, index as int, pattern_idx as int),
{
    let wanted = pattern[pattern_idx];
    let cur = string[index];
    let upper_match = wanted.upper && cur.upper && wanted.ch == cur.ch;
    let after_separator = index > 0 && is_separator_char(string[index - 1].ch);
    score_cell(upper_match, after_separator, index, pattern_idx == 0)
}

/// `row` lists, in increasing order, the indices from `start` on at which
/// `choice` matches pattern position `p`.
spec fn is_candidate_row(
    choice: Seq<Letter>,
    pattern: Seq<Letter>,
    p: int,
    start: int,
    row: Seq<usize>,
) -> bool {
    &&& forall|c: int, d: int| 0 <= c < d < row.len() ==> row[c] < row[d]
    &&& forall|c: int|
        0 <= c < row.len() ==> start <= #[trigger] row[c] < choice.len() && chars_match(
            choice[row[c] as int].ch,
            pattern[p].ch,
        )
    &&& forall|i: int|
        start <= i < choice.len() && chars_match((#[trigger] choice[i]).ch, pattern[p].ch) ==> exists|
            c: int,
        |
            0 <= c < row.len() && #[trigger] row[c] == i
}

/// Where the list for position `p` begins: behind the first entry of the
/// list before it.
spec fn row_start(rows: Seq<Vec<usize>>, p: int) -> int {
    if p == 0 {
        0
    } else {
        rows[p - 1]@[0] + 1
    }
}

/// The first `n` lists are non-empty and hold what they should.
spec fn candidates_ok(
    choice: Seq<Letter>,
    pattern: Seq<Letter>,
    rows: Seq<Vec<usize>>,
    n: int,
) -> bool {
    &&& 0 <= n <= rows.len()
    &&& n <= pattern.len()
    &&& forall|p: int|
        0 <= p < n ==> (#[trigger] rows[p])@.len() > 0 && is_candidate_row(
            choice,
            pattern,
            p,
            row_start(rows, p),
            rows[p]@,
        )
}

/// Every alignment passes through the lists: its k-th index is found in the
/// k-th list, at or behind that list's first entry.
proof fn lemma_alignment_in_rows(
    choice: Seq<Letter>,
    pattern: Seq<Letter>,
    rows: Seq<Vec<usize>>,
    n: int,
    b: Seq<int>,
    k: int,
)
    requires
        candidates_ok(choice, pattern, rows, n),
        is_prefix_alignment(choice, pattern, b),
        0 <= k < b.len(),
        k < n,
    ensures
        row_start(rows, k) <= b[k],
        rows[k]@[0] <= b[k],
        exists|c: int| 0 <= c < rows[k]@.len() && #[trigger] rows[k]@[c] == b[k],
    decreases k,
{
    if k > 0 {
        lemma_alignment_in_rows(choice, pattern, rows, n, b, k - 1);
        assert(b[k - 1] < b[k]);
    }
    let row = rows[k]@;
    assert(is_candidate_row(choice, pattern, k, row_start(rows, k), row));
    assert(chars_match(choice[b[k]].ch, pattern[k].ch));
    let c = choose|c: int| 0 <= c < row.len() && #[trigger] row[c] == b[k];
    if c > 0 {
        assert(row[0] < row[c]);
    }
}

/// Lists the indices from `start` on at which `choice` matches pattern
/// position `p`.
fn candidate_row(choice: &[Letter], pattern: &[Letter], p: usize, start: usize) -> (row: Vec<usize>)
    requires
        p < pattern@.len(),
    ensures
        is_candidate_row(choice@, pattern@, p as int, start as int, row@),
{
    let target = pattern[p].ch.to_ascii_lowercase();
    let mut row: Vec<usize> = Vec::new();
    let mut idx: usize = start;
    while idx < choice.len()
        invariant
            start <= idx,
            p < pattern@.len(),
            target == ascii_lower(pattern@[p as int].ch),
            forall|c: int, d: int| 0 <= c < d < row@.len() ==> row@[c] < row@[d],
            forall|c: int|
                0 <= c < row@.len() ==> start <= #[trigger] row@[c] < idx && row@[c]
                    < choice@.len() && chars_match(
                    choice@[row@[c] as int].ch,
                    pattern@[p as int].ch,
                ),
            forall|i: int|
                start <= i < idx && i < choice@.len() && chars_match(
                    (#[trigger] choice@[i]).ch,
                    pattern@[p as int].ch,
                ) ==> exists|c: int| 0 <= c < row@.len() && #[trigger] row@[c] == i,
        decreases choice@.len() - idx,
    {
        if choice[idx].ch.to_ascii_lowercase() == target {
            let ghost before = row@;
            row.push(idx);
            proof {
                assert forall|i: int|
                    start <= i < idx + 1 && i < choice@.len() && chars_match(
                        (#[trigger] choice@[i]).ch,
                        pattern@[p as int].ch,
                    ) implies exists|c: int| 0 <= c < row@.len() && #[trigger] row@[c] == i by {
                    if i < idx {
                        let c = choose|c: int| 0 <= c < before.len() && #[trigger] before[c] == i;
                        assert(row@[c] == i);
                    } else {
                        assert(row@[before.len() as int] == i);
                    }
                }
            }
        }
        idx += 1;
    }
    row
}

/// Builds the list of candidate indices of every pattern position, or finds
/// that some position has none.
fn find_candidates(choice: &[Letter], pattern: &[Letter]) -> (r: Option<Vec<Vec<usize>>>)
    ensures
        r is None ==> !is_subsequence(choice@, pattern@),
        r matches Some(rows) ==> rows@.len() == pattern@.len() && candidates_ok(
            choice@,
            pattern@,
            rows@,
            pattern@.len() as int,
        ),
{
    let mut rows: Vec<Vec<usize>> = Vec::new();
    let mut start: usize = 0;
    let mut p: usize = 0;
    let limit = choice.len();
    while p < pattern.len()
        invariant
            p <= pattern@.len(),
            limit == choice@.len(),
            rows@.len() == p,
            candidates_ok(choice@, pattern@, rows@, p as int),
            start as int == row_start(rows@, p as int),
        decreases pattern@.len() - p,
    {
        let row = candidate_row(choice, pattern, p, start);
        if row.len() == 0 {
            proof {
                assert forall|b: Seq<int>| !is_alignment(choice@, pattern@, b) by {
                    if is_alignment(choice@, pattern@, b) {
                        if p > 0 {
                            lemma_alignment_in_rows(choice@, pattern@, rows@, p as int, b, p - 1);
                            assert(b[p - 1] < b[p as int]);
                        }
                        assert(chars_match(choice@[b[p as int]].ch, pattern@[p as int].ch));
                        assert(false);
                    }
                }
            }
            return None;
        }
        let ghost before = rows@;
        assert(row@[0] < choice@.len());
        start = row[0] + 1;
        rows.push(row);
        proof {
            assert forall|k: int| 0 <= k < p + 1 implies (#[trigger] rows@[k])@.len() > 0
                && is_candidate_row(choice@, pattern@, k, row_start(rows@, k), rows@[k]@) by {
                if k < p {
                    assert(rows@[k] == before[k]);
                    assert(row_start(rows@, k) == row_start(before, k));
                } else {
                    assert(row_start(rows@, k) == row_start(before, k));
                }
            }
        }
        p += 1;
    }
    Some(rows)
}

/// `b` aligns the pattern positions up to `p` and ends at string index `e`.
spec fn ends_at(choice: Seq<Letter>, pattern: Seq<Letter>, b: Seq<int>, p: int, e: int) -> bool {
    is_prefix_alignment(choice, pattern, b) && b.len() == p + 1 && b[p] == e
}

/// The cell holds the score of `path`, and `path` is the best alignment of
/// the pattern positions up to `p` that ends at the cell's index.
spec fn cell_ok(
    choice: Seq<Letter>,
    pattern: Seq<Letter>,
    p: int,
    cell: MatchingStatus,
    path: Seq<int>,
) -> bool {
    &&& ends_at(choice, pattern, path, p, cell.idx as int)
    &&& cell.score as int == cell_score(choice, pattern, cell.idx as int, p)
    &&& cell.final_score as int == alignment_score(choice, pattern, path)
    &&& forall|b: Seq<int>| #[trigger]
        ends_at(choice, pattern, b, p, cell.idx as int) ==> dominated(choice, pattern, b, path)
}

/// The cells of the list for position `p` are in increasing order of index,
/// each holds its best alignment, and every alignment of the positions up to
/// `p` ends in one of them.
spec fn row_ok(
    choice: Seq<Letter>,
    pattern: Seq<Letter>,
    p: int,
    row: Seq<MatchingStatus>,
    paths: Seq<Seq<int>>,
) -> bool {
    &&& row.len() == paths.len()
    &&& row.len() > 0
    &&& forall|c: int| 0 <= c < row.len() ==> cell_ok(choice, pattern, p, #[trigger] row[c], paths[c])
    &&& forall|c: int, d: int| 0 <= c < d < row.len() ==> row[c].idx < row[d].idx
    &&& forall|b: Seq<int>|
        #[trigger] is_prefix_alignment(choice, pattern, b) && b.len() == p + 1 ==> exists|c: int|
            0 <= c < row.len() && (#[trigger] row[c]).idx == b[p]
}

/// Each cell's alignment is that of its predecessor with the cell appended.
spec fn row_linked(
    row: Seq<MatchingStatus>,
    paths: Seq<Seq<int>>,
    prev_row: Seq<MatchingStatus>,
    prev_paths: Seq<Seq<int>>,
) -> bool {
    forall|c: int|
        0 <= c < row.len() ==> (#[trigger] row[c]).back_ref < prev_row.len() && paths[c]
            == prev_paths[row[c].back_ref as int].push(row[c].idx as int)
}

/// The score of the step between two matches.
fn gap_between(prev_idx: usize, next_idx: usize) -> (g: i64)
    requires
        prev_idx < next_idx,
        next_idx <= MAX_CHOICE_LEN,
    ensures
        g == gap_score(prev_idx as int, next_idx as int),
{
    let skipped = next_idx - prev_idx - 1;
    if skipped == 0 {
        BONUS_ADJACENCY
    } else {
        PENALTY_UNMATCHED * (skipped as i64)
    }
}

/// Builds the list of the first pattern position: each cell stands alone.
fn first_row(choice: &[Letter], pattern: &[Letter], cand: &Vec<usize>) -> (r: (
    Vec<MatchingStatus>,
    Ghost<Seq<Seq<int>>>,
))
    requires
        pattern@.len() > 0,
        cand@.len() > 0,
        is_candidate_row(choice@, pattern@, 0, 0, cand@),
    ensures
        row_ok(choice@, pattern@, 0, r.0@, r.1@),
        r.0@.len() == cand@.len(),
        r.0@[0].idx == cand@[0],
{
    let mut row: Vec<MatchingStatus> = Vec::new();
    let ghost mut paths: Seq<Seq<int>> = Seq::empty();
    let mut c: usize = 0;
    while c < cand.len()
        invariant
            c <= cand@.len(),
            pattern@.len() > 0,
            is_candidate_row(choice@, pattern@, 0, 0, cand@),
            row@.len() == c,
            paths.len() == c,
            forall|d: int| 0 <= d < c ==> (#[trigger] row@[d]).idx == cand@[d],
            forall|d: int| 0 <= d < c ==> cell_ok(choice@, pattern@, 0, #[trigger] row@[d], paths[d]),
        decreases cand@.len() - c,
    {
        let idx = cand[c];
        assert(idx < choice@.len() && chars_match(choice@[idx as int].ch, pattern@[0].ch));
        let score = letter_score(choice, idx, pattern, 0);
        let cell = MatchingStatus { idx, score, final_score: score, back_ref: 0 };
        let ghost path: Seq<int> = seq![idx as int];
        proof {
            lemma_push_cell(choice@, pattern@, Seq::<int>::empty(), idx as int);
            assert(Seq::<int>::empty().push(idx as int) =~= path);
            assert forall|b: Seq<int>| #[trigger]
                ends_at(choice@, pattern@, b, 0, idx as int) implies dominated(
                choice@,
                pattern@,
                b,
                path,
            ) by {
                assert(b =~= path);
            }
        }
        let ghost old_row = row@;
        let ghost old_paths = paths;
        row.push(cell);
        proof {
            paths = paths.push(path);
            assert forall|d: int| 0 <= d < c + 1 implies cell_ok(
                choice@,
                pattern@,
                0,
                #[trigger] row@[d],
                paths[d],
            ) by {
                if d < c {
                    assert(row@[d] == old_row[d]);
                    assert(paths[d] == old_paths[d]);
                }
            }
        }
        c += 1;
    }
    proof {
        assert forall|b: Seq<int>|
            #[trigger] is_prefix_alignment(choice@, pattern@, b) && b.len() == 1 implies exists|
            d: int,
        |
            0 <= d < row@.len() && (#[trigger] row@[d]).idx == b[0] by {
            assert(chars_match(choice@[b[0]].ch, pattern@[0].ch));
            let d = choose|d: int| 0 <= d < cand@.len() && #[trigger] cand@[d] == b[0];
            assert(row@[d].idx == b[0]);
        }
        assert forall|d: int, e: int| 0 <= d < e < row@.len() implies row@[d].idx < row@[e].idx by {
            assert(cand@[d] < cand@[e]);
        }
    }
    (row, Ghost(paths))
}

/// The scores that a cell of a finished list can hold.
spec fn score_in_range(s: i64) -> bool {
    -21 * MAX_CHOICE_LEN <= s <= 28 * MAX_CHOICE_LEN
}

/// Finds the predecessor of a cell at string index `e`: among the cells of
/// the list before with a smaller index, the last one of those for which
/// final score plus gap is highest.
fn best_predecessor(prev: &Vec<MatchingStatus>, e: usize) -> (r: (usize, i64))
    requires
        prev@.len() > 0,
        prev@[0].idx < e,
        e <= MAX_CHOICE_LEN,
        forall|c: int, d: int| 0 <= c < d < prev@.len() ==> prev@[c].idx < prev@[d].idx,
        forall|c: int| 0 <= c < prev@.len() ==> score_in_range((#[trigger] prev@[c]).final_score),
    ensures
        r.0 < prev@.len(),
        prev@[r.0 as int].idx < e,
        r.1 == prev@[r.0 as int].final_score + gap_score(prev@[r.0 as int].idx as int, e as int),
        forall|q: int|
            0 <= q < prev@.len() && (#[trigger] prev@[q]).idx < e ==> prev@[q].final_score
                + gap_score(prev@[q].idx as int, e as int) <= r.1 && (prev@[q].final_score
                + gap_score(prev@[q].idx as int, e as int) == r.1 ==> q <= r.0),
{
    let mut best_ref: usize = 0;
    let mut best: i64 = prev[0].final_score + gap_between(prev[0].idx, e);
    let mut q: usize = 1;
    while q < prev.len() && prev[q].idx < e
        invariant
            1 <= q <= prev@.len(),
            e <= MAX_CHOICE_LEN,
            best_ref < q,
            prev@[best_ref as int].idx < e,
            best == prev@[best_ref as int].final_score + gap_score(
                prev@[best_ref as int].idx as int,
                e as int,
            ),
            forall|c: int, d: int| 0 <= c < d < prev@.len() ==> prev@[c].idx < prev@[d].idx,
            forall|c: int|
                0 <= c < prev@.len() ==> score_in_range((#[trigger] prev@[c]).final_score),
            forall|k: int|
                0 <= k < q ==> (#[trigger] prev@[k]).idx < e && prev@[k].final_score + gap_score(
                    prev@[k].idx as int,
                    e as int,
                ) <= best && (prev@[k].final_score + gap_score(prev@[k].idx as int, e as int)
                    == best ==> k <= best_ref),
        decreases prev@.len() - q,
    {
        let s = prev[q].final_score + gap_between(prev[q].idx, e);
        if s >= best {
            best = s;
            best_ref = q;
        }
        q += 1;
    }
    proof {
        assert forall|k: int| 0 <= k < prev@.len() && (#[trigger] prev@[k]).idx < e implies k < q by {
            if k >= q {
                assert(q < prev@.len());
                if k > q {
                    assert(prev@[q as int].idx < prev@[k].idx);
                }
            }
        }
    }
    (best_ref, best)
}

/// Builds the list of pattern position `p` from the finished list of the
/// position before it.
fn next_row(
    choice: &[Letter],
    pattern: &[Letter],
    p: usize,
    prev: &Vec<MatchingStatus>,
    cand: &Vec<usize>,
    Ghost(prev_paths): Ghost<Seq<Seq<int>>>,
) -> (r: (Vec<MatchingStatus>, Ghost<Seq<Seq<int>>>))
    requires
        choice@.len() <= MAX_CHOICE_LEN,
        0 < p < pattern@.len(),
        row_ok(choice@, pattern@, p - 1, prev@, prev_paths),
        cand@.len() > 0,
        is_candidate_row(choice@, pattern@, p as int, prev@[0].idx + 1, cand@),
    ensures
        row_ok(choice@, pattern@, p as int, r.0@, r.1@),
        row_linked(r.0@, r.1@, prev@, prev_paths),
        r.0@.len() == cand@.len(),
        r.0@[0].idx == cand@[0],
{
    proof {
        assert forall|c: int| 0 <= c < prev@.len() implies score_in_range(
            (#[trigger] prev@[c]).final_score,
        ) by {
            assert(cell_ok(choice@, pattern@, p - 1, prev@[c], prev_paths[c]));
            lemma_score_bounds(choice@, pattern@, prev_paths[c]);
        }
    }
    let mut row: Vec<MatchingStatus> = Vec::new();
    let ghost mut paths: Seq<Seq<int>> = Seq::empty();
    let mut c: usize = 0;
    while c < cand.len()
        invariant
            c <= cand@.len(),
            choice@.len() <= MAX_CHOICE_LEN,
            0 < p < pattern@.len(),
            row_ok(choice@, pattern@, p - 1, prev@, prev_paths),
            is_candidate_row(choice@, pattern@, p as int, prev@[0].idx + 1, cand@),
            forall|k: int|
                0 <= k < prev@.len() ==> score_in_range((#[trigger] prev@[k]).final_score),
            row@.len() == c,
            paths.len() == c,
            forall|d: int| 0 <= d < c ==> (#[trigger] row@[d]).idx == cand@[d],
            forall|d: int|
                0 <= d < c ==> cell_ok(choice@, pattern@, p as int, #[trigger] row@[d], paths[d]),
            forall|d: int|
                0 <= d < c ==> (#[trigger] row@[d]).back_ref < prev@.len() && paths[d]
                    == prev_paths[row@[d].back_ref as int].push(row@[d].idx as int),
        decreases cand@.len() - c,
    {
        let idx = cand[c];
        assert(prev@[0].idx + 1 <= idx < choice@.len() && chars_match(
            choice@[idx as int].ch,
            pattern@[p as int].ch,
        ));
        let score = letter_score(choice, idx, pattern, p);
        let (back_ref, best) = best_predecessor(prev, idx);
        proof {
            lemma_cell_score_bounds(choice@, pattern@, idx as int, p as int);
        }
        let cell = MatchingStatus { idx, score, final_score: best + score, back_ref };
        let ghost from = prev_paths[back_ref as int];
        let ghost path: Seq<int> = from.push(idx as int);
        proof {
            lemma_cell_extends(choice@, pattern@, p as int, prev@, prev_paths, cell, path);
        }
        let ghost old_row = row@;
        let ghost old_paths = paths;
        row.push(cell);
        proof {
            paths = paths.push(path);
            assert forall|d: int| 0 <= d < c + 1 implies cell_ok(
                choice@,
                pattern@,
                p as int,
                #[trigger] row@[d],
                paths[d],
            ) by {
                if d < c {
                    assert(row@[d] == old_row[d]);
                    assert(paths[d] == old_paths[d]);
                }
            }
            assert forall|d: int| 0 <= d < c + 1 implies (#[trigger] row@[d]).back_ref
                < prev@.len() && paths[d] == prev_paths[row@[d].back_ref as int].push(
                row@[d].idx as int,
            ) by {
                if d < c {
                    assert(row@[d] == old_row[d]);
                    assert(paths[d] == old_paths[d]);
                }
            }
        }
        c += 1;
    }
    proof {
        assert forall|b: Seq<int>|
            #[trigger] is_prefix_alignment(choice@, pattern@, b) && b.len() == p + 1 implies exists|
            d: int,
        |
            0 <= d < row@.len() && (#[trigger] row@[d]).idx == b[p as int] by {
            let before = b.drop_last();
            lemma_drop_last_is_prefix(choice@, pattern@, b);
            assert(before.len() == p);
            let q = choose|q: int| 0 <= q < prev@.len() && (#[trigger] prev@[q]).idx == before[p - 1];
            assert(before[p - 1] == b[p - 1]);
            assert(b[p - 1] < b[p as int]);
            if q > 0 {
                assert(prev@[0].idx < prev@[q].idx);
            }
            assert(chars_match(choice@[b[p as int]].ch, pattern@[p as int].ch));
            let d = choose|d: int| 0 <= d < cand@.len() && #[trigger] cand@[d] == b[p as int];
            assert(row@[d].idx == b[p as int]);
        }
        assert forall|d: int, e: int| 0 <= d < e < row@.len() implies row@[d].idx < row@[e].idx by {
            assert(cand@[d] < cand@[e]);
        }
    }
    (row, Ghost(paths))
}

/// A cell whose predecessor is the last best one holds the best alignment
/// that ends at its index.
proof fn lemma_cell_extends(
    choice: Seq<Letter>,
    pattern: Seq<Letter>,
    p: int,
    prev: Seq<MatchingStatus>,
    prev_paths: Seq<Seq<int>>,
    cell: MatchingStatus,
    path: Seq<int>,
)
    requires
        0 < p < pattern.len(),
        row_ok(choice, pattern, p - 1, prev, prev_paths),
        cell.idx < choice.len(),
        chars_match(choice[cell.idx as int].ch, pattern[p].ch),
        cell.back_ref < prev.len(),
        prev[cell.back_ref as int].idx < cell.idx,
        cell.score == cell_score(choice, pattern, cell.idx as int, p),
        path == prev_paths[cell.back_ref as int].push(cell.idx as int),
        cell.final_score == prev[cell.back_ref as int].final_score + gap_score(
            prev[cell.back_ref as int].idx as int,
            cell.idx as int,
        ) + cell_score(choice, pattern, cell.idx as int, p),
        forall|q: int|
            0 <= q < prev.len() && (#[trigger] prev[q]).idx < cell.idx ==> prev[q].final_score
                + gap_score(prev[q].idx as int, cell.idx as int) <= cell.final_score - cell_score(
                choice,
                pattern,
                cell.idx as int,
                p,
            ) && (prev[q].final_score + gap_score(prev[q].idx as int, cell.idx as int)
                == cell.final_score - cell_score(choice, pattern, cell.idx as int, p) ==> q
                <= cell.back_ref),
    ensures
        cell_ok(choice, pattern, p, cell, path),
{
    let e = cell.idx as int;
    let r = cell.back_ref as int;
    let from = prev_paths[r];
    assert(cell_ok(choice, pattern, p - 1, prev[r], from));
    lemma_push_cell(choice, pattern, from, e);
    assert(from.last() == prev[r].idx);
    assert forall|b: Seq<int>| #[trigger] ends_at(choice, pattern, b, p, e) implies dominated(
        choice,
        pattern,
        b,
        path,
    ) by {
        let before = b.drop_last();
        lemma_drop_last_is_prefix(choice, pattern, b);
        assert(before[p - 1] == b[p - 1]);
        let q = choose|q: int| 0 <= q < prev.len() && (#[trigger] prev[q]).idx == before[p - 1];
        assert(cell_ok(choice, pattern, p - 1, prev[q], prev_paths[q]));
        assert(ends_at(choice, pattern, before, p - 1, prev[q].idx as int));
        assert(b[p - 1] < b[p]);
        if q < r {
            assert(prev[q].idx < prev[r].idx);
        }
        if r < q {
            assert(prev[r].idx < prev[q].idx);
        }
        assert(path.drop_last() =~= from);
        lemma_extension_dominated(choice, pattern, b, path, prev_paths[q]);
    }
}

/// The last of the cells with the highest final score.
fn best_cell(row: &Vec<MatchingStatus>) -> (col: usize)
    requires
        row@.len() > 0,
    ensures
        col < row@.len(),
        forall|c: int|
            0 <= c < row@.len() ==> (#[trigger] row@[c]).final_score <= row@[col as int].final_score
                && (row@[c].final_score == row@[col as int].final_score ==> c <= col),
{
    let mut col: usize = 0;
    let mut c: usize = 1;
    while c < row.len()
        invariant
            1 <= c <= row@.len(),
            col < c,
            forall|d: int|
                0 <= d < c ==> (#[trigger] row@[d]).final_score <= row@[col as int].final_score
                    && (row@[d].final_score == row@[col as int].final_score ==> d <= col),
        decreases row@.len() - c,
    {
        if row[c].final_score >= row[col].final_score {
            col = c;
        }
        c += 1;
    }
    col
}

/// The finished lists of the first `n` pattern positions.
spec fn rows_ok(
    choice: Seq<Letter>,
    pattern: Seq<Letter>,
    scores: Seq<Vec<MatchingStatus>>,
    paths: Seq<Seq<Seq<int>>>,
    n: int,
) -> bool {
    &&& scores.len() == n
    &&& paths.len() == n
    &&& forall|k: int| 0 <= k < n ==> row_ok(choice, pattern, k, (#[trigger] scores[k])@, paths[k])
    &&& forall|k: int|
        1 <= k < n ==> row_linked((#[trigger] scores[k])@, paths[k], scores[k - 1]@, paths[k - 1])
}

/// Chains the lists of candidates: the cells of each list take their
/// predecessors from the finished list before it.
fn chain_rows(choice: &[Letter], pattern: &[Letter], candidates: &Vec<Vec<usize>>) -> (r: (
    Vec<Vec<MatchingStatus>>,
    Ghost<Seq<Seq<Seq<int>>>>,
))
    requires
        choice@.len() <= MAX_CHOICE_LEN,
        pattern@.len() > 0,
        candidates@.len() == pattern@.len(),
        candidates_ok(choice@, pattern@, candidates@, pattern@.len() as int),
    ensures
        rows_ok(choice@, pattern@, r.0@, r.1@, pattern@.len() as int),
{
    let n = pattern.len();
    let mut scores: Vec<Vec<MatchingStatus>> = Vec::new();
    let ghost mut paths: Seq<Seq<Seq<int>>> = Seq::empty();
    assert(candidates@[0]@.len() > 0 && is_candidate_row(
        choice@,
        pattern@,
        0,
        row_start(candidates@, 0),
        candidates@[0]@,
    ));
    let (row, Ghost(row_paths)) = first_row(choice, pattern, &candidates[0]);
    scores.push(row);
    proof {
        paths = paths.push(row_paths);
    }
    let mut p: usize = 1;
    while p < n
        invariant
            1 <= p <= n,
            n == pattern@.len(),
            choice@.len() <= MAX_CHOICE_LEN,
            candidates@.len() == n,
            candidates_ok(choice@, pattern@, candidates@, n as int),
            rows_ok(choice@, pattern@, scores@, paths, p as int),
            scores@[p - 1]@.len() > 0,
            scores@[p - 1]@[0].idx == candidates@[p - 1]@[0],
        decreases n - p,
    {
        assert(candidates@[p as int]@.len() > 0 && is_candidate_row(
            choice@,
            pattern@,
            p as int,
            row_start(candidates@, p as int),
            candidates@[p as int]@,
        ));
        assert(row_ok(choice@, pattern@, p - 1, scores@[p - 1]@, paths[p - 1]));
        let (row, Ghost(row_paths)) = next_row(
            choice,
            pattern,
            p,
            &scores[p - 1],
            &candidates[p],
            Ghost(paths[p - 1]),
        );
        let ghost old_scores = scores@;
        let ghost old_paths = paths;
        scores.push(row);
        proof {
            paths = paths.push(row_paths);
            assert forall|k: int| 0 <= k < p + 1 implies row_ok(
                choice@,
                pattern@,
                k,
                (#[trigger] scores@[k])@,
                paths[k],
            ) by {
                if k < p {
                    assert(scores@[k] == old_scores[k]);
                    assert(paths[k] == old_paths[k]);
                }
            }
            assert forall|k: int| 1 <= k < p + 1 implies row_linked(
                (#[trigger] scores@[k])@,
                paths[k],
                scores@[k - 1]@,
                paths[k - 1],
            ) by {
                assert(scores@[k - 1] == old_scores[k - 1]);
                assert(paths[k - 1] == old_paths[k - 1]);
                if k < p {
                    assert(scores@[k] == old_scores[k]);
                    assert(paths[k] == old_paths[k]);
                }
            }
        }
        p += 1;
    }
    (scores, Ghost(paths))
}

/// The alignment held by the last best cell of the last list is the best
/// alignment of the whole pattern.
proof fn lemma_best_cell_is_best_alignment(
    choice: Seq<Letter>,
    pattern: Seq<Letter>,
    last: Seq<MatchingStatus>,
    last_paths: Seq<Seq<int>>,
    col: int,
)
    requires
        pattern.len() > 0,
        row_ok(choice, pattern, pattern.len() - 1, last, last_paths),
        0 <= col < last.len(),
        forall|c: int|
            0 <= c < last.len() ==> (#[trigger] last[c]).final_score <= last[col].final_score && (
            last[c].final_score == last[col].final_score ==> c <= col),
    ensures
        is_best_alignment(choice, pattern, last_paths[col]),
        last[col].final_score == alignment_score(choice, pattern, last_paths[col]),
{
    let n = pattern.len() as int;
    let best_path = last_paths[col];
    assert(cell_ok(choice, pattern, n - 1, last[col], best_path));
    assert forall|b: Seq<int>| #[trigger] is_alignment(choice, pattern, b) implies dominated(
        choice,
        pattern,
        b,
        best_path,
    ) by {
        let c = choose|c: int| 0 <= c < last.len() && (#[trigger] last[c]).idx == b[n - 1];
        let mid = last_paths[c];
        assert(cell_ok(choice, pattern, n - 1, last[c], mid));
        assert(ends_at(choice, pattern, b, n - 1, last[c].idx as int));
        assert(dominated(choice, pattern, b, mid));
        assert(dominated(choice, pattern, mid, best_path)) by {
            if alignment_score(choice, pattern, mid) == alignment_score(choice, pattern, best_path)
                && mid != best_path {
                assert(c <= col);
                assert(c != col);
                assert(last[c].idx < last[col].idx);
                assert(mid[n - 1] < best_path[n - 1]);
                assert(later_alignment(best_path, mid));
            }
        }
        lemma_dominated_transitive(choice, pattern, b, mid, best_path);
    }
}

/// Follows the predecessors back from cell `col` of the last list and
/// returns the string indices passed, in increasing order.
fn backtrack(
    choice: &[Letter],
    pattern: &[Letter],
    scores: &Vec<Vec<MatchingStatus>>,
    col: usize,
    Ghost(paths): Ghost<Seq<Seq<Seq<int>>>>,
) -> (picked: Vec<usize>)
    requires
        pattern@.len() > 0,
        rows_ok(choice@, pattern@, scores@, paths, pattern@.len() as int),
        col < scores@[pattern@.len() - 1]@.len(),
    ensures
        positions(picked@) == paths[pattern@.len() - 1][col as int],
{
    let n = pattern.len();
    let ghost best_path = paths[n - 1][col as int];
    proof {
        assert(row_ok(choice@, pattern@, n - 1, scores@[n - 1]@, paths[n - 1]));
        assert(cell_ok(choice@, pattern@, n - 1, scores@[n - 1]@[col as int], best_path));
        assert(best_path.take(n as int) =~= best_path);
    }
    let mut picked: Vec<usize> = vec![0; n];
    let mut at: usize = col;
    let mut k: usize = n;
    while k > 0
        invariant
            k <= n,
            n == pattern@.len(),
            picked@.len() == n,
            best_path.len() == n,
            rows_ok(choice@, pattern@, scores@, paths, n as int),
            k > 0 ==> at < scores@[k - 1]@.len() && paths[k - 1][at as int] == best_path.take(
                k as int,
            ),
            forall|j: int| k <= j < n ==> picked@[j] as int == best_path[j],
        decreases k,
    {
        k -= 1;
        let cell = scores[k][at];
        proof {
            assert(row_ok(choice@, pattern@, k as int, scores@[k as int]@, paths[k as int]));
            assert(cell_ok(
                choice@,
                pattern@,
                k as int,
                scores@[k as int]@[at as int],
                paths[k as int][at as int],
            ));
            assert(best_path.take(k + 1)[k as int] == best_path[k as int]);
            if k > 0 {
                assert(row_linked(
                    scores@[k as int]@,
                    paths[k as int],
                    scores@[k - 1]@,
                    paths[k - 1],
                ));
                let from = paths[k - 1][cell.back_ref as int];
                assert(from.push(cell.idx as int) == best_path.take(k + 1));
                assert(from =~= from.push(cell.idx as int).drop_last());
                assert(best_path.take(k + 1).drop_last() =~= best_path.take(k as int));
            }
        }
        picked.set(k, cell.idx);
        at = cell.back_ref;
    }
    proof {
        assert(positions(picked@) =~= best_path);
    }
    picked
}

/// Matches `pattern` against `choice` as a subsequence, up to ASCII case,
/// for letters whose case is known.
///
/// Returns nothing when `pattern` does not occur in `choice`. Otherwise it
/// returns the best alignment with its score: no alignment scores higher,
/// and among those that score the same it is the one furthest right. The
/// empty pattern matches with score 0 and no indices.
pub fn match_letters(choice: &[Letter], pattern: &[Letter]) -> (result: Option<(i64, Vec<usize>)>)
    requires
        choice@.len() <= MAX_CHOICE_LEN,
    ensures
        result is None <==> !is_subsequence(choice@, pattern@),
        result matches Some((score, picked)) ==> is_best_alignment(
            choice@,
            pattern@,
            positions(picked@),
        ) && score == alignment_score(choice@, pattern@, positions(picked@)),
{
    let n = pattern.len();
    if n == 0 {
        let picked: Vec<usize> = Vec::new();
        proof {
            let a = positions(picked@);
            assert(a =~= Seq::<int>::empty());
            assert(is_alignment(choice@, pattern@, a));
            assert forall|b: Seq<int>| #[trigger]
                is_alignment(choice@, pattern@, b) implies dominated(choice@, pattern@, b, a) by {
                assert(b =~= a);
            }
        }
        return Some((0, picked));
    }
    let candidates = match find_candidates(choice, pattern) {
        None => {
            return None;
        },
        Some(rows) => rows,
    };
    let (scores, Ghost(paths)) = chain_rows(choice, pattern, &candidates);
    assert(row_ok(choice@, pattern@, n - 1, scores@[n - 1]@, paths[n - 1]));
    let last = &scores[n - 1];
    let col = best_cell(last);
    let final_score = last[col].final_score;
    proof {
        lemma_best_cell_is_best_alignment(choice@, pattern@, last@, paths[n - 1], col as int);
    }
    let picked = backtrack(choice, pattern, &scores, col, Ghost(paths));
    Some((final_score, picked))
}

/// The letter that stands at index `i` of `s`.
fn letter_at(s: &[char], i: usize) -> (l: Letter)
    requires
        i < s@.len(),
    ensures
        l == letter_of(s@[i as int]),
{
    let ch = s[i];
    Letter { ch, upper: ch.is_uppercase() }
}

/// Looks up the case of every character of `s`.
pub fn to_letters(s: &[char]) -> (r: Vec<Letter>)
    ensures
        r@ == letters(s@),
{
    let mut r: Vec<Letter> = Vec::new();
    let mut i: usize = 0;
    while i < s.len()
        invariant
            i <= s@.len(),
            r@.len() == i,
            forall|k: int| 0 <= k < i ==> #[trigger] r@[k] == letters(s@)[k],
        decreases s@.len() - i,
    {
        r.push(letter_at(s, i));
        i += 1;
    }
    assert(r@ =~= letters(s@));
    r
}

/// Matches `pattern` against `choice` as a subsequence, up to ASCII case.
///
/// Returns nothing when `pattern` does not occur in `choice`. Otherwise it
/// returns the best alignment with its score: no alignment scores higher,
/// and among those that score the same it is the one furthest right. The
/// empty pattern matches with score 0 and no indices.
pub fn fuzzy_match(choice: &[char], pattern: &[char]) -> (result: Option<(i64, Vec<usize>)>)
    requires
        choice@.len() <= MAX_CHOICE_LEN,
    ensures
        result is None <==> !is_subsequence(letters(choice@), letters(pattern@)),
        result matches Some((score, picked)) ==> is_best_alignment(
            letters(choice@),
            letters(pattern@),
            positions(picked@),
        ) && score == alignment_score(letters(choice@), letters(pattern@), positions(picked@)),
{
    let choice_letters = to_letters(choice);
    let pattern_letters = to_letters(pattern);
    match_letters(choice_letters.as_slice(), pattern_letters.as_slice())
}

} // verus!
