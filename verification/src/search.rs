//! The ranking pipeline: score every place, keep those above the threshold,
//! and return them in the order of their scores.

use vstd::prelude::*;
use vstd::string::{StringExecFns, StringSliceAdditionalSpecFns};
use crate::edit_distance::{damerau_levenshtein_distance, edit_distance};
use crate::score::{score_from_distance, score_of, Score};
use crate::store::{City, CityData, PlaceRecord};

verus! {

/// One suggestion: the place's label, where it lies, and its score.
#[derive(Debug)]
pub struct FuzzyResult {
    pub city: String,
    pub latitude: u32,
    pub longitude: u32,
    pub score: Score,
}

/// A suggestion, as the contracts speak of it.
pub struct RankedResult {
    pub city: Seq<char>,
    pub latitude: u32,
    pub longitude: u32,
    pub score: Score,
}

impl View for FuzzyResult {
    type V = RankedResult;

    open spec fn view(&self) -> RankedResult {
        RankedResult {
            city: self.city@,
            latitude: self.latitude,
            longitude: self.longitude,
            score: self.score,
        }
    }
}

/// What separates the parts of a label.
pub open spec fn label_separator() -> Seq<char> {
    seq![',', ' ']
}

/// The label of a place: its name, its region and its country.
pub open spec fn display_label(record: PlaceRecord) -> Seq<char> {
    record.name + label_separator() + record.region + label_separator() + record.country
}

/// The suggestion made of a place and its score.
pub open spec fn result_of(record: PlaceRecord, score: Score) -> RankedResult {
    RankedResult {
        city: display_label(record),
        latitude: record.latitude,
        longitude: record.longitude,
        score,
    }
}

impl FuzzyResult {
    /// Makes a suggestion of a place and its score.
    pub fn new(city_data: City, score: Score) -> (r: FuzzyResult)
        ensures
            r@ == result_of(city_data.record(), score),
    {
        let City { name, country, region, latitude, longitude } = city_data;
        let mut city = String::from_str(name);
        city.append(", ");
        city.append(region);
        city.append(", ");
        city.append(country);
        proof {
            reveal_strlit(", ");
            assert(", "@ =~= label_separator());
        }
        FuzzyResult { city, latitude, longitude, score }
    }
}

/// The distance of place `i`, where distances are given.
pub open spec fn distance_at(distances: Option<Seq<u32>>, i: int) -> Option<u32> {
    match distances {
        Some(d) => Some(d[i]),
        None => None,
    }
}

/// The length of a query in bytes of UTF-8.
pub open spec fn byte_len(term: Seq<char>) -> nat {
    vstd::utf8::encode_utf8(term).len()
}

/// The score of one place for the query `term`.
pub open spec fn candidate_score(name: Seq<char>, term: Seq<char>, distance: Option<u32>) -> Score {
    score_of(damerau_levenshtein_distance(name, term), byte_len(term), distance)
}

/// The score of every place of the store for the query `term`.
pub open spec fn candidate_scores(
    store: Seq<PlaceRecord>,
    term: Seq<char>,
    distances: Option<Seq<u32>>,
) -> Seq<Score> {
    Seq::new(
        store.len(),
        |i: int| candidate_score(store[i].name, term, distance_at(distances, i)),
    )
}

/// Entry `x` comes before entry `y`: its score is higher, or the scores are
/// level and it stands earlier in the store.
pub open spec fn ranks_before(x: (usize, Score), y: (usize, Score)) -> bool {
    x.1.higher_than(y.1) || (x.1.level_with(y.1) && x.0 < y.0)
}

/// `found` ranks the first `n` of `scores`: it holds those above the
/// threshold, each with its index, in rank order.
pub open spec fn ranks_first(scores: Seq<Score>, n: int, found: Seq<(usize, Score)>) -> bool {
    &&& forall|k: int|
        0 <= k < found.len() ==> (#[trigger] found[k]).0 < n && found[k].1
            == scores[found[k].0 as int] && found[k].1.exceeds_threshold()
    &&& forall|i: int|
        0 <= i < n && (#[trigger] scores[i]).exceeds_threshold() ==> exists|k: int|
            0 <= k < found.len() && (#[trigger] found[k]).0 == i
    &&& forall|k: int, l: int|
        0 <= k < l < found.len() ==> ranks_before(#[trigger] found[k], #[trigger] found[l])
}

/// `found` is the ranking of `scores`.
pub open spec fn is_ranking(scores: Seq<Score>, found: Seq<(usize, Score)>) -> bool {
    ranks_first(scores, scores.len() as int, found)
}

/// The scores of one search: all well formed, and those that are not 0 rate
/// the same query, all with a location or all without.
pub open spec fn of_one_search(scores: Seq<Score>) -> bool {
    &&& forall|i: int| 0 <= i < scores.len() ==> (#[trigger] scores[i]).wf()
    &&& forall|i: int, j: int|
        0 <= i < scores.len() && 0 <= j < scores.len() && (#[trigger] scores[i]).similarity.num > 0
            && (#[trigger] scores[j]).similarity.num > 0 ==> scores[i].comparable(scores[j])
}

/// The suggestions that a ranking stands for.
pub open spec fn results_for(store: Seq<PlaceRecord>, found: Seq<(usize, Score)>) -> Seq<
    RankedResult,
> {
    Seq::new(found.len(), |k: int| result_of(store[found[k].0 as int], found[k].1))
}

/// The suggestions of a list of results.
pub open spec fn results_view(results: Seq<FuzzyResult>) -> Seq<RankedResult> {
    Seq::new(results.len(), |k: int| results[k]@)
}

/// `out` is what a search returns for a store whose places have `scores`.
pub open spec fn is_search_output(
    store: Seq<PlaceRecord>,
    scores: Seq<Score>,
    out: Seq<RankedResult>,
) -> bool {
    exists|found: Seq<(usize, Score)>| #[trigger]
        is_ranking(scores, found) && out == results_for(store, found)
}

/// The distances of a search as a sequence.
pub open spec fn distances_view(distances: Option<&Vec<u32>>) -> Option<Seq<u32>> {
    match distances {
        Some(d) => Some(d@),
        None => None,
    }
}

/// A store with given scores has one ranking only.
pub proof fn lemma_ranking_unique(
    scores: Seq<Score>,
    first: Seq<(usize, Score)>,
    second: Seq<(usize, Score)>,
)
    requires
        is_ranking(scores, first),
        is_ranking(scores, second),
    ensures
        first == second,
{
    lemma_ranking_prefix(scores, first, second, first.len() as int);
    lemma_ranking_prefix(scores, second, first, second.len() as int);
    if first.len() > 0 {
        assert(second[first.len() - 1] == first[first.len() - 1]);
    }
    if second.len() > 0 {
        assert(first[second.len() - 1] == second[second.len() - 1]);
    }
    assert(first =~= second);
}

/// Two rankings of the same scores agree on their first `n` entries.
proof fn lemma_ranking_prefix(
    scores: Seq<Score>,
    first: Seq<(usize, Score)>,
    second: Seq<(usize, Score)>,
    n: int,
)
    requires
        is_ranking(scores, first),
        is_ranking(scores, second),
        0 <= n <= first.len(),
    ensures
        n <= second.len(),
        forall|k: int| 0 <= k < n ==> #[trigger] first[k] == second[k],
    decreases n,
{
    if n > 0 {
        lemma_ranking_prefix(scores, first, second, n - 1);
        let k = n - 1;
        let entry = first[k];
        assert(scores[entry.0 as int].exceeds_threshold());
        let m = choose|m: int| 0 <= m < second.len() && (#[trigger] second[m]).0 == entry.0;
        assert(second[m] == entry);
        if m < k {
            assert(first[m] == second[m]);
            assert(ranks_before(first[m], first[k]));
        } else if m > k {
            let other = second[k];
            assert(scores[other.0 as int].exceeds_threshold());
            let back = choose|j: int| 0 <= j < first.len() && (#[trigger] first[j]).0 == other.0;
            assert(first[back] == other);
            assert(ranks_before(second[k], second[m]));
            if back < k {
                assert(first[back] == second[back]);
                assert(ranks_before(second[back], second[k]));
            } else if back > k {
                assert(ranks_before(first[k], first[back]));
            }
        }
    }
}

/// A search has one outcome only: the same store, query and distances give
/// the same suggestions in the same order.
pub proof fn lemma_search_output_unique(
    store: Seq<PlaceRecord>,
    scores: Seq<Score>,
    first: Seq<RankedResult>,
    second: Seq<RankedResult>,
)
    requires
        is_search_output(store, scores, first),
        is_search_output(store, scores, second),
    ensures
        first == second,
{
    let f = choose|found: Seq<(usize, Score)>| #[trigger]
        is_ranking(scores, found) && first == results_for(store, found);
    let g = choose|found: Seq<(usize, Score)>| #[trigger]
        is_ranking(scores, found) && second == results_for(store, found);
    lemma_ranking_unique(scores, f, g);
}

/// The suggestions of a search come in descending order of score, and each
/// scores more than the threshold.
pub proof fn lemma_search_output_sorted(
    store: Seq<PlaceRecord>,
    scores: Seq<Score>,
    out: Seq<RankedResult>,
)
    requires
        is_search_output(store, scores, out),
    ensures
        forall|k: int| 0 <= k < out.len() ==> (#[trigger] out[k]).score.exceeds_threshold(),
        forall|k: int, l: int|
            0 <= k < l < out.len() ==> !(#[trigger] out[l]).score.higher_than(
                (#[trigger] out[k]).score,
            ),
{
    let found = choose|found: Seq<(usize, Score)>| #[trigger]
        is_ranking(scores, found) && out == results_for(store, found);
    assert forall|k: int| 0 <= k < out.len() implies (#[trigger] out[k]).score.exceeds_threshold() by {
        assert(found[k].1.exceeds_threshold());
    }
    assert forall|k: int, l: int| 0 <= k < l < out.len() implies !(#[trigger] out[l]).score.higher_than(
        (#[trigger] out[k]).score,
    ) by {
        assert(ranks_before(found[k], found[l]));
    }
}

/// Decides whether the scores can be those of one search.
pub fn same_search(scores: &Vec<Score>) -> (b: bool)
    ensures
        b == of_one_search(scores@),
{
    let mut first: Option<Score> = None;
    let mut i: usize = 0;
    while i < scores.len()
        invariant
            i <= scores@.len(),
            forall|k: int| 0 <= k < i ==> (#[trigger] scores@[k]).wf(),
            first is None ==> forall|k: int|
                0 <= k < i ==> (#[trigger] scores@[k]).similarity.num == 0,
            first matches Some(f) ==> f.similarity.num > 0 && forall|k: int|
                0 <= k < i && (#[trigger] scores@[k]).similarity.num > 0 ==> f.comparable(scores@[k]),
            first matches Some(f) ==> exists|k: int| 0 <= k < i && #[trigger] scores@[k] == f,
        decreases scores@.len() - i,
    {
        let s = scores[i];
        if !s.is_wf() {
            return false;
        }
        if s.similarity.num > 0 {
            match first {
                None => {
                    first = Some(s);
                },
                Some(f) => {
                    if !f.is_comparable(&s) {
                        proof {
                            let k = choose|k: int| 0 <= k < i && #[trigger] scores@[k] == f;
                            assert(!scores@[k].comparable(scores@[i as int]));
                        }
                        return false;
                    }
                },
            }
        }
        i += 1;
    }
    true
}

/// Ranks the scores of one search: keeps those above the threshold, each
/// with its index, the higher score first and the lower index first among
/// level scores.
pub fn rank(scores: &Vec<Score>) -> (found: Vec<(usize, Score)>)
    requires
        of_one_search(scores@),
    ensures
        is_ranking(scores@, found@),
{
    let mut found: Vec<(usize, Score)> = Vec::new();
    let mut i: usize = 0;
    while i < scores.len()
        invariant
            i <= scores@.len(),
            of_one_search(scores@),
            ranks_first(scores@, i as int, found@),
        decreases scores@.len() - i,
    {
        let s = scores[i];
        if s.passes() {
            proof {
                s.lemma_composite_sign();
            }
            let mut pos: usize = found.len();
            loop
                invariant
                    pos <= found@.len(),
                    i < scores@.len(),
                    s == scores@[i as int],
                    s.wf(),
                    s.similarity.num > 0,
                    of_one_search(scores@),
                    ranks_first(scores@, i as int, found@),
                    forall|k: int| pos <= k < found@.len() ==> s.higher_than((#[trigger] found@[k]).1),
                ensures
                    pos == 0 || !s.higher_than(found@[pos - 1].1),
                decreases pos,
            {
                if pos == 0 {
                    break ;
                }
                let before = found[pos - 1].1;
                proof {
                    let entry = found@[pos - 1];
                    assert(entry.1 == scores@[entry.0 as int]);
                    entry.1.lemma_composite_sign();
                }
                if !s.outranks(&before) {
                    break ;
                }
                pos -= 1;
            }
            let ghost old_found = found@;
            found.insert(pos, (i, s));
            proof {
                lemma_insert_keeps_ranking(scores@, i, old_found, pos as int);
            }
        } else {
            proof {
                assert(ranks_first(scores@, i + 1, found@));
            }
        }
        i += 1;
    }
    found
}

/// Inserting a new entry behind the entries that are not below it, and in
/// front of those that are, keeps a ranking in order.
proof fn lemma_insert_keeps_ranking(
    scores: Seq<Score>,
    i: usize,
    found: Seq<(usize, Score)>,
    pos: int,
)
    requires
        i < scores.len(),
        of_one_search(scores),
        scores[i as int].exceeds_threshold(),
        ranks_first(scores, i as int, found),
        0 <= pos <= found.len(),
        forall|k: int|
            pos <= k < found.len() ==> scores[i as int].higher_than((#[trigger] found[k]).1),
        pos == 0 || !scores[i as int].higher_than(found[pos - 1].1),
    ensures
        ranks_first(scores, i + 1, found.insert(pos, (i, scores[i as int]))),
{
    let s = scores[i as int];
    let entry = (i, s);
    let after = found.insert(pos, entry);
    assert forall|k: int| 0 <= k < after.len() implies (#[trigger] after[k]).0 < i + 1 && after[k].1
        == scores[after[k].0 as int] && after[k].1.exceeds_threshold() by {
        if k < pos {
            assert(after[k] == found[k]);
        } else if k > pos {
            assert(after[k] == found[k - 1]);
        }
    }
    assert forall|j: int| 0 <= j < i + 1 && (#[trigger] scores[j]).exceeds_threshold() implies exists|
        k: int,
    |
        0 <= k < after.len() && (#[trigger] after[k]).0 == j by {
        if j == i {
            assert(after[pos].0 == j);
        } else {
            let k = choose|k: int| 0 <= k < found.len() && (#[trigger] found[k]).0 == j;
            if k < pos {
                assert(after[k] == found[k]);
            } else {
                assert(after[k + 1] == found[k]);
            }
        }
    }
    assert forall|k: int| 0 <= k < pos implies ranks_before(#[trigger] found[k], entry) by {
        let last = found[pos - 1];
        assert(last.1 == scores[last.0 as int]);
        assert(found[k].1 == scores[found[k].0 as int]);
        s.lemma_composite_sign();
        last.1.lemma_composite_sign();
        found[k].1.lemma_composite_sign();
        if k < pos - 1 {
            assert(ranks_before(found[k], last));
            found[k].1.lemma_order_transitive(last.1, s);
        }
    }
    assert forall|k: int, l: int| 0 <= k < l < after.len() implies ranks_before(
        #[trigger] after[k],
        #[trigger] after[l],
    ) by {
        if l < pos {
            assert(after[k] == found[k] && after[l] == found[l]);
        } else if l == pos {
            assert(after[k] == found[k]);
        } else if k < pos {
            assert(after[k] == found[k] && after[l] == found[l - 1]);
        } else if k == pos {
            assert(after[l] == found[l - 1]);
        } else {
            assert(after[k] == found[k - 1] && after[l] == found[l - 1]);
        }
    }
}

impl CityData {
    /// Scores the place at index `idx` against `term`: the share of the
    /// query that its name matches, blended with its proximity where its
    /// distance in metres is given.
    pub fn total_score(&self, term: &str, idx: usize, distance: Option<u32>) -> (s: Score)
        requires
            idx < self@.len(),
        ensures
            s == candidate_score(self@[idx as int].name, term@, distance),
            s.wf(),
    {
        let city = self.get_city(idx);
        let str_dist = edit_distance(city.name, term);
        let term_len = term.as_bytes().len();
        assert(term_len == byte_len(term@)) by {
            assert(term.spec_bytes() == vstd::utf8::encode_utf8(term@));
        }
        score_from_distance(str_dist, term_len, distance)
    }

    /// Scores every place of the store against `term`.
    pub fn score_all(&self, term: &str, distances: Option<&Vec<u32>>) -> (scores: Vec<Score>)
        requires
            distances matches Some(d) ==> d@.len() == self@.len(),
        ensures
            scores@ == candidate_scores(self@, term@, distances_view(distances)),
            of_one_search(scores@),
    {
        let n = self.len();
        let mut scores: Vec<Score> = Vec::new();
        let ghost expected = candidate_scores(self@, term@, distances_view(distances));
        let mut i: usize = 0;
        while i < n
            invariant
                i <= n,
                n == self@.len(),
                    distances matches Some(d) ==> d@.len() == self@.len(),
                expected == candidate_scores(self@, term@, distances_view(distances)),
                scores@.len() == i,
                forall|k: int| 0 <= k < i ==> #[trigger] scores@[k] == expected[k],
                forall|k: int| 0 <= k < i ==> (#[trigger] scores@[k]).wf(),
            decreases n - i,
        {
            let distance = match distances {
                Some(d) => Some(d[i]),
                None => None,
            };
            let s = self.total_score(term, i, distance);
            scores.push(s);
            i += 1;
        }
        proof {
            assert(scores@ =~= expected);
        }
        scores
    }

    /// Ranks the places of the store by the scores given for them, one for
    /// each place in the order of the store.
    ///
    /// Returns the places that score more than the threshold, the higher
    /// score first, and among level scores the place that stands first in
    /// the store.
    pub fn ranked_results(&self, scores: &Vec<Score>) -> (results: Vec<FuzzyResult>)
        requires
            scores@.len() == self@.len(),
            of_one_search(scores@),
        ensures
            is_search_output(self@, scores@, results_view(results@)),
            forall|k: int|
                0 <= k < results@.len() ==> (#[trigger] results@[k]).score.exceeds_threshold(),
            forall|k: int, l: int|
                0 <= k < l < results@.len() ==> !(#[trigger] results@[l]).score.higher_than(
                    (#[trigger] results@[k]).score,
                ),
    {
        let found = rank(scores);
        let mut results: Vec<FuzzyResult> = Vec::new();
        let mut k: usize = 0;
        while k < found.len()
            invariant
                k <= found@.len(),
                scores@.len() == self@.len(),
                is_ranking(scores@, found@),
                results@.len() == k,
                forall|j: int|
                    0 <= j < k ==> (#[trigger] results@[j])@ == result_of(
                        self@[found@[j].0 as int],
                        found@[j].1,
                    ),
            decreases found@.len() - k,
        {
            let (i, score) = found[k];
            assert(found@[k as int].0 < scores@.len());
            let city = self.get_city(i);
            let result = FuzzyResult::new(city, score);
            results.push(result);
            k += 1;
        }
        proof {
            let out = results_view(results@);
            assert(out =~= results_for(self@, found@));
            lemma_search_output_sorted(self@, scores@, out);
            assert forall|j: int| 0 <= j < results@.len() implies (
            #[trigger] results@[j]).score.exceeds_threshold() by {
                assert(out[j].score == results@[j].score);
            }
            assert forall|j: int, l: int| 0 <= j < l < results@.len() implies !(
            #[trigger] results@[l]).score.higher_than((#[trigger] results@[j]).score) by {
                assert(out[j].score == results@[j].score);
                assert(out[l].score == results@[l].score);
            }
        }
        results
    }

    /// Searches the store for `term`. Where the search is for places near a
    /// location, `distances` holds the distance in metres of every place
    /// from it, in the order of the store.
    ///
    /// Returns the places that score more than the threshold, the higher
    /// score first, and among level scores the place that stands first in
    /// the store.
    pub fn search(&self, term: &str, distances: Option<&Vec<u32>>) -> (results: Vec<FuzzyResult>)
        requires
            distances matches Some(d) ==> d@.len() == self@.len(),
        ensures
            is_search_output(
                self@,
                candidate_scores(self@, term@, distances_view(distances)),
                results_view(results@),
            ),
            forall|k: int|
                0 <= k < results@.len() ==> (#[trigger] results@[k]).score.exceeds_threshold(),
            forall|k: int, l: int|
                0 <= k < l < results@.len() ==> !(#[trigger] results@[l]).score.higher_than(
                    (#[trigger] results@[k]).score,
                ),
    {
        let scores = self.score_all(term, distances);
        self.ranked_results(&scores)
    }
}

} // verus!
