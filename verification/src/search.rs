//! Finding the rows that a query is about.

use vstd::array::array_as_slice;
use vstd::prelude::*;
use vstd::slice::slice_subrange;

use crate::index::{find, includes, law_members_are_the_tagged_rows, members_of, names};
use crate::numerics::{
    cosine, dot, functional, is_cosine, is_dot, is_norm, is_to_four_places,
    law_cosine_is_determined, law_dot_is_determined, law_norm_is_determined, multiplied, norm,
    to_four_places, Numerics,
};
use crate::parallel::{
    law_present, law_present_keeps_the_order, outcomes_of, present, scan, scan_some,
};
use crate::ranking::{
    first_best, is_first_best, is_top, law_fewer_are_the_first_of_more,
    law_first_best_is_determined, law_strictly_best_comes_first, law_top_are_the_best_rows,
    law_top_descends,
    law_top_invents_nothing, law_top_is_determined, law_top_is_full,
    law_top_leaves_out_nothing_better, law_top_of_few_is_all, law_top_repeats_nothing, top,
};
use crate::scalar::{exceeds, greater, is_nan, rank, Single, HALF, MINUS_ONE};
use crate::text::{first, first_strings, prefix, strings};
use crate::vectors::{
    law_row_carries_what_its_list_holds, said, ConceptInfo, SearchHit, Stats, VectorStore, DIM,
};

verus! {

/// The most concepts that a hit shows.
pub const SHOWN_CONCEPTS: usize = 4;

/// The most characters of a description that a hit shows.
pub const SHOWN_DESCRIPTION: usize = 200;

/// A place, as an integer.
pub open spec fn at(place: Option<usize>) -> Option<int> {
    match place {
        Some(e) => Some(e as int),
        None => None,
    }
}

/// The name of the concept that was found.
pub open spec fn found_name(found: Option<(String, Single)>) -> Option<Seq<char>> {
    match found {
        Some((name, _)) => Some(name@),
        None => None,
    }
}

/// What an optional text says.
pub open spec fn worded(s: Option<&str>) -> Option<Seq<char>> {
    match s {
        Some(s) => Some(s@),
        None => None,
    }
}

impl VectorStore {
    /// `sim` is the similarity of row `i` to `query`, which has the length `length`.
    pub open spec fn is_similarity<K: Numerics>(
        &self,
        k: &K,
        query: Seq<Single>,
        length: Single,
        i: int,
        sim: Single,
    ) -> bool {
        is_cosine(k, query, length, self.row(i), self.norms@[i], sim)
    }

    /// `scored` is row `i` with its similarity to `query`.
    pub open spec fn is_scored<K: Numerics>(
        &self,
        k: &K,
        query: Seq<Single>,
        length: Single,
        i: usize,
        scored: (usize, Single),
    ) -> bool {
        scored.0 == i && self.is_similarity(k, query, length, i as int, scored.1)
    }

    /// `sims` are the similarities of the rows to `query`.
    pub open spec fn are_similarities<K: Numerics>(
        &self,
        k: &K,
        query: Seq<Single>,
        sims: Seq<Single>,
    ) -> bool {
        &&& sims.len() == self.len
        &&& exists|length: Single| #[trigger]
            is_norm(k, query, length) && forall|i: int|
                0 <= i < self.len ==> self.is_similarity(k, query, length, i, #[trigger] sims[i])
    }

    /// `sims` are the dot products of `query` with the centroids of the concepts.
    pub open spec fn are_concept_scores<K: Numerics>(
        &self,
        k: &K,
        query: Seq<Single>,
        sims: Seq<Single>,
    ) -> bool {
        &&& sims.len() == self.concept_index@.len()
        &&& forall|e: int|
            0 <= e < sims.len() ==> is_dot(
                k,
                query,
                self.concept_centroids@[e]@,
                #[trigger] sims[e],
            )
    }

    /// `concept` is the concept whose centroid is nearest to `query`, the first such where there
    /// are several, and `sim` its score; no concept, and -1, where no score is a number.
    pub open spec fn is_nearest<K: Numerics>(
        &self,
        k: &K,
        query: Seq<Single>,
        concept: Option<int>,
        sim: Single,
    ) -> bool {
        exists|sims: Seq<Single>| #[trigger]
            self.are_concept_scores(k, query, sims) && is_first_best(sims, None, concept)
                && sim == match concept {
                Some(e) => sims[e],
                None => MINUS_ONE,
            }
    }

    /// The name of a concept.
    pub open spec fn concept_name(&self, concept: Option<int>) -> Option<Seq<char>> {
        match concept {
            Some(e) => Some(self.concept_index@[e].name@),
            None => None,
        }
    }

    /// `name` is the name of the concept nearest to `query`, and `sim` its score.
    pub open spec fn is_class<K: Numerics>(
        &self,
        k: &K,
        query: Seq<Single>,
        name: Option<Seq<char>>,
        sim: Single,
    ) -> bool {
        exists|concept: Option<int>| #[trigger]
            self.is_nearest(k, query, concept, sim) && name == self.concept_name(concept)
    }

    /// Whether row `i` carries the concept of that name, if there is one.
    pub open spec fn is_in(&self, i: int, name: Option<Seq<char>>) -> bool {
        match name {
            Some(name) => self.carries(i, name),
            None => false,
        }
    }

    /// `rows` are all rows with their similarities, those of the rows in the concept multiplied by
    /// `boost`.
    pub open spec fn are_boosted<K: Numerics>(
        &self,
        k: &K,
        sims: Seq<Single>,
        name: Option<Seq<char>>,
        boost: Single,
        rows: Seq<(usize, Single)>,
    ) -> bool {
        &&& rows.len() == self.len
        &&& forall|i: int|
            0 <= i < self.len ==> {
                &&& (#[trigger] rows[i]).0 == i
                &&& if self.is_in(i, name) {
                    multiplied(k, sims[i], boost, rows[i].1)
                } else {
                    rows[i].1 == sims[i]
                }
            }
    }

    /// `score` is the score of row `i`: its similarity to `query`, multiplied by `boost` where the
    /// row is in the concept.
    pub open spec fn is_score<K: Numerics>(
        &self,
        k: &K,
        query: Seq<Single>,
        name: Option<Seq<char>>,
        boost: Single,
        i: int,
        score: Single,
    ) -> bool {
        exists|sims: Seq<Single>| #[trigger]
            self.are_similarities(k, query, sims) && if self.is_in(i, name) {
                multiplied(k, sims[i], boost, score)
            } else {
                score == sims[i]
            }
    }

    proof fn lemma_members(&self, e: int)
        requires
            self.wf(),
            0 <= e < self.concept_index@.len(),
        ensures
            crate::index::ascending(self.concept_index@[e].members@),
            forall|i: usize| #[trigger]
                self.concept_index@[e].members@.contains(i) <==> i < self.len && self.carries(
                    i as int,
                    self.concept_index@[e].name@,
                ),
    {
        law_members_are_the_tagged_rows(self.tags(), self.concept_index@[e].name@);
    }

    /// Row `i`.
    pub fn vector(&self, i: usize) -> (r: &[Single])
        requires
            self.wf(),
            i < self.len,
        ensures
            r@ == self.row(i as int),
            r@.len() == DIM,
    {
        assert(self.data.len() == self.len * DIM);
        assert((i + 1) * DIM <= self.len * DIM) by (nonlinear_arith)
            requires
                i < self.len,
        ;
        slice_subrange(self.data.as_slice(), i * DIM, (i + 1) * DIM)
    }

    /// The dot product of `query` and row `row`.
    pub fn dot<K: Numerics>(&self, k: &K, query: &[Single; DIM], row: usize) -> (r: Single)
        requires
            self.wf(),
            row < self.len,
        ensures
            is_dot(k, query@, self.row(row as int), r),
    {
        dot(k, array_as_slice(query), self.vector(row))
    }

    /// The similarity of row `row` to `query`, which has the length `query_norm`.
    pub fn cosine<K: Numerics>(
        &self,
        k: &K,
        query: &[Single; DIM],
        query_norm: Single,
        row: usize,
    ) -> (r: Single)
        requires
            self.wf(),
            row < self.len,
        ensures
            self.is_similarity(k, query@, query_norm, row as int, r),
    {
        cosine(k, array_as_slice(query), query_norm, self.vector(row), self.norms[row])
    }

    /// The place in the index of the concept nearest to `query`, and its score.
    fn nearest<K: Numerics>(&self, k: &K, query: &[Single; DIM]) -> (r: (Option<usize>, Single))
        requires
            self.wf(),
        ensures
            r.0 matches Some(e) ==> e < self.concept_index@.len(),
            self.is_nearest(k, query@, at(r.0), r.1),
    {
        let mut sims: Vec<Single> = Vec::new();
        let mut e: usize = 0;
        while e < self.concept_centroids.len()
            invariant
                self.wf(),
                e <= self.concept_centroids@.len(),
                sims@.len() == e,
                forall|d: int|
                    0 <= d < e ==> is_dot(
                        k,
                        query@,
                        self.concept_centroids@[d]@,
                        #[trigger] sims@[d],
                    ),
            decreases self.concept_centroids@.len() - e,
        {
            sims.push(dot(k, array_as_slice(query), self.concept_centroids[e].as_slice()));
            e = e + 1;
        }
        proof {
            assert(self.are_concept_scores(k, query@, sims@));
        }
        match first_best(&sims, None) {
            Some(e) => (Some(e), sims[e]),
            None => (None, MINUS_ONE),
        }
    }

    /// The concept whose centroid is nearest to `query`, and its score.
    pub fn classify_concept<K: Numerics>(&self, k: &K, query: &[Single; DIM]) -> (r: (
        Option<String>,
        Single,
    ))
        requires
            self.wf(),
        ensures
            self.is_class(k, query@, said(r.0), r.1),
    {
        let (concept, sim) = self.nearest(k, query);
        let name = match concept {
            Some(e) => Some(self.concept_index[e].name.clone()),
            None => None,
        };
        proof {
            assert(self.is_nearest(k, query@, at(concept), sim));
            assert(said(name) == self.concept_name(at(concept)));
        }
        (name, sim)
    }

    /// The `top_k` rows most similar to `query`, with the similarity of the rows in the nearest
    /// concept multiplied by `concept_boost`; and that concept with its score.
    pub fn search<K: Numerics>(
        &self,
        k: &K,
        query: &[Single; DIM],
        top_k: usize,
        concept_boost: Single,
    ) -> (r: (Vec<(usize, Single)>, Option<(String, Single)>))
        requires
            self.wf(),
        ensures
            self.is_answer(k, query@, top_k as nat, concept_boost, r.0@, r.1),
    {
        let length = norm(k, array_as_slice(query));
        let (concept, sim) = self.nearest(k, query);
        let score_row = |i: usize| -> (o: (usize, u32))
            requires
                self.wf(),
                i < self.len,
            ensures
                self.is_scored(k, query@, length, i, o),
            { (i, self.cosine(k, query, length, i)) };
        let scanned = scan(self.len, score_row);
        let ghost sims = Seq::new(scanned@.len(), |i: int| scanned@[i].1);
        let ghost name = self.concept_name(at(concept));
        proof {
            assert forall|i: int| 0 <= i < self.len implies scanned@[i].0 == i
                && self.is_similarity(k, query@, length, i, #[trigger] sims[i]) by {
                assert(scanned@[(i as usize) - 0] == scanned@[i]);
            }
            assert(self.are_similarities(k, query@, sims));
        }
        let mut rows: Vec<(usize, Single)> = Vec::new();
        let mut i: usize = 0;
        while i < self.len
            invariant
                self.wf(),
                i <= self.len,
                scanned@.len() == self.len,
                sims == Seq::new(scanned@.len(), |i: int| scanned@[i].1),
                concept matches Some(e) ==> e < self.concept_index@.len(),
                name == self.concept_name(at(concept)),
                rows@.len() == i,
                forall|j: int|
                    0 <= j < i ==> {
                        &&& (#[trigger] rows@[j]).0 == j
                        &&& if self.is_in(j, name) {
                            multiplied(k, sims[j], concept_boost, rows@[j].1)
                        } else {
                            rows@[j].1 == sims[j]
                        }
                    },
            decreases self.len - i,
        {
            let mut score: Single = scanned[i].1;
            if let Some(e) = concept {
                proof {
                    self.lemma_members(e as int);
                }
                if includes(&self.concept_index[e].members, i) {
                    score = k.mul(score, concept_boost);
                    proof {
                        assert(multiplied(k, sims[i as int], concept_boost, score));
                    }
                }
            }
            rows.push((i, score));
            i = i + 1;
        }
        proof {
            assert(self.are_boosted(k, sims, name, concept_boost, rows@));
        }
        let best = top(&rows, top_k);
        let found = match concept {
            Some(e) => Some((self.concept_index[e].name.clone(), sim)),
            None => None,
        };
        proof {
            assert(self.is_nearest(k, query@, at(concept), sim));
            assert(found_name(found) == name);
            assert(self.is_class(k, query@, found_name(found), sim));
        }
        (best, found)
    }

    /// `best` and `found` answer a search for `query`: `found` is the nearest concept, and `best`
    /// the `n` rows with the highest scores, boosted by `boost` where they are in that concept.
    pub open spec fn is_answer<K: Numerics>(
        &self,
        k: &K,
        query: Seq<Single>,
        n: nat,
        boost: Single,
        best: Seq<(usize, Single)>,
        found: Option<(String, Single)>,
    ) -> bool {
        exists|score: Single, sims: Seq<Single>, rows: Seq<(usize, Single)>|
            {
                &&& #[trigger] self.is_class(k, query, found_name(found), score)
                &&& found matches Some(f) ==> f.1 == score
                &&& #[trigger] self.are_similarities(k, query, sims)
                &&& #[trigger] self.are_boosted(k, sims, found_name(found), boost, rows)
                &&& is_top(rows, n, best)
            }
    }
}

impl VectorStore {
    /// The scores that an answer rests on.
    proof fn witness<K: Numerics>(
        &self,
        k: &K,
        query: Seq<Single>,
        n: nat,
        boost: Single,
        best: Seq<(usize, Single)>,
        found: Option<(String, Single)>,
    ) -> (r: (Single, Seq<Single>, Seq<(usize, Single)>))
        requires
            self.is_answer(k, query, n, boost, best, found),
        ensures
            self.is_class(k, query, found_name(found), r.0),
            found matches Some(f) ==> f.1 == r.0,
            self.are_similarities(k, query, r.1),
            self.are_boosted(k, r.1, found_name(found), boost, r.2),
            is_top(r.2, n, best),
    {
        choose|score: Single, sims: Seq<Single>, rows: Seq<(usize, Single)>|
            {
                &&& #[trigger] self.is_class(k, query, found_name(found), score)
                &&& found matches Some(f) ==> f.1 == score
                &&& #[trigger] self.are_similarities(k, query, sims)
                &&& #[trigger] self.are_boosted(k, sims, found_name(found), boost, rows)
                &&& is_top(rows, n, best)
            }
    }

    /// `sims` are the similarities to `query` of the rows that are not in the concept.
    pub open spec fn are_outside_similarities<K: Numerics>(
        &self,
        k: &K,
        query: Seq<Single>,
        name: Option<Seq<char>>,
        sims: Seq<Single>,
    ) -> bool {
        &&& sims.len() == self.len
        &&& exists|length: Single| #[trigger]
            is_norm(k, query, length) && forall|i: int|
                0 <= i < self.len && !self.is_in(i, name) ==> self.is_similarity(
                    k,
                    query,
                    length,
                    i,
                    #[trigger] sims[i],
                )
    }

    /// Row `i` with its similarity, if it is not in the concept and its similarity is above one
    /// half.
    pub open spec fn stranger(&self, sims: Seq<Single>, name: Option<Seq<char>>, i: int) -> Option<
        (usize, Single),
    > {
        if !self.is_in(i, name) && exceeds(sims[i], HALF) {
            Some((i as usize, sims[i]))
        } else {
            None
        }
    }

    /// The rows that are not in the concept and have a similarity above one half, in their order.
    pub open spec fn strangers(&self, sims: Seq<Single>, name: Option<Seq<char>>) -> Seq<
        (usize, Single),
    > {
        present(Seq::new(sims.len(), |i: int| self.stranger(sims, name, i)))
    }

    /// `found` are the `n` rows most similar to `query` of those that are not in the concept and
    /// have a similarity above one half.
    pub open spec fn is_cross_pollination<K: Numerics>(
        &self,
        k: &K,
        query: Seq<Single>,
        name: Option<Seq<char>>,
        n: nat,
        found: Seq<(usize, Single)>,
    ) -> bool {
        exists|sims: Seq<Single>| #[trigger]
            self.are_outside_similarities(k, query, name, sims) && is_top(
                self.strangers(sims, name),
                n,
                found,
            )
    }

    /// The similarities that a cross-pollination rests on.
    proof fn outside_witness<K: Numerics>(
        &self,
        k: &K,
        query: Seq<Single>,
        name: Option<Seq<char>>,
        n: nat,
        found: Seq<(usize, Single)>,
    ) -> (sims: Seq<Single>)
        requires
            self.is_cross_pollination(k, query, name, n, found),
        ensures
            self.are_outside_similarities(k, query, name, sims),
            is_top(self.strangers(sims, name), n, found),
    {
        choose|sims: Seq<Single>| #[trigger]
            self.are_outside_similarities(k, query, name, sims) && is_top(
                self.strangers(sims, name),
                n,
                found,
            )
    }

    spec fn is_candidate<K: Numerics>(
        &self,
        k: &K,
        query: Seq<Single>,
        length: Single,
        name: Option<Seq<char>>,
        i: usize,
        outcome: Option<(usize, Single)>,
    ) -> bool {
        if self.is_in(i as int, name) {
            outcome is None
        } else {
            exists|sim: Single| #[trigger]
                self.is_similarity(k, query, length, i as int, sim) && outcome == if exceeds(
                    sim,
                    HALF,
                ) {
                    Some((i, sim))
                } else {
                    None
                }
        }
    }

    /// Row `i` with its similarity to `query`, if it is not among the rows of the concept at
    /// `place` and its similarity is above one half.
    fn candidate<K: Numerics>(
        &self,
        k: &K,
        query: &[Single; DIM],
        length: Single,
        place: Option<usize>,
        i: usize,
    ) -> (r: Option<(usize, Single)>)
        requires
            self.wf(),
            i < self.len,
            place matches Some(e) ==> e < self.concept_index@.len(),
        ensures
            self.is_candidate(k, query@, length, self.concept_name(at(place)), i, r),
    {
        if let Some(e) = place {
            proof {
                self.lemma_members(e as int);
            }
            if includes(&self.concept_index[e].members, i) {
                return None;
            }
        }
        let sim = self.cosine(k, query, length, i);
        if greater(sim, HALF) {
            Some((i, sim))
        } else {
            None
        }
    }

    /// The `top_k` rows most similar to `query` of those that do not carry `exclude_concept` and
    /// have a similarity above one half.
    pub fn cross_pollination<K: Numerics>(
        &self,
        k: &K,
        query: &[Single; DIM],
        exclude_concept: Option<&str>,
        top_k: usize,
    ) -> (r: Vec<(usize, Single)>)
        requires
            self.wf(),
        ensures
            self.is_cross_pollination(
                k,
                query@,
                worded(exclude_concept),
                top_k as nat,
                r@,
            ),
    {
        let ghost name = worded(exclude_concept);
        let length = norm(k, array_as_slice(query));
        let place: Option<usize> = match exclude_concept {
            Some(name) => find(&self.concept_index, &name.to_owned()),
            None => None,
        };
        proof {
            assert forall|i: int| 0 <= i < self.len implies #[trigger] self.is_in(i, name)
                == self.is_in(i, self.concept_name(at(place))) by {
                if place is None && self.is_in(i, name) {
                    let tags = self.tags()[i];
                    let j = tags.index_of(name->0);
                    assert(names(self.concept_index@, self.tags()[i][j]));
                }
            }
        }
        let consider = |i: usize| -> (o: Option<(usize, u32)>)
            requires
                i < self.len,
            ensures
                self.is_candidate(k, query@, length, self.concept_name(at(place)), i, o),
            { self.candidate(k, query, length, place, i) };
        let rows = scan_some(self.len, consider);
        proof {
            let outcomes = choose|outcomes: Seq<Option<(usize, u32)>>| #[trigger]
                outcomes_of(consider, 0, self.len, outcomes) && rows@ == present(outcomes);
            let sims = Seq::new(
                self.len as nat,
                |i: int|
                    choose|sim: Single| #[trigger]
                        self.is_similarity(k, query@, length, i, sim) && outcomes[i] == if exceeds(
                            sim,
                            HALF,
                        ) {
                            Some((i as usize, sim))
                        } else {
                            None
                        },
            );
            assert forall|i: int| 0 <= i < self.len implies #[trigger] outcomes[i]
                == self.stranger(sims, name, i) && (!self.is_in(i, name) ==> self.is_similarity(
                k,
                query@,
                length,
                i,
                sims[i],
            )) by {
                let u = i as usize;
                assert(outcomes[u - 0] == outcomes[i]);
                assert(self.is_candidate(
                    k,
                    query@,
                    length,
                    self.concept_name(at(place)),
                    u,
                    outcomes[i],
                ));
                assert(self.is_in(i, name) == self.is_in(i, self.concept_name(at(place))));
            }
            assert(outcomes =~= Seq::new(sims.len(), |i: int| self.stranger(sims, name, i)));
            assert(self.are_outside_similarities(k, query@, name, sims));
        }
        top(&rows, top_k)
    }

    /// `hit` shows row `i`: its score to four places, at most four of its concepts, and at most
    /// 200 characters of its description.
    pub open spec fn is_hit<K: Numerics>(
        &self,
        k: &K,
        i: int,
        score: Single,
        in_concept: bool,
        hit: SearchHit,
    ) -> bool {
        &&& hit.name@ == self.names@[i]@
        &&& is_to_four_places(k, score, hit.score)
        &&& strings(hit.concepts@) == first(self.tags()[i], SHOWN_CONCEPTS as int)
        &&& hit.description@ == first(self.descriptions@[i]@, SHOWN_DESCRIPTION as int)
        &&& hit.in_concept == in_concept
    }

    /// What an answer shows of row `idx`.
    pub fn hit<K: Numerics>(&self, k: &K, idx: usize, score: Single, in_concept: bool) -> (r:
        SearchHit)
        requires
            self.wf(),
            idx < self.len,
        ensures
            self.is_hit(k, idx as int, score, in_concept, r),
    {
        SearchHit {
            name: self.names[idx].clone(),
            score: to_four_places(k, score),
            concepts: first_strings(&self.concepts[idx], SHOWN_CONCEPTS),
            description: prefix(self.descriptions[idx].as_str(), SHOWN_DESCRIPTION),
            in_concept,
        }
    }

    /// Whether row `idx` carries the concept `name`.
    pub fn is_tagged(&self, idx: usize, name: &String) -> (r: bool)
        requires
            self.wf(),
            idx < self.len,
        ensures
            r == self.carries(idx as int, name@),
    {
        let list = &self.concepts[idx];
        let ghost tags = self.tags()[idx as int];
        let mut j: usize = 0;
        while j < list.len()
            invariant
                tags == strings(list@),
                tags == self.tags()[idx as int],
                j <= list@.len(),
                forall|i: int| 0 <= i < j ==> #[trigger] tags[i] != name@,
            decreases list@.len() - j,
        {
            if list[j] == *name {
                proof {
                    assert(tags[j as int] == name@);
                }
                return true;
            }
            j = j + 1;
        }
        false
    }

    /// Each concept with the number of rows that carry it and the length of its centroid.
    pub fn concept_info<K: Numerics>(&self, k: &K) -> (r: Vec<(String, ConceptInfo)>)
        requires
            self.wf(),
        ensures
            r@.len() == self.concept_index@.len(),
            forall|e: int|
                0 <= e < r@.len() ==> {
                    &&& (#[trigger] r@[e]).0@ == self.concept_index@[e].name@
                    &&& r@[e].1.count == self.concept_index@[e].members@.len()
                    &&& is_norm(k, self.concept_centroids@[e]@, r@[e].1.centroid_norm)
                },
    {
        let mut r: Vec<(String, ConceptInfo)> = Vec::new();
        let mut e: usize = 0;
        while e < self.concept_index.len()
            invariant
                self.wf(),
                e <= self.concept_index@.len(),
                r@.len() == e,
                forall|d: int|
                    0 <= d < e ==> {
                        &&& (#[trigger] r@[d]).0@ == self.concept_index@[d].name@
                        &&& r@[d].1.count == self.concept_index@[d].members@.len()
                        &&& is_norm(k, self.concept_centroids@[d]@, r@[d].1.centroid_norm)
                    },
            decreases self.concept_index@.len() - e,
        {
            let info = ConceptInfo {
                count: self.concept_index[e].members.len(),
                centroid_norm: norm(k, self.concept_centroids[e].as_slice()),
            };
            r.push((self.concept_index[e].name.clone(), info));
            e = e + 1;
        }
        r
    }

    /// The size of the store.
    pub fn stats(&self) -> (r: Stats)
        ensures
            r.total_crates == self.len,
            r.dimensions == DIM,
            r.concepts == self.concept_index@.len(),
            r.engine@ == "ternary-search-rs/0.1.0 (rust+axum+rayon)"@,
    {
        Stats {
            total_crates: self.len,
            dimensions: DIM,
            concepts: self.concept_index.len(),
            engine: "ternary-search-rs/0.1.0 (rust+axum+rayon)",
        }
    }
}

/// In a store whose lengths were computed, the similarity of a row is the cosine of the angle
/// between the query and the row, by the lengths of both.
pub proof fn law_similarity_is_the_cosine<K: Numerics>(
    k: &K,
    store: &VectorStore,
    query: Seq<Single>,
    sims: Seq<Single>,
    i: int,
)
    requires
        store.computed_with(k),
        store.are_similarities(k, query, sims),
        0 <= i < store.len,
    ensures
        exists|a: Single, b: Single| #[trigger]
            is_norm(k, query, a) && #[trigger] is_norm(k, store.row(i), b) && is_cosine(
                k,
                query,
                a,
                store.row(i),
                b,
                sims[i],
            ),
{
    let length = choose|length: Single| #[trigger]
        is_norm(k, query, length) && forall|i: int|
            0 <= i < store.len ==> store.is_similarity(k, query, length, i, #[trigger] sims[i]);
    assert(is_norm(k, store.row(i), store.norms@[i]));
    assert(store.is_similarity(k, query, length, i, sims[i]));
}

/// A search gives as many rows as were asked for, or all rows where there are fewer; they are rows
/// of the store, and none comes twice.
pub proof fn law_results_are_rows<K: Numerics>(
    k: &K,
    store: &VectorStore,
    query: Seq<Single>,
    n: nat,
    boost: Single,
    best: Seq<(usize, Single)>,
    found: Option<(String, Single)>,
)
    requires
        store.is_answer(k, query, n, boost, best, found),
    ensures
        best.len() == if n < store.len {
            n
        } else {
            store.len as nat
        },
        forall|t: int| 0 <= t < best.len() ==> (#[trigger] best[t]).0 < store.len,
        forall|s: int, t: int|
            0 <= s < t < best.len() ==> (#[trigger] best[s]).0 != (#[trigger] best[t]).0,
{
    let (score, sims, rows) = store.witness(k, query, n, boost, best, found);
    law_top_is_full(rows, n, best);
    assert forall|t: int| 0 <= t < best.len() implies (#[trigger] best[t]).0 < store.len by {
        law_top_invents_nothing(rows, n, best, t);
        let i = rows.index_of(best[t]);
        assert(rows[i] == best[t]);
    }
    assert forall|s: int, t: int| 0 <= s < t < best.len() implies (#[trigger] best[s]).0 != (
    #[trigger] best[t]).0 by {
        assert(rows.no_duplicates()) by {
            assert forall|i: int, j: int|
                0 <= i < rows.len() && 0 <= j < rows.len() && i != j implies rows[i]
                != rows[j] by {
                assert(rows[i].0 == i && rows[j].0 == j);
            }
        }
        law_top_repeats_nothing(rows, n, best, s, t);
        law_top_invents_nothing(rows, n, best, s);
        law_top_invents_nothing(rows, n, best, t);
        let i = rows.index_of(best[s]);
        let j = rows.index_of(best[t]);
        assert(rows[i].0 == i && rows[j].0 == j);
    }
}

/// The scores of a search never rise from one row to the next.
pub proof fn law_results_descend<K: Numerics>(
    k: &K,
    store: &VectorStore,
    query: Seq<Single>,
    n: nat,
    boost: Single,
    best: Seq<(usize, Single)>,
    found: Option<(String, Single)>,
    s: int,
    t: int,
)
    requires
        store.is_answer(k, query, n, boost, best, found),
        0 <= s <= t < best.len(),
    ensures
        rank(best[s].1) >= rank(best[t].1),
        !exceeds(best[t].1, best[s].1),
{
    let (score, sims, rows) = store.witness(k, query, n, boost, best, found);
    law_top_descends(rows, n, best, s, t);
}

/// The score of a result is the similarity of its row, multiplied by the boost just where the row
/// carries the concept that was found.
pub proof fn law_results_are_boosted_by_concept<K: Numerics>(
    k: &K,
    store: &VectorStore,
    query: Seq<Single>,
    n: nat,
    boost: Single,
    best: Seq<(usize, Single)>,
    found: Option<(String, Single)>,
)
    requires
        store.is_answer(k, query, n, boost, best, found),
    ensures
        exists|sims: Seq<Single>| #[trigger]
            store.are_similarities(k, query, sims) && forall|t: int|
                0 <= t < best.len() ==> {
                    let i = (#[trigger] best[t]).0 as int;
                    if store.is_in(i, found_name(found)) {
                        multiplied(k, sims[i], boost, best[t].1)
                    } else {
                        best[t].1 == sims[i]
                    }
                },
{
    let (score, sims, rows) = store.witness(k, query, n, boost, best, found);
    assert forall|t: int| 0 <= t < best.len() implies {
        let i = (#[trigger] best[t]).0 as int;
        if store.is_in(i, found_name(found)) {
            multiplied(k, sims[i], boost, best[t].1)
        } else {
            best[t].1 == sims[i]
        }
    } by {
        law_top_invents_nothing(rows, n, best, t);
        let p = rows.index_of(best[t]);
        assert(rows[p] == best[t]);
    }
    assert(store.are_similarities(k, query, sims));
}

/// A concept is a boost and no filter: where each operation has one outcome, a row outside the
/// concept that was found comes first if its score exceeds the scores of all other rows.
pub proof fn law_boost_is_no_filter<K: Numerics>(
    k: &K,
    store: &VectorStore,
    query: Seq<Single>,
    n: nat,
    boost: Single,
    best: Seq<(usize, Single)>,
    found: Option<(String, Single)>,
    i: usize,
    score: Single,
)
    requires
        functional(k),
        store.is_answer(k, query, n, boost, best, found),
        n > 0,
        i < store.len,
        !store.is_in(i as int, found_name(found)),
        store.is_score(k, query, found_name(found), boost, i as int, score),
        forall|j: int, other: Single|
            0 <= j < store.len && j != i && #[trigger] store.is_score(
                k,
                query,
                found_name(found),
                boost,
                j,
                other,
            ) ==> exceeds(score, other),
    ensures
        best.len() > 0,
        best[0] == (i, score),
{
    let name = found_name(found);
    let (_, sims, rows) = store.witness(k, query, n, boost, best, found);
    let own = choose|own: Seq<Single>| #[trigger]
        store.are_similarities(k, query, own) && score == own[i as int];
    lemma_all_similarities_agree(k, store, query, own, sims);
    assert(rows[i as int].0 == i && rows[i as int].1 == score);
    assert forall|j: int| 0 <= j < rows.len() && j != i implies rank(rows[i as int].1) > rank(
        (#[trigger] rows[j]).1,
    ) by {
        assert(store.is_score(k, query, name, boost, j, rows[j].1));
    }
    law_strictly_best_comes_first(rows, n, best, i as int);
}

proof fn lemma_stranger(
    store: &VectorStore,
    sims: Seq<Single>,
    name: Option<Seq<char>>,
    r: (usize, Single),
)
    requires
        sims.len() == store.len,
    ensures
        store.strangers(sims, name).contains(r) <==> {
            &&& r.0 < store.len
            &&& !store.is_in(r.0 as int, name)
            &&& r.1 == sims[r.0 as int]
            &&& exceeds(r.1, HALF)
        },
{
    let options = Seq::new(sims.len(), |i: int| store.stranger(sims, name, i));
    law_present(options, r);
    if options.contains(Some(r)) {
        let i = options.index_of(Some(r));
        assert(options[i] == Some(r));
        assert(store.stranger(sims, name, i) == Some(r));
    }
    if r.0 < store.len && !store.is_in(r.0 as int, name) && r.1 == sims[r.0 as int] && exceeds(
        r.1,
        HALF,
    ) {
        assert(options[r.0 as int] == Some(r));
    }
}

/// The rows of a cross-pollination are outside the concept and have a similarity above one half;
/// there are at most as many as were asked for, and the similarity never rises.
pub proof fn law_strangers_are_outside<K: Numerics>(
    k: &K,
    store: &VectorStore,
    query: Seq<Single>,
    name: Option<Seq<char>>,
    n: nat,
    found: Seq<(usize, Single)>,
)
    requires
        store.is_cross_pollination(k, query, name, n, found),
    ensures
        found.len() <= n,
        forall|t: int|
            0 <= t < found.len() ==> {
                &&& (#[trigger] found[t]).0 < store.len
                &&& !store.is_in(found[t].0 as int, name)
                &&& exceeds(found[t].1, HALF)
            },
        forall|s: int, t: int|
            0 <= s <= t < found.len() ==> !exceeds(
                (#[trigger] found[t]).1,
                (#[trigger] found[s]).1,
            ),
{
    let sims = store.outside_witness(k, query, name, n, found);
    let rows = store.strangers(sims, name);
    assert forall|t: int| 0 <= t < found.len() implies {
        &&& (#[trigger] found[t]).0 < store.len
        &&& !store.is_in(found[t].0 as int, name)
        &&& exceeds(found[t].1, HALF)
    } by {
        law_top_invents_nothing(rows, n, found, t);
        lemma_stranger(store, sims, name, found[t]);
    }
    assert forall|s: int, t: int| 0 <= s <= t < found.len() implies !exceeds(
        (#[trigger] found[t]).1,
        (#[trigger] found[s]).1,
    ) by {
        law_top_descends(rows, n, found, s, t);
    }
    law_top_is_full(rows, n, found);
}

/// Where each operation has one outcome, a row outside the concept with a similarity above one half
/// is passed over only for as many rows as were asked for, none of which is less similar.
pub proof fn law_no_stranger_is_passed_over<K: Numerics>(
    k: &K,
    store: &VectorStore,
    query: Seq<Single>,
    name: Option<Seq<char>>,
    sims: Seq<Single>,
    n: nat,
    found: Seq<(usize, Single)>,
    i: usize,
)
    requires
        functional(k),
        store.is_cross_pollination(k, query, name, n, found),
        store.are_outside_similarities(k, query, name, sims),
        i < store.len,
        !store.is_in(i as int, name),
        exceeds(sims[i as int], HALF),
        !found.contains((i, sims[i as int])),
    ensures
        found.len() == n,
        forall|t: int|
            0 <= t < found.len() ==> !exceeds(sims[i as int], (#[trigger] found[t]).1),
{
    let rows = store.strangers(sims, name);
    let r = (i, sims[i as int]);
    let own = store.outside_witness(k, query, name, n, found);
    lemma_strangers_agree(k, store, query, name, own, sims);
    lemma_stranger(store, sims, name, r);
    let p = rows.index_of(r);
    assert(rows[p] == r);
    law_top_is_full(rows, n, found);
    if rows.len() <= n {
        law_top_of_few_is_all(rows, n, found, p);
    }
    assert forall|t: int| 0 <= t < found.len() implies !exceeds(
        sims[i as int],
        (#[trigger] found[t]).1,
    ) by {
        law_top_leaves_out_nothing_better(rows, n, found, p, t);
    }
}

/// Where each operation has one outcome, so has the classification of a query.
pub proof fn law_class_is_determined<K: Numerics>(
    k: &K,
    store: &VectorStore,
    query: Seq<Single>,
    name1: Option<Seq<char>>,
    sim1: Single,
    name2: Option<Seq<char>>,
    sim2: Single,
)
    requires
        functional(k),
        store.is_class(k, query, name1, sim1),
        store.is_class(k, query, name2, sim2),
    ensures
        name1 == name2,
        sim1 == sim2,
{
    let c1 = choose|concept: Option<int>| #[trigger]
        store.is_nearest(k, query, concept, sim1) && name1 == store.concept_name(concept);
    let c2 = choose|concept: Option<int>| #[trigger]
        store.is_nearest(k, query, concept, sim2) && name2 == store.concept_name(concept);
    let s1 = choose|sims: Seq<Single>| #[trigger]
        store.are_concept_scores(k, query, sims) && is_first_best(sims, None, c1) && sim1
            == match c1 {
            Some(e) => sims[e],
            None => MINUS_ONE,
        };
    let s2 = choose|sims: Seq<Single>| #[trigger]
        store.are_concept_scores(k, query, sims) && is_first_best(sims, None, c2) && sim2
            == match c2 {
            Some(e) => sims[e],
            None => MINUS_ONE,
        };
    assert forall|e: int| 0 <= e < s1.len() implies s1[e] == s2[e] by {
        law_dot_is_determined(k, query, store.concept_centroids@[e]@, s1[e], s2[e]);
    }
    assert(s1 =~= s2);
    law_first_best_is_determined(s1, None, c1, c2);
}

proof fn lemma_similarities_agree<K: Numerics>(
    k: &K,
    store: &VectorStore,
    query: Seq<Single>,
    name: Option<Seq<char>>,
    a: Seq<Single>,
    b: Seq<Single>,
)
    requires
        functional(k),
        store.are_outside_similarities(k, query, name, a),
        store.are_outside_similarities(k, query, name, b),
    ensures
        forall|i: int| 0 <= i < store.len && !store.is_in(i, name) ==> #[trigger] a[i] == b[i],
{
    let la = choose|length: Single| #[trigger]
        is_norm(k, query, length) && forall|i: int|
            0 <= i < store.len && !store.is_in(i, name) ==> store.is_similarity(
                k,
                query,
                length,
                i,
                #[trigger] a[i],
            );
    let lb = choose|length: Single| #[trigger]
        is_norm(k, query, length) && forall|i: int|
            0 <= i < store.len && !store.is_in(i, name) ==> store.is_similarity(
                k,
                query,
                length,
                i,
                #[trigger] b[i],
            );
    law_norm_is_determined(k, query, la, lb);
    assert forall|i: int| 0 <= i < store.len && !store.is_in(i, name) implies #[trigger] a[i]
        == b[i] by {
        assert(store.is_similarity(k, query, la, i, a[i]));
        assert(store.is_similarity(k, query, lb, i, b[i]));
        law_cosine_is_determined(k, query, la, store.row(i), store.norms@[i], a[i], b[i]);
    }
}

proof fn lemma_all_similarities_agree<K: Numerics>(
    k: &K,
    store: &VectorStore,
    query: Seq<Single>,
    a: Seq<Single>,
    b: Seq<Single>,
)
    requires
        functional(k),
        store.are_similarities(k, query, a),
        store.are_similarities(k, query, b),
    ensures
        a == b,
{
    assert(store.are_outside_similarities(k, query, None, a));
    assert(store.are_outside_similarities(k, query, None, b));
    lemma_similarities_agree(k, store, query, None, a, b);
    assert forall|i: int| 0 <= i < store.len implies a[i] == b[i] by {
        assert(!store.is_in(i, None));
    }
    assert(a =~= b);
}

/// What two answers to the same query rest on, if they boost alike, is the same.
proof fn lemma_answers_agree<K: Numerics>(
    k: &K,
    store: &VectorStore,
    query: Seq<Single>,
    n1: nat,
    n2: nat,
    boost: Single,
    best1: Seq<(usize, Single)>,
    found1: Option<(String, Single)>,
    best2: Seq<(usize, Single)>,
    found2: Option<(String, Single)>,
) -> (rows: Seq<(usize, Single)>)
    requires
        functional(k),
        store.is_answer(k, query, n1, boost, best1, found1),
        store.is_answer(k, query, n2, boost, best2, found2),
    ensures
        is_top(rows, n1, best1),
        is_top(rows, n2, best2),
        found_name(found1) == found_name(found2),
        found1 matches Some(f1) ==> found2 matches Some(f2) && f1.1 == f2.1,
{
    let (score1, sims1, rows1) = store.witness(k, query, n1, boost, best1, found1);
    let (score2, sims2, rows2) = store.witness(k, query, n2, boost, best2, found2);
    let name = found_name(found1);
    law_class_is_determined(k, store, query, name, score1, found_name(found2), score2);
    lemma_all_similarities_agree(k, store, query, sims1, sims2);
    assert forall|i: int| 0 <= i < store.len implies rows1[i] == rows2[i] by {
        assert(rows1[i].0 == i && rows2[i].0 == i);
        if store.is_in(i, name) {
            assert(multiplied(k, sims1[i], boost, rows1[i].1));
            assert(multiplied(k, sims2[i], boost, rows2[i].1));
        }
    }
    assert(rows1 =~= rows2);
    rows1
}

/// Where each operation has one outcome, so has a search.
pub proof fn law_answer_is_determined<K: Numerics>(
    k: &K,
    store: &VectorStore,
    query: Seq<Single>,
    n: nat,
    boost: Single,
    best1: Seq<(usize, Single)>,
    found1: Option<(String, Single)>,
    best2: Seq<(usize, Single)>,
    found2: Option<(String, Single)>,
)
    requires
        functional(k),
        store.is_answer(k, query, n, boost, best1, found1),
        store.is_answer(k, query, n, boost, best2, found2),
    ensures
        best1 == best2,
        found_name(found1) == found_name(found2),
        found1 matches Some(f1) ==> found2 matches Some(f2) && f1.1 == f2.1,
{
    let rows = lemma_answers_agree(
        k,
        store,
        query,
        n,
        n,
        boost,
        best1,
        found1,
        best2,
        found2,
    );
    law_top_is_determined(rows, n, best1, best2);
}

/// Where each operation has one outcome, a search for fewer rows gives the first of those that a
/// search for more gives.
pub proof fn law_fewer_results_are_the_first<K: Numerics>(
    k: &K,
    store: &VectorStore,
    query: Seq<Single>,
    n: nat,
    more: nat,
    boost: Single,
    best1: Seq<(usize, Single)>,
    found1: Option<(String, Single)>,
    best2: Seq<(usize, Single)>,
    found2: Option<(String, Single)>,
)
    requires
        functional(k),
        n <= more,
        store.is_answer(k, query, n, boost, best1, found1),
        store.is_answer(k, query, more, boost, best2, found2),
    ensures
        best1 == first(best2, n as int),
{
    let rows = lemma_answers_agree(
        k,
        store,
        query,
        n,
        more,
        boost,
        best1,
        found1,
        best2,
        found2,
    );
    law_fewer_are_the_first_of_more(rows, n, more, best1, best2);
}

/// Where each operation has one outcome, the concept that a search reports is that of the query,
/// with its score: neither depends on how many rows are asked for, nor on the boost.
pub proof fn law_concept_depends_on_the_query_alone<K: Numerics>(
    k: &K,
    store: &VectorStore,
    query: Seq<Single>,
    name: Option<Seq<char>>,
    sim: Single,
    n: nat,
    boost: Single,
    best: Seq<(usize, Single)>,
    found: Option<(String, Single)>,
)
    requires
        functional(k),
        store.is_class(k, query, name, sim),
        store.is_answer(k, query, n, boost, best, found),
    ensures
        found_name(found) == name,
        found matches Some(f) ==> f.1 == sim,
{
    let (score, _, _) = store.witness(k, query, n, boost, best, found);
    law_class_is_determined(k, store, query, name, sim, found_name(found), score);
}

proof fn lemma_strangers_agree<K: Numerics>(
    k: &K,
    store: &VectorStore,
    query: Seq<Single>,
    name: Option<Seq<char>>,
    a: Seq<Single>,
    b: Seq<Single>,
)
    requires
        functional(k),
        store.are_outside_similarities(k, query, name, a),
        store.are_outside_similarities(k, query, name, b),
    ensures
        store.strangers(a, name) == store.strangers(b, name),
{
    lemma_similarities_agree(k, store, query, name, a, b);
    assert forall|i: int| 0 <= i < store.len implies store.stranger(a, name, i)
        == store.stranger(b, name, i) by {
        if !store.is_in(i, name) {
            assert(a[i] == b[i]);
        }
    }
    assert(Seq::new(a.len(), |i: int| store.stranger(a, name, i)) =~= Seq::new(
        b.len(),
        |i: int| store.stranger(b, name, i),
    ));
}

/// Where each operation has one outcome, a cross-pollination of fewer rows gives the first of those
/// that one of more gives, and one of none gives none.
pub proof fn law_fewer_strangers_are_the_first<K: Numerics>(
    k: &K,
    store: &VectorStore,
    query: Seq<Single>,
    name: Option<Seq<char>>,
    n: nat,
    more: nat,
    found1: Seq<(usize, Single)>,
    found2: Seq<(usize, Single)>,
)
    requires
        functional(k),
        n <= more,
        store.is_cross_pollination(k, query, name, n, found1),
        store.is_cross_pollination(k, query, name, more, found2),
    ensures
        found1 == first(found2, n as int),
        n == 0 ==> found1.len() == 0,
{
    let a = store.outside_witness(k, query, name, n, found1);
    let b = store.outside_witness(k, query, name, more, found2);
    lemma_strangers_agree(k, store, query, name, a, b);
    law_fewer_are_the_first_of_more(store.strangers(a, name), n, more, found1, found2);
}

/// Where each operation has one outcome, so has a cross-pollination.
pub proof fn law_cross_pollination_is_determined<K: Numerics>(
    k: &K,
    store: &VectorStore,
    query: Seq<Single>,
    name: Option<Seq<char>>,
    n: nat,
    found1: Seq<(usize, Single)>,
    found2: Seq<(usize, Single)>,
)
    requires
        functional(k),
        store.is_cross_pollination(k, query, name, n, found1),
        store.is_cross_pollination(k, query, name, n, found2),
    ensures
        found1 == found2,
{
    let a = store.outside_witness(k, query, name, n, found1);
    let b = store.outside_witness(k, query, name, n, found2);
    lemma_strangers_agree(k, store, query, name, a, b);
    law_top_is_determined(store.strangers(a, name), n, found1, found2);
}

/// Where each operation has one outcome, a cross-pollination that excludes a concept which no row
/// carries is one that excludes none.
pub proof fn law_unknown_concept_excludes_nothing<K: Numerics>(
    k: &K,
    store: &VectorStore,
    query: Seq<Single>,
    unknown: Seq<char>,
    n: nat,
    found1: Seq<(usize, Single)>,
    found2: Seq<(usize, Single)>,
)
    requires
        functional(k),
        store.wf(),
        !names(store.concept_index@, unknown),
        store.is_cross_pollination(k, query, Some(unknown), n, found1),
        store.is_cross_pollination(k, query, None, n, found2),
    ensures
        found1 == found2,
{
    let sims = store.outside_witness(k, query, Some(unknown), n, found1);
    assert forall|i: int| 0 <= i < store.len implies !store.is_in(i, Some(unknown)) by {
        if store.is_in(i, Some(unknown)) {
            let j = store.tags()[i].index_of(unknown);
            assert(names(store.concept_index@, store.tags()[i][j]));
        }
    }
    assert(store.are_outside_similarities(k, query, None, sims));
    assert(Seq::new(sims.len(), |i: int| store.stranger(sims, Some(unknown), i)) =~= Seq::new(
        sims.len(),
        |i: int| store.stranger(sims, None, i),
    ));
    assert(store.is_cross_pollination(k, query, None, n, found1));
    law_cross_pollination_is_determined(k, store, query, None, n, found1, found2);
}

/// A row counts as being in a concept just where the concept stands somewhere in its list, at
/// whichever place; that is, where the row is a member of it. No row is in no concept.
pub proof fn law_row_is_in_each_concept_it_lists(store: &VectorStore, i: int, name: Seq<char>)
    requires
        store.wf(),
        0 <= i < store.len,
    ensures
        store.is_in(i, Some(name)) <==> exists|j: int|
            0 <= j < store.concepts@[i]@.len() && (#[trigger] store.concepts@[i]@[j])@ == name,
        store.is_in(i, Some(name)) <==> members_of(store.tags(), name).contains(i as usize),
        store.is_in(i, Some(name)) <==> store.carries(i, name),
        !store.is_in(i, None),
{
    law_row_carries_what_its_list_holds(store, i, name);
}

/// The concept of a query is the one whose centroid has the greatest dot product with it. Where a
/// concept is found it is that of entry `c`, and its score is the product of the query with that
/// entry's centroid. Where each operation has one outcome, no entry has a greater product, and an
/// earlier entry has a lesser one or none that is a number. No concept is found only where no
/// product is a number; the score is then -1.
pub proof fn law_class_is_the_nearest<K: Numerics>(
    k: &K,
    store: &VectorStore,
    query: Seq<Single>,
    name: Option<Seq<char>>,
    sim: Single,
) -> (c: Option<int>)
    requires
        functional(k),
        store.wf(),
        store.is_class(k, query, name, sim),
    ensures
        name is Some <==> c is Some,
        c matches Some(c) ==> {
            &&& 0 <= c < store.concept_index@.len()
            &&& name == Some(store.concept_index@[c].name@)
            &&& is_dot(k, query, store.concept_centroids@[c]@, sim)
            &&& !is_nan(sim)
            &&& forall|e: int, s: Single|
                0 <= e < store.concept_index@.len() && #[trigger] is_dot(
                    k,
                    query,
                    store.concept_centroids@[e]@,
                    s,
                ) ==> !exceeds(s, sim) && (e < c ==> is_nan(s) || exceeds(sim, s))
        },
        c is None ==> {
            &&& sim == MINUS_ONE
            &&& forall|e: int, s: Single|
                0 <= e < store.concept_index@.len() && #[trigger] is_dot(
                    k,
                    query,
                    store.concept_centroids@[e]@,
                    s,
                ) ==> is_nan(s)
        },
{
    let c = choose|concept: Option<int>| #[trigger]
        store.is_nearest(k, query, concept, sim) && name == store.concept_name(concept);
    let sims = choose|sims: Seq<Single>| #[trigger]
        store.are_concept_scores(k, query, sims) && is_first_best(sims, None, c) && sim == match c {
            Some(e) => sims[e],
            None => MINUS_ONE,
        };
    assert forall|e: int, s: Single|
        0 <= e < store.concept_index@.len() && #[trigger] is_dot(
            k,
            query,
            store.concept_centroids@[e]@,
            s,
        ) implies s == sims[e] by {
        assert(is_dot(k, query, store.concept_centroids@[e]@, sims[e]));
        law_dot_is_determined(k, query, store.concept_centroids@[e]@, s, sims[e]);
    }
    if let Some(p) = c {
        assert(is_dot(k, query, store.concept_centroids@[p]@, sims[p]));
    }
    c
}

/// A query is classified by its own components.
pub proof fn law_query_is_classified<K: Numerics>(
    k: &K,
    store: &VectorStore,
    query: &[Single; DIM],
    r: (Option<String>, Single),
)
    requires
        store.wf(),
        call_ensures(VectorStore::classify_concept::<K>, (store, k, query), r),
    ensures
        match r.0 {
            Some(name) => store.is_class(k, query@, Some(name@), r.1),
            None => store.is_class(k, query@, None, r.1),
        },
{
}

/// A product with a row, and a similarity to it, take in the whole row: all 384 numbers from where
/// the row begins.
pub proof fn law_rows_are_scored_whole<K: Numerics>(
    k: &K,
    store: &VectorStore,
    query: &[Single; DIM],
    length: Single,
    row: usize,
    r: Single,
    v: &[Single],
)
    requires
        store.wf(),
        row < store.len,
    ensures
        call_ensures(VectorStore::dot::<K>, (store, k, query, row), r) ==> is_dot(
            k,
            query@,
            store.data@.subrange(row * 384, (row + 1) * 384),
            r,
        ),
        call_ensures(VectorStore::cosine::<K>, (store, k, query, length, row), r) ==> is_cosine(
            k,
            query@,
            length,
            store.data@.subrange(row * 384, (row + 1) * 384),
            store.norms@[row as int],
            r,
        ),
        call_ensures(VectorStore::vector, (store, row), v) ==> v@ == store.data@.subrange(
            row * 384,
            (row + 1) * 384,
        ),
{
}

/// A search scores every row by its cosine with the query, takes the length of the query itself,
/// multiplies the score by the boost just where the row carries the concept that it reports, and
/// gives the best: as many as were asked for, or all rows where there are fewer, no score above the
/// one before it, and no row left out that scores higher than one given. The length of the query is
/// `w.0`, the cosines are `w.1`, the scores `w.2`, and the rows given `w.3`.
#[verifier::rlimit(40)]
pub proof fn law_search_gives_the_best_rows<K: Numerics>(
    k: &K,
    store: &VectorStore,
    query: Seq<Single>,
    n: nat,
    boost: Single,
    best: Seq<(usize, Single)>,
    found: Option<(String, Single)>,
) -> (w: (Single, Seq<Single>, Seq<Single>, Seq<int>))
    requires
        store.wf(),
        store.is_answer(k, query, n, boost, best, found),
    ensures
        is_norm(k, query, w.0),
        w.1.len() == store.len,
        forall|i: int|
            0 <= i < store.len ==> is_cosine(
                k,
                query,
                w.0,
                store.data@.subrange(i * 384, (i + 1) * 384),
                store.norms@[i],
                #[trigger] w.1[i],
            ),
        w.2.len() == store.len,
        forall|i: int|
            0 <= i < store.len ==> if found matches Some((name, _)) && store.carries(i, name@) {
                multiplied(k, w.1[i], boost, #[trigger] w.2[i])
            } else {
                w.2[i] == w.1[i]
            },
        w.3.len() == best.len(),
        best.len() == if n < store.len {
            n
        } else {
            store.len as nat
        },
        forall|t: int|
            0 <= t < w.3.len() ==> 0 <= #[trigger] w.3[t] < store.len && best[t].0 == w.3[t]
                && best[t].1 == w.2[w.3[t]],
        forall|s: int, t: int|
            0 <= s < t < w.3.len() ==> {
                ||| rank(w.2[#[trigger] w.3[s]]) > rank(w.2[#[trigger] w.3[t]])
                ||| rank(w.2[w.3[s]]) == rank(w.2[w.3[t]]) && w.3[s] < w.3[t]
            },
        forall|t: int, i: int|
            0 <= t < w.3.len() && 0 <= i < store.len && !w.3.contains(i) ==> {
                ||| rank(w.2[#[trigger] w.3[t]]) > rank(#[trigger] w.2[i])
                ||| rank(w.2[w.3[t]]) == rank(w.2[i]) && w.3[t] < i
            },
        match found {
            Some((name, score)) => store.is_class(k, query, Some(name@), score),
            None => exists|score: Single| store.is_class(k, query, None, score),
        },
{
    let (score, sims, rows) = store.witness(k, query, n, boost, best, found);
    let length = choose|length: Single| #[trigger]
        is_norm(k, query, length) && forall|i: int|
            0 <= i < store.len ==> store.is_similarity(k, query, length, i, #[trigger] sims[i]);
    let scores = Seq::new(rows.len(), |i: int| rows[i].1);
    let places = law_top_are_the_best_rows(rows, n, best);
    assert forall|i: int| 0 <= i < store.len implies is_cosine(
        k,
        query,
        length,
        store.data@.subrange(i * 384, (i + 1) * 384),
        store.norms@[i],
        #[trigger] sims[i],
    ) by {
        assert(store.is_similarity(k, query, length, i, sims[i]));
    }
    assert forall|i: int| 0 <= i < store.len implies if found matches Some((name, _))
        && store.carries(i, name@) {
        multiplied(k, sims[i], boost, #[trigger] scores[i])
    } else {
        scores[i] == sims[i]
    } by {
        assert(rows[i].0 == i);
    }
    assert forall|t: int| 0 <= t < places.len() implies 0 <= #[trigger] places[t] < store.len
        && best[t].0 == places[t] && best[t].1 == scores[places[t]] by {
        assert(rows[places[t]].0 == places[t]);
    }
    assert forall|t: int, i: int|
        0 <= t < places.len() && 0 <= i < store.len && !places.contains(i) implies {
        ||| rank(scores[#[trigger] places[t]]) > rank(#[trigger] scores[i])
        ||| rank(scores[places[t]]) == rank(scores[i]) && places[t] < i
    } by {
        assert(rows[i].1 == scores[i]);
    }
    (length, sims, scores, places)
}

/// A search answers for its own arguments.
pub proof fn law_search_answers_its_query<K: Numerics>(
    k: &K,
    store: &VectorStore,
    query: &[Single; DIM],
    top_k: usize,
    boost: Single,
    r: (Vec<(usize, Single)>, Option<(String, Single)>),
)
    requires
        store.wf(),
        call_ensures(VectorStore::search::<K>, (store, k, query, top_k, boost), r),
    ensures
        store.is_answer(k, query@, top_k as nat, boost, r.0@, r.1),
{
}

/// A cross-pollination gives rows that do not carry the excluded concept and whose cosine with the
/// query is above one half: the most similar first, no more than were asked for, each with its
/// cosine. Such a row is left out only where as many were given as were asked for, and none of them
/// is less similar. The length of the query is `w.0`, and the cosines of the rows that do not carry
/// the concept are in `w.1`.
#[verifier::rlimit(40)]
pub proof fn law_cross_pollination_gives_the_best_strangers<K: Numerics>(
    k: &K,
    store: &VectorStore,
    query: Seq<Single>,
    exclude: Option<Seq<char>>,
    n: nat,
    found: Seq<(usize, Single)>,
) -> (w: (Single, Seq<Single>))
    requires
        store.wf(),
        store.is_cross_pollination(k, query, exclude, n, found),
    ensures
        is_norm(k, query, w.0),
        w.1.len() == store.len,
        forall|i: int|
            0 <= i < store.len && !(exclude matches Some(name) && store.carries(i, name))
                ==> is_cosine(
                k,
                query,
                w.0,
                store.data@.subrange(i * 384, (i + 1) * 384),
                store.norms@[i],
                #[trigger] w.1[i],
            ),
        found.len() <= n,
        forall|t: int|
            0 <= t < found.len() ==> {
                &&& (#[trigger] found[t]).0 < store.len
                &&& !(exclude matches Some(name) && store.carries(found[t].0 as int, name))
                &&& found[t].1 == w.1[found[t].0 as int]
                &&& exceeds(found[t].1, HALF)
            },
        forall|s: int, t: int|
            0 <= s < t < found.len() ==> {
                ||| exceeds((#[trigger] found[s]).1, (#[trigger] found[t]).1)
                ||| rank(found[s].1) == rank(found[t].1) && found[s].0 < found[t].0
            },
        forall|i: usize|
            i < store.len && !(exclude matches Some(name) && store.carries(i as int, name))
                && exceeds(#[trigger] w.1[i as int], HALF) && !found.contains((i, w.1[i as int])) ==> {
                &&& found.len() == n
                &&& forall|t: int|
                    0 <= t < found.len() ==> {
                        ||| exceeds((#[trigger] found[t]).1, w.1[i as int])
                        ||| rank(found[t].1) == rank(w.1[i as int]) && found[t].0 < i
                    }
            },
{
    let sims = store.outside_witness(k, query, exclude, n, found);
    let length = choose|length: Single| #[trigger]
        is_norm(k, query, length) && forall|i: int|
            0 <= i < store.len && !store.is_in(i, exclude) ==> store.is_similarity(
                k,
                query,
                length,
                i,
                #[trigger] sims[i],
            );
    let options = Seq::new(sims.len(), |i: int| store.stranger(sims, exclude, i));
    let rows = store.strangers(sims, exclude);
    let at = law_present_keeps_the_order(options);
    let places = law_top_are_the_best_rows(rows, n, found);
    assert forall|j: int| 0 <= j < rows.len() implies {
        &&& 0 <= #[trigger] at[j] < store.len
        &&& rows[j] == (at[j] as usize, sims[at[j]])
        &&& !store.is_in(at[j], exclude)
        &&& exceeds(sims[at[j]], HALF)
    } by {
        assert(options[at[j]] == Some(rows[j]));
        assert(store.stranger(sims, exclude, at[j]) == Some(rows[j]));
    }
    assert forall|i: int|
        0 <= i < store.len && !(exclude matches Some(name) && store.carries(i, name))
        implies is_cosine(
        k,
        query,
        length,
        store.data@.subrange(i * 384, (i + 1) * 384),
        store.norms@[i],
        #[trigger] sims[i],
    ) by {
        assert(store.is_similarity(k, query, length, i, sims[i]));
    }
    assert forall|t: int| 0 <= t < found.len() implies {
        &&& (#[trigger] found[t]).0 < store.len
        &&& !(exclude matches Some(name) && store.carries(found[t].0 as int, name))
        &&& found[t].1 == sims[found[t].0 as int]
        &&& exceeds(found[t].1, HALF)
    } by {
        assert(found[t] == rows[places[t]]);
        assert(0 <= at[places[t]] < store.len);
    }
    assert forall|s: int, t: int| 0 <= s < t < found.len() implies {
        ||| exceeds((#[trigger] found[s]).1, (#[trigger] found[t]).1)
        ||| rank(found[s].1) == rank(found[t].1) && found[s].0 < found[t].0
    } by {
        let a = places[s];
        let b = places[t];
        assert(found[s] == rows[a] && found[t] == rows[b]);
        assert(0 <= at[a] < store.len && 0 <= at[b] < store.len);
        if rank(rows[a].1) == rank(rows[b].1) {
            assert(at[a] < at[b]);
        }
    }
    assert forall|i: usize|
        i < store.len && !(exclude matches Some(name) && store.carries(i as int, name))
            && exceeds(#[trigger] sims[i as int], HALF) && !found.contains((i, sims[i as int]))
        implies {
        &&& found.len() == n
        &&& forall|t: int|
            0 <= t < found.len() ==> {
                ||| exceeds((#[trigger] found[t]).1, sims[i as int])
                ||| rank(found[t].1) == rank(sims[i as int]) && found[t].0 < i
            }
    } by {
        assert(options[i as int] is Some);
        let p = at.index_of(i as int);
        assert(at[p] == i && 0 <= p < rows.len());
        assert(rows[p] == (i, sims[i as int]));
        if places.contains(p) {
            let t = places.index_of(p);
            assert(found[t] == rows[places[t]]);
            assert(found.contains(found[t]));
        }
        if rows.len() <= n {
            law_top_of_few_is_all(rows, n, found, p);
        }
        assert forall|t: int| 0 <= t < found.len() implies {
            ||| exceeds((#[trigger] found[t]).1, sims[i as int])
            ||| rank(found[t].1) == rank(sims[i as int]) && found[t].0 < i
        } by {
            let a = places[t];
            assert(found[t] == rows[a]);
            assert(0 <= at[a] < store.len);
            assert(rows[p].1 == sims[i as int]);
            if rank(rows[a].1) == rank(rows[p].1) {
                assert(a < p);
                assert(at[a] < at[p]);
            }
        }
    }
    (length, sims)
}

/// A cross-pollination answers for its own arguments.
pub proof fn law_cross_pollination_answers_its_query<K: Numerics>(
    k: &K,
    store: &VectorStore,
    query: &[Single; DIM],
    exclude: Option<&str>,
    top_k: usize,
    r: Vec<(usize, Single)>,
)
    requires
        store.wf(),
        call_ensures(VectorStore::cross_pollination::<K>, (store, k, query, exclude, top_k), r),
    ensures
        match exclude {
            Some(name) => store.is_cross_pollination(k, query@, Some(name@), top_k as nat, r@),
            None => store.is_cross_pollination(k, query@, None, top_k as nat, r@),
        },
{
}

/// A hit shows the row that it is made of: its name, its score to four places, its first four
/// concepts and the first 200 characters of its description, and it is marked as was said.
pub proof fn law_hit_shows_the_row<K: Numerics>(
    k: &K,
    store: &VectorStore,
    idx: usize,
    score: Single,
    in_concept: bool,
    r: SearchHit,
)
    requires
        store.wf(),
        idx < store.len,
        call_ensures(VectorStore::hit::<K>, (store, k, idx, score, in_concept), r),
    ensures
        store.is_hit(k, idx as int, score, in_concept, r),
{
}

/// What a hit shows, part by part.
pub proof fn law_parts_of_a_hit<K: Numerics>(
    k: &K,
    store: &VectorStore,
    i: int,
    score: Single,
    in_concept: bool,
    hit: SearchHit,
)
    requires
        store.wf(),
        0 <= i < store.len,
        store.is_hit(k, i, score, in_concept, hit),
    ensures
        hit.name@ == store.names@[i]@,
        is_to_four_places(k, score, hit.score),
        hit.concepts@.len() == if store.concepts@[i]@.len() < 4 {
            store.concepts@[i]@.len()
        } else {
            4
        },
        forall|j: int|
            0 <= j < hit.concepts@.len() ==> (#[trigger] hit.concepts@[j])@
                == store.concepts@[i]@[j]@,
        hit.description@ == if store.descriptions@[i]@.len() < 200 {
            store.descriptions@[i]@
        } else {
            store.descriptions@[i]@.take(200)
        },
        hit.in_concept == in_concept,
{
    let tags = strings(store.concepts@[i]@);
    assert(store.tags()[i] == tags);
    assert(strings(hit.concepts@).len() == hit.concepts@.len());
    assert forall|j: int| 0 <= j < hit.concepts@.len() implies (#[trigger] hit.concepts@[j])@
        == store.concepts@[i]@[j]@ by {
        assert(strings(hit.concepts@)[j] == tags[j]);
    }
    if store.descriptions@[i]@.len() == 200 {
        assert(store.descriptions@[i]@.take(200) =~= store.descriptions@[i]@);
    }
}

/// What is shown of the concepts is, entry by entry of the index, the name, the number of members
/// and the length of the centroid; and of the store its rows, their 384 components and its concepts.
pub proof fn law_sizes_are_those_of_the_store<K: Numerics>(
    k: &K,
    store: &VectorStore,
    info: Vec<(String, ConceptInfo)>,
    stats: Stats,
)
    requires
        store.wf(),
        call_ensures(VectorStore::concept_info::<K>, (store, k), info),
        call_ensures(VectorStore::stats, (store,), stats),
    ensures
        info@.len() == store.concept_index@.len(),
        forall|e: int|
            0 <= e < info@.len() ==> {
                &&& (#[trigger] info@[e]).0@ == store.concept_index@[e].name@
                &&& info@[e].1.count == store.concept_index@[e].members@.len()
                &&& is_norm(k, store.concept_centroids@[e]@, info@[e].1.centroid_norm)
            },
        stats.total_crates == store.len,
        stats.dimensions == 384,
        stats.concepts == store.concept_index@.len(),
{
}

/// A row is told to be tagged just where the concept stands somewhere in its list.
pub proof fn law_tagged_where_listed(store: &VectorStore, idx: usize, name: &String, r: bool)
    requires
        store.wf(),
        idx < store.len,
        call_ensures(VectorStore::is_tagged, (store, idx, name), r),
    ensures
        r <==> exists|j: int|
            0 <= j < store.concepts@[idx as int]@.len() && (
            #[trigger] store.concepts@[idx as int]@[j])@ == name@,
{
    law_row_carries_what_its_list_holds(store, idx as int, name@);
}

} // verus!
