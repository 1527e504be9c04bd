//! Pairs of rows that bridge two concepts, and the rows far from all of them.

use vstd::prelude::*;
use vstd::string::StringExecFns;

use crate::index::{ascending, law_members_are_the_tagged_rows};
use crate::numerics::{
    dot, functional, is_dot, is_to_four_places_wide, law_dot_is_determined,
    law_wide_four_places_are_determined, to_four_places_wide, Numerics,
};
use crate::parallel::{law_present_keeps_the_order, present, scan};
use crate::ranking::{
    before, first_best, is_first_best, is_last_best, is_ranking, last_best,
    law_first_best_is_determined, law_last_best_is_determined, law_ranking_is_determined, ranking,
};
use crate::scalar::{
    exceeds, greater, is_nan, rank, rank_of_wide, rank_wide, Double, Single, HALF, ZERO,
};
use crate::search::{at, SHOWN_CONCEPTS};
use crate::text::{first, first_strings, strings};
use crate::vectors::{describe_read_error, read_error, VectorStore, DIM};

verus! {

/// Two rows of different concepts that are similar.
#[derive(Debug, Clone)]
pub struct CrossPair {
    pub a: String,
    pub b: String,
    pub similarity: Double,
    pub concepts_a: Vec<String>,
    pub concepts_b: Vec<String>,
}

/// A row that is far from the centroids of all concepts.
#[derive(Debug, Clone)]
pub struct FrontierEntry {
    pub name: String,
    pub distance: Double,
    pub nearest_concept: String,
    pub concepts: Vec<String>,
}

/// What an analysis file holds.
#[derive(Debug, Default)]
pub struct AnalysisFile {
    pub cross_pollination: Vec<CrossPair>,
    pub frontier: Vec<FrontierEntry>,
}

/// What is known of how the concepts lie to each other.
pub struct ConceptAnalysis {
    pub cross: Vec<CrossPair>,
    pub frontier: Vec<FrontierEntry>,
}

/// `pairs` are all pairs of numbers below `n`, the lower number first, in ascending order.
pub open spec fn are_pairs(n: int, pairs: Seq<(usize, usize)>) -> bool {
    &&& forall|t: int| 0 <= t < pairs.len() ==> (#[trigger] pairs[t]).0 < pairs[t].1 < n
    &&& forall|s: int, t: int|
        0 <= s < t < pairs.len() ==> {
            ||| (#[trigger] pairs[s]).0 < (#[trigger] pairs[t]).0
            ||| pairs[s].0 == pairs[t].0 && pairs[s].1 < pairs[t].1
        }
    &&& forall|i: usize, j: usize| i < j < n ==> #[trigger] pairs.contains((i, j))
}

/// All pairs of numbers below `n`.
pub fn pairs_below(n: usize) -> (pairs: Vec<(usize, usize)>)
    ensures
        are_pairs(n as int, pairs@),
{
    let mut pairs: Vec<(usize, usize)> = Vec::new();
    let mut i: usize = 0;
    while i < n
        invariant
            i <= n,
            forall|t: int|
                0 <= t < pairs@.len() ==> (#[trigger] pairs@[t]).0 < pairs@[t].1 < n
                    && pairs@[t].0 < i,
            forall|s: int, t: int|
                0 <= s < t < pairs@.len() ==> {
                    ||| (#[trigger] pairs@[s]).0 < (#[trigger] pairs@[t]).0
                    ||| pairs@[s].0 == pairs@[t].0 && pairs@[s].1 < pairs@[t].1
                },
            forall|a: usize, b: usize| a < b < n && a < i ==> #[trigger] pairs@.contains((a, b)),
        decreases n - i,
    {
        let mut j: usize = i + 1;
        while j < n
            invariant
                i < j <= n,
                forall|t: int|
                    0 <= t < pairs@.len() ==> (#[trigger] pairs@[t]).0 < pairs@[t].1 < n && (
                    pairs@[t].0 < i || (pairs@[t].0 == i && pairs@[t].1 < j)),
                forall|s: int, t: int|
                    0 <= s < t < pairs@.len() ==> {
                        ||| (#[trigger] pairs@[s]).0 < (#[trigger] pairs@[t]).0
                        ||| pairs@[s].0 == pairs@[t].0 && pairs@[s].1 < pairs@[t].1
                    },
                forall|a: usize, b: usize|
                    a < b < n && (a < i || (a == i && b < j)) ==> #[trigger] pairs@.contains(
                        (a, b),
                    ),
            decreases n - j,
        {
            let ghost before = pairs@;
            pairs.push((i, j));
            proof {
                assert(pairs@[before.len() as int] == (i, j));
                assert forall|a: usize, b: usize|
                    a < b < n && (a < i || (a == i && b < j + 1))
                    implies #[trigger] pairs@.contains((a, b)) by {
                    if a < i || b < j {
                        assert(before.contains((a, b)));
                        let t = before.index_of((a, b));
                        assert(pairs@[t] == (a, b));
                    }
                }
            }
            j = j + 1;
        }
        i = i + 1;
    }
    pairs
}

/// A row of one concept, the row of another that it is most similar to, and how similar they are.
pub type Bridge = (usize, usize, Double);

/// Those of `rows` that are not row `a`, in their order.
pub open spec fn besides(rows: Seq<usize>, a: int) -> Seq<usize>
    decreases rows.len(),
{
    if rows.len() == 0 {
        Seq::empty()
    } else {
        let earlier = besides(rows.drop_last(), a);
        if rows.last() == a {
            earlier
        } else {
            earlier.push(rows.last())
        }
    }
}

proof fn lemma_besides(rows: Seq<usize>, a: int, b: usize)
    ensures
        besides(rows, a).contains(b) <==> rows.contains(b) && b != a,
    decreases rows.len(),
{
    if rows.len() > 0 {
        let rest = rows.drop_last();
        let earlier = besides(rest, a);
        let all = besides(rows, a);
        lemma_besides(rest, a, b);
        if all.contains(b) {
            let q = all.index_of(b);
            if q < earlier.len() {
                assert(earlier[q] == b);
                let p = rest.index_of(b);
                assert(rows[p] == b);
            } else {
                assert(rows[rows.len() - 1] == b);
            }
        }
        if rows.contains(b) && b != a {
            let p = rows.index_of(b);
            if p < rest.len() {
                assert(rest[p] == b);
                let q = earlier.index_of(b);
                assert(all[q] == b);
            } else {
                assert(all.last() == b);
            }
        }
    }
}

/// The keys by which bridges are ordered.
pub open spec fn bridge_keys(bridges: Seq<Bridge>) -> Seq<i64> {
    Seq::new(bridges.len(), |i: int| rank_wide(bridges[i].2) as i64)
}

impl VectorStore {
    /// `sims` are the dot products of row `a` with the rows `others`.
    pub open spec fn are_row_scores<K: Numerics>(
        &self,
        k: &K,
        a: int,
        others: Seq<usize>,
        sims: Seq<Single>,
    ) -> bool {
        &&& sims.len() == others.len()
        &&& forall|q: int|
            0 <= q < sims.len() ==> is_dot(
                k,
                self.row(a),
                self.row(others[q] as int),
                #[trigger] sims[q],
            )
    }

    /// `partner` is the first of the rows `others`, other than row `a` itself, with the greatest
    /// dot product with row `a`, and that product; row 0, and 0, where no product is above 0.
    pub open spec fn is_partner<K: Numerics>(
        &self,
        k: &K,
        a: int,
        others: Seq<usize>,
        partner: (usize, Single),
    ) -> bool {
        exists|sims: Seq<Single>, best: Option<int>| #[trigger]
            self.are_row_scores(k, a, besides(others, a), sims) && #[trigger] is_first_best(
                sims,
                Some(ZERO),
                best,
            ) && partner == match best {
                Some(q) => (besides(others, a)[q], sims[q]),
                None => (0usize, ZERO),
            }
    }

    /// `partners` are the partners of the rows `rows` among the rows `others`.
    pub open spec fn are_partners<K: Numerics>(
        &self,
        k: &K,
        rows: Seq<usize>,
        others: Seq<usize>,
        partners: Seq<(usize, Single)>,
    ) -> bool {
        &&& partners.len() == rows.len()
        &&& forall|p: int|
            0 <= p < rows.len() ==> self.is_partner(
                k,
                rows[p] as int,
                others,
                #[trigger] partners[p],
            )
    }

    /// `bridge` is the row of the concept at `i` whose partner in the concept at `j` is the best,
    /// the last such row where there are several, with that partner; nothing, where their product
    /// is not above one half.
    pub open spec fn is_bridge<K: Numerics>(
        &self,
        k: &K,
        i: int,
        j: int,
        bridge: Option<Bridge>,
    ) -> bool {
        let rows = self.concept_index@[i].members@;
        let others = self.concept_index@[j].members@;
        exists|partners: Seq<(usize, Single)>, p: int|
            {
                &&& #[trigger] self.are_partners(k, rows, others, partners)
                &&& #[trigger] is_last_best(partners, p)
                &&& if exceeds(partners[p].1, HALF) {
                    &&& bridge matches Some(b)
                    &&& b.0 == rows[p]
                    &&& b.1 == partners[p].0
                    &&& is_to_four_places_wide(k, partners[p].1, b.2)
                } else {
                    bridge is None
                }
            }
    }

    /// `bridges` are the bridges between the concepts of each of `pairs`.
    pub open spec fn are_bridges<K: Numerics>(
        &self,
        k: &K,
        pairs: Seq<(usize, usize)>,
        bridges: Seq<Option<Bridge>>,
    ) -> bool {
        &&& bridges.len() == pairs.len()
        &&& forall|t: int|
            0 <= t < pairs.len() ==> self.is_bridge(
                k,
                pairs[t].0 as int,
                pairs[t].1 as int,
                #[trigger] bridges[t],
            )
    }

    /// `pair` shows `bridge`.
    pub open spec fn shows(&self, bridge: Bridge, pair: CrossPair) -> bool {
        &&& pair.a@ == self.names@[bridge.0 as int]@
        &&& pair.b@ == self.names@[bridge.1 as int]@
        &&& pair.similarity == bridge.2
        &&& strings(pair.concepts_a@) == first(self.tags()[bridge.0 as int], SHOWN_CONCEPTS as int)
        &&& strings(pair.concepts_b@) == first(self.tags()[bridge.1 as int], SHOWN_CONCEPTS as int)
    }

    /// `cross` shows the bridges between all pairs of concepts, the most similar first and equally
    /// similar ones in the order of the pairs.
    pub open spec fn is_cross<K: Numerics>(&self, k: &K, cross: Seq<CrossPair>) -> bool {
        exists|
            pairs: Seq<(usize, usize)>,
            bridges: Seq<Option<Bridge>>,
            order: Seq<usize>,
        |
            {
                &&& #[trigger] are_pairs(self.concept_index@.len() as int, pairs)
                &&& #[trigger] self.are_bridges(k, pairs, bridges)
                &&& #[trigger] is_ranking(bridge_keys(present(bridges)), order)
                &&& cross.len() == order.len()
                &&& forall|t: int|
                    0 <= t < cross.len() ==> self.shows(
                        present(bridges)[order[t] as int],
                        #[trigger] cross[t],
                    )
            }
    }

    /// What a partner rests on.
    proof fn partner_witness<K: Numerics>(
        &self,
        k: &K,
        a: int,
        others: Seq<usize>,
        partner: (usize, Single),
    ) -> (r: (Seq<Single>, Option<int>))
        requires
            self.is_partner(k, a, others, partner),
        ensures
            self.are_row_scores(k, a, besides(others, a), r.0),
            is_first_best(r.0, Some(ZERO), r.1),
            partner == match r.1 {
                Some(q) => (besides(others, a)[q], r.0[q]),
                None => (0usize, ZERO),
            },
    {
        choose|sims: Seq<Single>, best: Option<int>| #[trigger]
            self.are_row_scores(k, a, besides(others, a), sims) && #[trigger] is_first_best(
                sims,
                Some(ZERO),
                best,
            ) && partner == match best {
                Some(q) => (besides(others, a)[q], sims[q]),
                None => (0usize, ZERO),
            }
    }

    /// What a bridge rests on.
    proof fn bridge_witness<K: Numerics>(
        &self,
        k: &K,
        i: int,
        j: int,
        bridge: Option<Bridge>,
    ) -> (r: (Seq<(usize, Single)>, int))
        requires
            self.is_bridge(k, i, j, bridge),
        ensures
            self.are_partners(
                k,
                self.concept_index@[i].members@,
                self.concept_index@[j].members@,
                r.0,
            ),
            is_last_best(r.0, r.1),
            match bridge {
                Some(b) => {
                    &&& exceeds(r.0[r.1].1, HALF)
                    &&& b.0 == self.concept_index@[i].members@[r.1]
                    &&& b.1 == r.0[r.1].0
                    &&& is_to_four_places_wide(k, r.0[r.1].1, b.2)
                },
                None => !exceeds(r.0[r.1].1, HALF),
            },
    {
        let rows = self.concept_index@[i].members@;
        let others = self.concept_index@[j].members@;
        choose|partners: Seq<(usize, Single)>, p: int|
            {
                &&& #[trigger] self.are_partners(k, rows, others, partners)
                &&& #[trigger] is_last_best(partners, p)
                &&& if exceeds(partners[p].1, HALF) {
                    &&& bridge matches Some(b)
                    &&& b.0 == rows[p]
                    &&& b.1 == partners[p].0
                    &&& is_to_four_places_wide(k, partners[p].1, b.2)
                } else {
                    bridge is None
                }
            }
    }

    /// What the pairs rest on.
    proof fn cross_witness<K: Numerics>(&self, k: &K, cross: Seq<CrossPair>) -> (r: (
        Seq<(usize, usize)>,
        Seq<Option<Bridge>>,
        Seq<usize>,
    ))
        requires
            self.is_cross(k, cross),
        ensures
            are_pairs(self.concept_index@.len() as int, r.0),
            self.are_bridges(k, r.0, r.1),
            is_ranking(bridge_keys(present(r.1)), r.2),
            cross.len() == r.2.len(),
            forall|t: int|
                0 <= t < cross.len() ==> self.shows(
                    present(r.1)[r.2[t] as int],
                    #[trigger] cross[t],
                ),
    {
        choose|pairs: Seq<(usize, usize)>, bridges: Seq<Option<Bridge>>, order: Seq<usize>|
            {
                &&& #[trigger] are_pairs(self.concept_index@.len() as int, pairs)
                &&& #[trigger] self.are_bridges(k, pairs, bridges)
                &&& #[trigger] is_ranking(bridge_keys(present(bridges)), order)
                &&& cross.len() == order.len()
                &&& forall|t: int|
                    0 <= t < cross.len() ==> self.shows(
                        present(bridges)[order[t] as int],
                        #[trigger] cross[t],
                    )
            }
    }

    /// The best partner of row `a` among the rows `others`.
    fn partner<K: Numerics>(&self, k: &K, a: usize, others: &Vec<usize>) -> (r: (usize, Single))
        requires
            self.wf(),
            a < self.len,
            forall|q: int| 0 <= q < others@.len() ==> #[trigger] others@[q] < self.len,
        ensures
            self.is_partner(k, a as int, others@, r),
            r.0 < self.len,
    {
        let row = self.vector(a);
        let mut rest: Vec<usize> = Vec::new();
        let mut sims: Vec<Single> = Vec::new();
        let mut q: usize = 0;
        while q < others.len()
            invariant
                self.wf(),
                a < self.len,
                row@ == self.row(a as int),
                row@.len() == DIM,
                forall|q: int| 0 <= q < others@.len() ==> #[trigger] others@[q] < self.len,
                q <= others@.len(),
                rest@ == besides(others@.take(q as int), a as int),
                forall|s: int| 0 <= s < rest@.len() ==> #[trigger] rest@[s] < self.len,
                self.are_row_scores(k, a as int, rest@, sims@),
            decreases others@.len() - q,
        {
            let b = others[q];
            proof {
                assert(others@.take(q + 1).drop_last() == others@.take(q as int));
            }
            if b != a {
                sims.push(dot(k, row, self.vector(b)));
                rest.push(b);
            }
            q = q + 1;
        }
        let best = first_best(&sims, Some(ZERO));
        proof {
            assert(others@.take(q as int) == others@);
            assert(is_first_best(sims@, Some(ZERO), at(best)));
        }
        match best {
            Some(q) => (rest[q], sims[q]),
            None => (0, ZERO),
        }
    }

    proof fn lemma_members_are_rows(&self, e: int)
        requires
            self.wf(),
            0 <= e < self.concept_index@.len(),
        ensures
            forall|m: int|
                0 <= m < self.concept_index@[e].members@.len()
                    ==> #[trigger] self.concept_index@[e].members@[m] < self.len,
    {
        let members = self.concept_index@[e].members@;
        law_members_are_the_tagged_rows(self.tags(), self.concept_index@[e].name@);
        assert forall|m: int| 0 <= m < members.len() implies #[trigger] members[m]
            < self.len by {
            assert(members.contains(members[m]));
        }
    }

    /// The bridge between the concepts at `i` and `j`.
    fn bridge<K: Numerics>(&self, k: &K, i: usize, j: usize) -> (r: Option<Bridge>)
        requires
            self.wf(),
            i < self.concept_index@.len(),
            j < self.concept_index@.len(),
        ensures
            self.is_bridge(k, i as int, j as int, r),
            r matches Some(b) ==> b.0 < self.len && b.1 < self.len,
    {
        let rows = &self.concept_index[i].members;
        let others = &self.concept_index[j].members;
        proof {
            self.lemma_members_are_rows(i as int);
            self.lemma_members_are_rows(j as int);
        }
        let find_partner = |p: usize| -> (o: (usize, u32))
            requires
                p < rows@.len(),
            ensures
                self.is_partner(k, rows@[p as int] as int, others@, o),
                o.0 < self.len,
            { self.partner(k, rows[p], others) };
        let partners = scan(rows.len(), find_partner);
        proof {
            assert forall|p: int| 0 <= p < rows@.len() implies self.is_partner(
                k,
                rows@[p] as int,
                others@,
                #[trigger] partners@[p],
            ) && partners@[p].0 < self.len by {
                assert(partners@[(p as usize) - 0] == partners@[p]);
            }
            assert(self.are_partners(k, rows@, others@, partners@));
        }
        let p = last_best(&partners);
        let (partner, sim) = partners[p];
        if greater(sim, HALF) {
            Some((rows[p], partner, to_four_places_wide(k, sim)))
        } else {
            None
        }
    }

    /// `bridge`, as it is shown.
    fn show(&self, bridge: Bridge) -> (r: CrossPair)
        requires
            self.wf(),
            bridge.0 < self.len,
            bridge.1 < self.len,
        ensures
            self.shows(bridge, r),
    {
        CrossPair {
            a: self.names[bridge.0].clone(),
            b: self.names[bridge.1].clone(),
            similarity: bridge.2,
            concepts_a: first_strings(&self.concepts[bridge.0], SHOWN_CONCEPTS),
            concepts_b: first_strings(&self.concepts[bridge.1], SHOWN_CONCEPTS),
        }
    }
}

/// How an analysis is read out of a file.
pub trait AnalysisDecoder {
    /// The analysis that `content` spells out, or what is wrong with it.
    fn analysis(&self, content: &str) -> Result<AnalysisFile, String>;
}

/// `r` is what `d` reads out of `content`.
pub open spec fn analysed<D: AnalysisDecoder>(
    d: &D,
    content: Seq<char>,
    r: Result<AnalysisFile, String>,
) -> bool {
    exists|t: &str| t@ == content && #[trigger] call_ensures(D::analysis, (d, t), r)
}

impl ConceptAnalysis {
    /// The bridges between all pairs of concepts, the most similar first.
    pub fn compute_cross<K: Numerics>(k: &K, store: &VectorStore) -> (r: Vec<CrossPair>)
        requires
            store.wf(),
        ensures
            store.is_cross(k, r@),
    {
        let pairs = pairs_below(store.concept_index.len());
        let ghost mut bridges: Seq<Option<Bridge>> = Seq::empty();
        let mut found: Vec<Bridge> = Vec::new();
        let mut keys: Vec<i64> = Vec::new();
        let mut t: usize = 0;
        while t < pairs.len()
            invariant
                store.wf(),
                t <= pairs@.len(),
                are_pairs(store.concept_index@.len() as int, pairs@),
                bridges.len() == t,
                forall|s: int|
                    0 <= s < t ==> store.is_bridge(
                        k,
                        pairs@[s].0 as int,
                        pairs@[s].1 as int,
                        #[trigger] bridges[s],
                    ),
                found@ == present(bridges),
                keys@ == bridge_keys(found@),
                forall|s: int|
                    0 <= s < found@.len() ==> (#[trigger] found@[s]).0 < store.len && found@[s].1
                        < store.len,
            decreases pairs@.len() - t,
        {
            let (i, j) = pairs[t];
            let bridge = store.bridge(k, i, j);
            proof {
                assert(bridges.push(bridge).drop_last() =~= bridges);
                bridges = bridges.push(bridge);
            }
            if let Some(b) = bridge {
                found.push(b);
                keys.push(rank_of_wide(b.2));
                proof {
                    assert(keys@ =~= bridge_keys(found@));
                }
            }
            t = t + 1;
        }
        proof {
            assert(store.are_bridges(k, pairs@, bridges));
        }
        let order = ranking(&keys);
        let mut r: Vec<CrossPair> = Vec::new();
        let mut n: usize = 0;
        while n < order.len()
            invariant
                store.wf(),
                n <= order@.len(),
                is_ranking(keys@, order@),
                keys@ == bridge_keys(found@),
                forall|s: int|
                    0 <= s < found@.len() ==> (#[trigger] found@[s]).0 < store.len && found@[s].1
                        < store.len,
                r@.len() == n,
                forall|s: int|
                    0 <= s < n ==> store.shows(found@[order@[s] as int], #[trigger] r@[s]),
            decreases order@.len() - n,
        {
            r.push(store.show(found[order[n]]));
            n = n + 1;
        }
        proof {
            assert(is_ranking(bridge_keys(present(bridges)), order@));
        }
        r
    }

    /// The analysis that the file holds, where there is one; otherwise the bridges computed from
    /// `store`. `file` is what reading the file at `path` gave.
    pub fn load_or_compute<K: Numerics, D: AnalysisDecoder>(
        k: &K,
        d: &D,
        path: &str,
        file: Option<Result<String, String>>,
        store: &VectorStore,
    ) -> (r: Result<Self, String>)
        requires
            store.wf(),
        ensures
            match file {
                Some(Err(e)) => match r {
                    Ok(_) => false,
                    Err(said) => said@ == read_error(path@, e@),
                },
                Some(Ok(content)) => exists|outcome: Result<AnalysisFile, String>| #[trigger]
                    analysed(d, content@, outcome) && match (outcome, r) {
                        (Ok(held), Ok(analysis)) => analysis.cross == held.cross_pollination
                            && analysis.frontier == held.frontier,
                        (Err(e), Err(said)) => said@ == "parse analysis: "@ + e@,
                        _ => false,
                    },
                None => match r {
                    Ok(analysis) => store.is_cross(k, analysis.cross@)
                        && analysis.frontier@.len() == 0,
                    Err(_) => false,
                },
            },
    {
        match file {
            Some(Err(e)) => Err(describe_read_error(path, e.as_str())),
            Some(Ok(content)) => {
                let outcome = d.analysis(content.as_str());
                proof {
                    assert(analysed(d, content@, outcome));
                }
                match outcome {
                    Ok(held) => Ok(
                        ConceptAnalysis { cross: held.cross_pollination, frontier: held.frontier },
                    ),
                    Err(e) => {
                        let mut said = String::from_str("parse analysis: ");
                        said.append(e.as_str());
                        Err(said)
                    },
                }
            },
            None => Ok(
                ConceptAnalysis {
                    cross: ConceptAnalysis::compute_cross(k, store),
                    frontier: Vec::new(),
                },
            ),
        }
    }
}

proof fn lemma_partners_agree<K: Numerics>(
    k: &K,
    store: &VectorStore,
    a: int,
    others: Seq<usize>,
    x: (usize, Single),
    y: (usize, Single),
)
    requires
        functional(k),
        store.is_partner(k, a, others, x),
        store.is_partner(k, a, others, y),
    ensures
        x == y,
{
    let rest = besides(others, a);
    let (s1, b1) = store.partner_witness(k, a, others, x);
    let (s2, b2) = store.partner_witness(k, a, others, y);
    assert forall|q: int| 0 <= q < s1.len() implies s1[q] == s2[q] by {
        law_dot_is_determined(k, store.row(a), store.row(rest[q] as int), s1[q], s2[q]);
    }
    assert(s1 =~= s2);
    law_first_best_is_determined(s1, Some(ZERO), b1, b2);
}

proof fn lemma_partner_is_a_number<K: Numerics>(
    k: &K,
    store: &VectorStore,
    a: int,
    others: Seq<usize>,
    x: (usize, Single),
)
    requires
        store.is_partner(k, a, others, x),
    ensures
        !is_nan(x.1),
        rank(x.1) >= 0,
        exceeds(x.1, ZERO) ==> is_dot(k, store.row(a), store.row(x.0 as int), x.1)
            && others.contains(x.0) && x.0 != a,
{
    let rest = besides(others, a);
    let (sims, best) = store.partner_witness(k, a, others, x);
    if let Some(q) = best {
        assert(is_dot(k, store.row(a), store.row(rest[q] as int), sims[q]));
        assert(rest.contains(rest[q]));
        lemma_besides(others, a, rest[q]);
    }
}

proof fn lemma_partner_is_the_best<K: Numerics>(
    k: &K,
    store: &VectorStore,
    a: int,
    others: Seq<usize>,
    x: (usize, Single),
    b: usize,
    s: Single,
)
    requires
        functional(k),
        store.is_partner(k, a, others, x),
        others.contains(b),
        b != a,
        is_dot(k, store.row(a), store.row(b as int), s),
    ensures
        !exceeds(s, x.1),
{
    let rest = besides(others, a);
    let (sims, best) = store.partner_witness(k, a, others, x);
    lemma_besides(others, a, b);
    let q = rest.index_of(b);
    law_dot_is_determined(k, store.row(a), store.row(rest[q] as int), s, sims[q]);
}

/// A bridge joins a row that carries the one concept with another row, which carries the other.
pub proof fn law_bridge_joins_the_concepts<K: Numerics>(
    k: &K,
    store: &VectorStore,
    i: int,
    j: int,
    bridge: Bridge,
)
    requires
        store.wf(),
        0 <= i < store.concept_index@.len(),
        0 <= j < store.concept_index@.len(),
        store.is_bridge(k, i, j, Some(bridge)),
    ensures
        bridge.0 < store.len,
        bridge.1 < store.len,
        store.carries(bridge.0 as int, store.concept_index@[i].name@),
        store.carries(bridge.1 as int, store.concept_index@[j].name@),
        bridge.0 != bridge.1,
{
    let rows = store.concept_index@[i].members@;
    let others = store.concept_index@[j].members@;
    let (partners, p) = store.bridge_witness(k, i, j, Some(bridge));
    law_members_are_the_tagged_rows(store.tags(), store.concept_index@[i].name@);
    law_members_are_the_tagged_rows(store.tags(), store.concept_index@[j].name@);
    assert(rows.contains(rows[p]));
    assert(store.is_partner(k, rows[p] as int, others, partners[p]));
    lemma_partner_is_a_number(k, store, rows[p] as int, others, partners[p]);
}

/// Where each operation has one outcome: the bridge between two concepts has the greatest dot
/// product of all pairs of different rows, one of each concept, and where there is no bridge no
/// such pair has one above one half. A pair's product `s` is compared with that of the bridge,
/// `sim`.
pub proof fn law_bridge_is_the_best<K: Numerics>(
    k: &K,
    store: &VectorStore,
    i: int,
    j: int,
    bridge: Option<Bridge>,
    p: int,
    q: int,
    s: Single,
)
    requires
        functional(k),
        store.wf(),
        0 <= i < store.concept_index@.len(),
        0 <= j < store.concept_index@.len(),
        store.is_bridge(k, i, j, bridge),
        0 <= p < store.concept_index@[i].members@.len(),
        0 <= q < store.concept_index@[j].members@.len(),
        store.concept_index@[i].members@[p] != store.concept_index@[j].members@[q],
        is_dot(
            k,
            store.row(store.concept_index@[i].members@[p] as int),
            store.row(store.concept_index@[j].members@[q] as int),
            s,
        ),
    ensures
        match bridge {
            Some(b) => exists|sim: Single| #[trigger]
                is_dot(k, store.row(b.0 as int), store.row(b.1 as int), sim)
                    && is_to_four_places_wide(k, sim, b.2) && exceeds(sim, HALF) && !exceeds(
                    s,
                    sim,
                ),
            None => !exceeds(s, HALF),
        },
{
    let rows = store.concept_index@[i].members@;
    let others = store.concept_index@[j].members@;
    let (partners, t) = store.bridge_witness(k, i, j, bridge);
    assert(store.is_partner(k, rows[p] as int, others, partners[p]));
    assert(store.is_partner(k, rows[t] as int, others, partners[t]));
    lemma_partner_is_a_number(k, store, rows[p] as int, others, partners[p]);
    lemma_partner_is_a_number(k, store, rows[t] as int, others, partners[t]);
    assert(others.contains(others[q]));
    lemma_partner_is_the_best(k, store, rows[p] as int, others, partners[p], others[q], s);
    assert(rank(partners[p].1) <= rank(partners[t].1));
}

/// The pairs of numbers below `n` are determined.
pub proof fn law_pairs_are_determined(
    n: int,
    a: Seq<(usize, usize)>,
    b: Seq<(usize, usize)>,
)
    requires
        are_pairs(n, a),
        are_pairs(n, b),
    ensures
        a == b,
    decreases a.len(),
{
    if a.len() <= b.len() {
        lemma_pairs_agree(n, a, b, a.len());
        if a.len() < b.len() {
            let m = a.len() as int;
            assert(a.contains((b[m].0, b[m].1)));
            let x = a.index_of(b[m]);
            assert(a.take(m)[x] == b.take(m)[x]);
            assert(b[x] == b[m]);
        }
        assert(a.take(a.len() as int) =~= a);
        assert(b.take(a.len() as int) =~= b);
    } else {
        law_pairs_are_determined(n, b, a);
    }
}

proof fn lemma_pairs_agree(n: int, a: Seq<(usize, usize)>, b: Seq<(usize, usize)>, m: nat)
    requires
        are_pairs(n, a),
        are_pairs(n, b),
        m <= a.len(),
        m <= b.len(),
    ensures
        a.take(m as int) == b.take(m as int),
    decreases m,
{
    if m > 0 {
        let l = m - 1;
        lemma_pairs_agree(n, a, b, l as nat);
        assert forall|i: int| 0 <= i < l implies a[i] == b[i] by {
            assert(a.take(l)[i] == b.take(l)[i]);
        }
        assert(b.contains((a[l].0, a[l].1)));
        assert(a.contains((b[l].0, b[l].1)));
        let x = b.index_of(a[l]);
        let y = a.index_of(b[l]);
        if a[l] != b[l] {
            if x < l {
                assert(a[x] == a[l]);
            }
            if y < l {
                assert(b[y] == b[l]);
            }
        }
        assert(a.take(m as int) =~= b.take(m as int));
    }
}

/// The similarity of the pairs never rises from one to the next.
pub proof fn law_cross_descends<K: Numerics>(
    k: &K,
    store: &VectorStore,
    cross: Seq<CrossPair>,
    s: int,
    t: int,
)
    requires
        store.is_cross(k, cross),
        0 <= s <= t < cross.len(),
    ensures
        rank_wide(cross[s].similarity) >= rank_wide(cross[t].similarity),
{
    let (pairs, bridges, order) = store.cross_witness(k, cross);
    let found = present(bridges);
    let keys = bridge_keys(found);
    assert(store.shows(found[order[s] as int], cross[s]));
    assert(store.shows(found[order[t] as int], cross[t]));
    if s < t {
        assert(before(keys, order[s] as int, order[t] as int));
    }
}

/// Two pairs show the same.
pub open spec fn same_pair(x: CrossPair, y: CrossPair) -> bool {
    &&& x.a@ == y.a@
    &&& x.b@ == y.b@
    &&& x.similarity == y.similarity
    &&& strings(x.concepts_a@) == strings(y.concepts_a@)
    &&& strings(x.concepts_b@) == strings(y.concepts_b@)
}

/// Where each operation has one outcome, so have the pairs that bridge the concepts.
pub proof fn law_cross_is_determined<K: Numerics>(
    k: &K,
    store: &VectorStore,
    x: Seq<CrossPair>,
    y: Seq<CrossPair>,
)
    requires
        functional(k),
        store.is_cross(k, x),
        store.is_cross(k, y),
    ensures
        x.len() == y.len(),
        forall|t: int| 0 <= t < x.len() ==> same_pair(#[trigger] x[t], y[t]),
{
    let (pairs1, bridges1, order1) = store.cross_witness(k, x);
    let (pairs2, bridges2, order2) = store.cross_witness(k, y);
    law_pairs_are_determined(store.concept_index@.len() as int, pairs1, pairs2);
    assert forall|t: int| 0 <= t < bridges1.len() implies bridges1[t] == bridges2[t] by {
        let i = pairs1[t].0 as int;
        let j = pairs1[t].1 as int;
        assert(store.is_bridge(k, i, j, bridges1[t]));
        assert(store.is_bridge(k, i, j, bridges2[t]));
        lemma_bridges_agree(k, store, i, j, bridges1[t], bridges2[t]);
    }
    assert(bridges1 =~= bridges2);
    law_ranking_is_determined(bridge_keys(present(bridges1)), order1, order2);
    assert forall|t: int| 0 <= t < x.len() implies same_pair(#[trigger] x[t], y[t]) by {
        assert(store.shows(present(bridges1)[order1[t] as int], x[t]));
        assert(store.shows(present(bridges2)[order2[t] as int], y[t]));
    }
}

proof fn lemma_bridges_agree<K: Numerics>(
    k: &K,
    store: &VectorStore,
    i: int,
    j: int,
    x: Option<Bridge>,
    y: Option<Bridge>,
)
    requires
        functional(k),
        store.is_bridge(k, i, j, x),
        store.is_bridge(k, i, j, y),
    ensures
        x == y,
{
    let rows = store.concept_index@[i].members@;
    let others = store.concept_index@[j].members@;
    let (partners1, p1) = store.bridge_witness(k, i, j, x);
    let (partners2, p2) = store.bridge_witness(k, i, j, y);
    assert forall|p: int| 0 <= p < partners1.len() implies partners1[p] == partners2[p] by {
        assert(store.is_partner(k, rows[p] as int, others, partners1[p]));
        assert(store.is_partner(k, rows[p] as int, others, partners2[p]));
        lemma_partners_agree(k, store, rows[p] as int, others, partners1[p], partners2[p]);
    }
    assert(partners1 =~= partners2);
    law_last_best_is_determined(partners1, p1, p2);
    if exceeds(partners1[p1].1, HALF) {
        let a = x->0;
        let b = y->0;
        law_wide_four_places_are_determined(k, partners1[p1].1, a.2, b.2);
    }
}

/// The pairs of concepts that are looked at are all pairs, each once, the lower place first.
pub proof fn law_all_pairs_are_looked_at(n: usize, pairs: Vec<(usize, usize)>)
    requires
        call_ensures(pairs_below, (n,), pairs),
    ensures
        forall|t: int| 0 <= t < pairs@.len() ==> (#[trigger] pairs@[t]).0 < pairs@[t].1 < n,
        forall|i: usize, j: usize| i < j < n ==> #[trigger] pairs@.contains((i, j)),
        forall|s: int, t: int|
            0 <= s < t < pairs@.len() ==> #[trigger] pairs@[s] != #[trigger] pairs@[t],
{
}

/// What the pairs that are computed rest on: the pairs of concepts, their bridges, the order in which
/// they are shown, and the places of the bridges that are there.
#[verifier::opaque]
spec fn is_layout<K: Numerics>(
    k: &K,
    store: &VectorStore,
    cross: Seq<CrossPair>,
    pairs: Seq<(usize, usize)>,
    bridges: Seq<Option<Bridge>>,
    order: Seq<usize>,
    at: Seq<int>,
) -> bool {
    let found = present(bridges);
    &&& are_pairs(store.concept_index@.len() as int, pairs)
    &&& store.are_bridges(k, pairs, bridges)
    &&& is_ranking(bridge_keys(found), order)
    &&& cross.len() == order.len()
    &&& forall|t: int|
        0 <= t < cross.len() ==> store.shows(found[order[t] as int], #[trigger] cross[t])
    &&& at.len() == found.len()
    &&& forall|j: int|
        0 <= j < at.len() ==> 0 <= #[trigger] at[j] < bridges.len() && bridges[at[j]] == Some(
            found[j],
        )
    &&& forall|i: int, j: int| 0 <= i < j < at.len() ==> #[trigger] at[i] < #[trigger] at[j]
    &&& forall|i: int| 0 <= i < bridges.len() && (#[trigger] bridges[i]) is Some ==> at.contains(i)
}

/// The dot product of the rows of a bridge.
spec fn bridge_product<K: Numerics>(k: &K, store: &VectorStore, bridge: Bridge) -> Single {
    choose|sim: Single| #[trigger]
        is_dot(k, store.row(bridge.0 as int), store.row(bridge.1 as int), sim)
            && is_to_four_places_wide(k, sim, bridge.2) && exceeds(sim, HALF)
}

proof fn lemma_bridge_product<K: Numerics>(
    k: &K,
    store: &VectorStore,
    i: int,
    j: int,
    bridge: Bridge,
)
    requires
        store.is_bridge(k, i, j, Some(bridge)),
    ensures
        is_dot(
            k,
            store.row(bridge.0 as int),
            store.row(bridge.1 as int),
            bridge_product(k, store, bridge),
        ),
        is_to_four_places_wide(k, bridge_product(k, store, bridge), bridge.2),
        exceeds(bridge_product(k, store, bridge), HALF),
{
    let rows = store.concept_index@[i].members@;
    let others = store.concept_index@[j].members@;
    let (partners, p) = store.bridge_witness(k, i, j, Some(bridge));
    assert(store.is_partner(k, rows[p] as int, others, partners[p]));
    lemma_partner_is_a_number(k, store, rows[p] as int, others, partners[p]);
}

proof fn lemma_entry<K: Numerics>(
    k: &K,
    store: &VectorStore,
    cross: Seq<CrossPair>,
    pairs: Seq<(usize, usize)>,
    bridges: Seq<Option<Bridge>>,
    order: Seq<usize>,
    at: Seq<int>,
    t: int,
)
    requires
        is_layout(k, store, cross, pairs, bridges, order, at),
        0 <= t < cross.len(),
    ensures
        ({
            let q = at[order[t] as int];
            let b = present(bridges)[order[t] as int];
            &&& 0 <= order[t] < present(bridges).len()
            &&& 0 <= q < pairs.len()
            &&& pairs[q].0 < pairs[q].1 < store.concept_index@.len()
            &&& store.is_bridge(k, pairs[q].0 as int, pairs[q].1 as int, Some(b))
            &&& store.shows(b, cross[t])
        }),
{
    reveal(is_layout);
    let q = at[order[t] as int];
    let b = present(bridges)[order[t] as int];
    assert(bridges[q] == Some(b));
    assert(store.is_bridge(k, pairs[q].0 as int, pairs[q].1 as int, bridges[q]));
    assert(store.shows(b, cross[t]));
}

proof fn lemma_entries_are_ordered<K: Numerics>(
    k: &K,
    store: &VectorStore,
    cross: Seq<CrossPair>,
    pairs: Seq<(usize, usize)>,
    bridges: Seq<Option<Bridge>>,
    order: Seq<usize>,
    at: Seq<int>,
    s: int,
    t: int,
)
    requires
        is_layout(k, store, cross, pairs, bridges, order, at),
        0 <= s < t < cross.len(),
    ensures
        ({
            let x = pairs[at[order[s] as int]];
            let y = pairs[at[order[t] as int]];
            &&& x.0 != y.0 || x.1 != y.1
            &&& {
                ||| rank_wide(cross[s].similarity) > rank_wide(cross[t].similarity)
                ||| rank_wide(cross[s].similarity) == rank_wide(cross[t].similarity) && (x.0 < y.0
                    || (x.0 == y.0 && x.1 < y.1))
            }
        }),
{
    lemma_entry(k, store, cross, pairs, bridges, order, at, s);
    lemma_entry(k, store, cross, pairs, bridges, order, at, t);
    reveal(is_layout);
    let a = order[s] as int;
    let b = order[t] as int;
    assert(before(bridge_keys(present(bridges)), a, b));
    if a < b {
        assert(at[a] < at[b]);
    } else {
        assert(at[b] < at[a]);
    }
}

proof fn lemma_entry_is_there<K: Numerics>(
    k: &K,
    store: &VectorStore,
    cross: Seq<CrossPair>,
    pairs: Seq<(usize, usize)>,
    bridges: Seq<Option<Bridge>>,
    order: Seq<usize>,
    at: Seq<int>,
    i: int,
    j: int,
    a: int,
    b: int,
    s: Single,
) -> (t: int)
    requires
        is_layout(k, store, cross, pairs, bridges, order, at),
        functional(k),
        store.wf(),
        0 <= i < j < store.concept_index@.len(),
        0 <= a < store.len,
        0 <= b < store.len,
        a != b,
        store.carries(a, store.concept_index@[i].name@),
        store.carries(b, store.concept_index@[j].name@),
        is_dot(k, store.row(a), store.row(b), s),
        exceeds(s, HALF),
    ensures
        0 <= t < cross.len(),
        pairs[at[order[t] as int]].0 == i,
        pairs[at[order[t] as int]].1 == j,
{
    reveal(is_layout);
    assert(store.concept_index@.len() == store.concept_index.len());
    assert(pairs.contains((i as usize, j as usize)));
    let q = pairs.index_of((i as usize, j as usize));
    assert(store.is_bridge(k, pairs[q].0 as int, pairs[q].1 as int, bridges[q]));
    lemma_no_pair_is_better(k, store, i, j, bridges[q], a, b, s);
    assert(bridges[q] is Some);
    let p = at.index_of(q);
    assert(order.contains(p as usize));
    order.index_of(p as usize)
}

/// The pairs that are computed are, for every two concepts, the most similar pair of different rows
/// of the one and of the other, wherever that has a dot product above one half; and nothing else.
///
/// Entry `t` is for the concepts at `w.0[t]`, and no two entries are for the same two. It pairs the
/// rows `w.1[t]`, which carry one each, and their dot product is `w.2[t]`: no pair of different rows
/// of these concepts has a greater one, and of pairs that are level it is the one with the last row
/// of the first concept and, for this row, the first of the second. Where two different rows carry two concepts and have a
/// product above one half, there is an entry for these concepts. The entries descend by the
/// similarity that they show, and entries that are level stand in the order of the concepts.
#[verifier::rlimit(40)]
pub proof fn law_every_two_concepts_are_bridged<K: Numerics>(
    k: &K,
    store: &VectorStore,
    cross: Seq<CrossPair>,
) -> (w: (Seq<(int, int)>, Seq<(int, int)>, Seq<Single>))
    requires
        functional(k),
        store.wf(),
        store.is_cross(k, cross),
    ensures
        ({
            let index = store.concept_index@;
            &&& w.0.len() == cross.len()
            &&& w.1.len() == cross.len()
            &&& w.2.len() == cross.len()
            &&& forall|t: int|
                0 <= t < cross.len() ==> {
                    &&& 0 <= (#[trigger] w.0[t]).0 < w.0[t].1 < index.len()
                    &&& 0 <= w.1[t].0 < store.len
                    &&& 0 <= w.1[t].1 < store.len
                    &&& w.1[t].0 != w.1[t].1
                    &&& store.carries(w.1[t].0, index[w.0[t].0].name@)
                    &&& store.carries(w.1[t].1, index[w.0[t].1].name@)
                    &&& is_dot(k, store.row(w.1[t].0), store.row(w.1[t].1), w.2[t])
                    &&& exceeds(w.2[t], HALF)
                    &&& is_to_four_places_wide(k, w.2[t], cross[t].similarity)
                    &&& cross[t].a@ == store.names@[w.1[t].0]@
                    &&& cross[t].b@ == store.names@[w.1[t].1]@
                    &&& strings(cross[t].concepts_a@) == first(
                        strings(store.concepts@[w.1[t].0]@),
                        4,
                    )
                    &&& strings(cross[t].concepts_b@) == first(
                        strings(store.concepts@[w.1[t].1]@),
                        4,
                    )
                }
            &&& forall|s: int, t: int|
                0 <= s < t < cross.len() ==> {
                    &&& #[trigger] w.0[s] != #[trigger] w.0[t]
                    &&& {
                        ||| rank_wide(cross[s].similarity) > rank_wide(cross[t].similarity)
                        ||| rank_wide(cross[s].similarity) == rank_wide(cross[t].similarity) && (
                        w.0[s].0 < w.0[t].0 || (w.0[s].0 == w.0[t].0 && w.0[s].1 < w.0[t].1))
                    }
                }
            &&& forall|t: int, a: int, b: int, s: Single|
                #![trigger w.0[t], is_dot(k, store.row(a), store.row(b), s)]
                0 <= t < cross.len() && 0 <= a < store.len && 0 <= b < store.len && a != b
                    && store.carries(a, index[w.0[t].0].name@) && store.carries(
                    b,
                    index[w.0[t].1].name@,
                ) && is_dot(k, store.row(a), store.row(b), s) ==> {
                    &&& !exceeds(s, w.2[t])
                    &&& rank(s) == rank(w.2[t]) ==> {
                        ||| a < w.1[t].0
                        ||| a == w.1[t].0 && w.1[t].1 <= b
                    }
                }
            &&& forall|i: int, j: int, a: int, b: int, s: Single|
                #![trigger store.carries(a, index[i].name@), store.carries(b, index[j].name@), is_dot(k, store.row(a), store.row(b), s)]
                0 <= i < j < index.len() && 0 <= a < store.len && 0 <= b < store.len && a != b
                    && store.carries(a, index[i].name@) && store.carries(b, index[j].name@)
                    && is_dot(k, store.row(a), store.row(b), s) && exceeds(s, HALF)
                    ==> w.0.contains((i, j))
        }),
{
    let index = store.concept_index@;
    let (pairs, bridges, order) = store.cross_witness(k, cross);
    let found = present(bridges);
    let at = law_present_keeps_the_order(bridges);
    assert(is_layout(k, store, cross, pairs, bridges, order, at)) by {
        reveal(is_layout);
    }
    let concepts = Seq::new(
        cross.len(),
        |t: int| (pairs[at[order[t] as int]].0 as int, pairs[at[order[t] as int]].1 as int),
    );
    let rows = Seq::new(
        cross.len(),
        |t: int| (found[order[t] as int].0 as int, found[order[t] as int].1 as int),
    );
    let sims = Seq::new(
        cross.len(),
        |t: int| bridge_product(k, store, found[order[t] as int]),
    );
    assert forall|t: int| 0 <= t < cross.len() implies {
        &&& 0 <= (#[trigger] concepts[t]).0 < concepts[t].1 < index.len()
        &&& 0 <= rows[t].0 < store.len
        &&& 0 <= rows[t].1 < store.len
        &&& rows[t].0 != rows[t].1
        &&& store.carries(rows[t].0, index[concepts[t].0].name@)
        &&& store.carries(rows[t].1, index[concepts[t].1].name@)
        &&& is_dot(k, store.row(rows[t].0), store.row(rows[t].1), sims[t])
        &&& exceeds(sims[t], HALF)
        &&& is_to_four_places_wide(k, sims[t], cross[t].similarity)
        &&& cross[t].a@ == store.names@[rows[t].0]@
        &&& cross[t].b@ == store.names@[rows[t].1]@
        &&& strings(cross[t].concepts_a@) == first(strings(store.concepts@[rows[t].0]@), 4)
        &&& strings(cross[t].concepts_b@) == first(strings(store.concepts@[rows[t].1]@), 4)
    } by {
        let b = found[order[t] as int];
        lemma_entry(k, store, cross, pairs, bridges, order, at, t);
        law_bridge_joins_the_concepts(k, store, concepts[t].0, concepts[t].1, b);
        lemma_bridge_product(k, store, concepts[t].0, concepts[t].1, b);
        assert(store.tags()[rows[t].0] == strings(store.concepts@[rows[t].0]@));
        assert(store.tags()[rows[t].1] == strings(store.concepts@[rows[t].1]@));
    }
    assert forall|s: int, t: int| 0 <= s < t < cross.len() implies {
        &&& #[trigger] concepts[s] != #[trigger] concepts[t]
        &&& {
            ||| rank_wide(cross[s].similarity) > rank_wide(cross[t].similarity)
            ||| rank_wide(cross[s].similarity) == rank_wide(cross[t].similarity) && (concepts[s].0
                < concepts[t].0 || (concepts[s].0 == concepts[t].0 && concepts[s].1
                < concepts[t].1))
        }
    } by {
        lemma_entries_are_ordered(k, store, cross, pairs, bridges, order, at, s, t);
    }
    assert forall|t: int, a: int, b: int, s: Single|
        #![trigger concepts[t], is_dot(k, store.row(a), store.row(b), s)]
        0 <= t < cross.len() && 0 <= a < store.len && 0 <= b < store.len && a != b
            && store.carries(a, index[concepts[t].0].name@) && store.carries(
            b,
            index[concepts[t].1].name@,
        ) && is_dot(k, store.row(a), store.row(b), s) implies {
        &&& !exceeds(s, sims[t])
        &&& rank(s) == rank(sims[t]) ==> {
            ||| a < rows[t].0
            ||| a == rows[t].0 && rows[t].1 <= b
        }
    } by {
        let bridge = found[order[t] as int];
        lemma_entry(k, store, cross, pairs, bridges, order, at, t);
        let i = concepts[t].0;
        let j = concepts[t].1;
        let sim = lemma_no_pair_is_better(k, store, i, j, Some(bridge), a, b, s);
        lemma_bridge_product(k, store, i, j, bridge);
        law_dot_is_determined(k, store.row(rows[t].0), store.row(rows[t].1), sim, sims[t]);
    }
    assert forall|i: int, j: int, a: int, b: int, s: Single|
        #![trigger store.carries(a, index[i].name@), store.carries(b, index[j].name@), is_dot(k, store.row(a), store.row(b), s)]
        0 <= i < j < index.len() && 0 <= a < store.len && 0 <= b < store.len && a != b
            && store.carries(a, index[i].name@) && store.carries(b, index[j].name@) && is_dot(
            k,
            store.row(a),
            store.row(b),
            s,
        ) && exceeds(s, HALF) implies concepts.contains((i, j)) by {
        let t = lemma_entry_is_there(
            k,
            store,
            cross,
            pairs,
            bridges,
            order,
            at,
            i,
            j,
            a,
            b,
            s,
        );
        assert(concepts[t] == (i, j));
    }
    (concepts, rows, sims)
}

proof fn lemma_besides_ascends(rows: Seq<usize>, a: int)
    requires
        ascending(rows),
    ensures
        ascending(besides(rows, a)),
    decreases rows.len(),
{
    if rows.len() > 0 {
        let rest = rows.drop_last();
        let earlier = besides(rest, a);
        let all = besides(rows, a);
        lemma_besides_ascends(rest, a);
        assert forall|x: int, y: int| 0 <= x < y < all.len() implies #[trigger] all[x]
            < #[trigger] all[y] by {
            assert(earlier[x] == all[x]);
            if y < earlier.len() {
                assert(earlier[y] == all[y]);
            } else {
                assert(earlier.contains(earlier[x]));
                lemma_besides(rest, a, earlier[x]);
                let z = rest.index_of(earlier[x]);
                assert(rows[z] < rows[rows.len() - 1]);
            }
        }
    }
}

/// Of partners that are level, the first is taken.
proof fn lemma_partner_is_the_first<K: Numerics>(
    k: &K,
    store: &VectorStore,
    a: int,
    others: Seq<usize>,
    x: (usize, Single),
    b: usize,
    s: Single,
)
    requires
        functional(k),
        ascending(others),
        store.is_partner(k, a, others, x),
        exceeds(x.1, ZERO),
        others.contains(b),
        b != a,
        is_dot(k, store.row(a), store.row(b as int), s),
        rank(s) == rank(x.1),
    ensures
        x.0 <= b,
{
    let rest = besides(others, a);
    let (sims, best) = store.partner_witness(k, a, others, x);
    lemma_besides(others, a, b);
    lemma_besides_ascends(others, a);
    let q = rest.index_of(b);
    assert(is_dot(k, store.row(a), store.row(rest[q] as int), sims[q]));
    law_dot_is_determined(k, store.row(a), store.row(rest[q] as int), s, sims[q]);
    if let Some(p) = best {
        if q < p {
            assert(is_nan(sims[q]) || exceeds(sims[p], sims[q]));
        }
        if p < q {
            assert(rest[p] < rest[q]);
        }
    }
}

#[verifier::rlimit(40)]
proof fn lemma_no_pair_is_better<K: Numerics>(
    k: &K,
    store: &VectorStore,
    i: int,
    j: int,
    bridge: Option<Bridge>,
    a: int,
    b: int,
    s: Single,
) -> (sim: Single)
    requires
        functional(k),
        store.wf(),
        0 <= i < store.concept_index@.len(),
        0 <= j < store.concept_index@.len(),
        store.is_bridge(k, i, j, bridge),
        0 <= a < store.len,
        0 <= b < store.len,
        a != b,
        store.carries(a, store.concept_index@[i].name@),
        store.carries(b, store.concept_index@[j].name@),
        is_dot(k, store.row(a), store.row(b), s),
    ensures
        match bridge {
            Some(x) => {
                &&& is_dot(k, store.row(x.0 as int), store.row(x.1 as int), sim)
                &&& !exceeds(s, sim)
                &&& rank(s) == rank(sim) ==> a < x.0 || (a == x.0 && x.1 <= b)
            },
            None => !exceeds(s, HALF),
        },
{
    let rows = store.concept_index@[i].members@;
    let others = store.concept_index@[j].members@;
    law_members_are_the_tagged_rows(store.tags(), store.concept_index@[i].name@);
    law_members_are_the_tagged_rows(store.tags(), store.concept_index@[j].name@);
    assert(rows.contains(a as usize) && others.contains(b as usize));
    let p = rows.index_of(a as usize);
    let (partners, t) = store.bridge_witness(k, i, j, bridge);
    assert(store.is_partner(k, rows[p] as int, others, partners[p]));
    assert(store.is_partner(k, rows[t] as int, others, partners[t]));
    lemma_partner_is_a_number(k, store, rows[p] as int, others, partners[p]);
    lemma_partner_is_a_number(k, store, rows[t] as int, others, partners[t]);
    lemma_partner_is_the_best(k, store, a, others, partners[p], b as usize, s);
    assert(rank(partners[p].1) <= rank(partners[t].1));
    if bridge is Some && rank(s) == rank(partners[t].1) {
        if p > t {
            assert(rank(partners[p].1) < rank(partners[t].1));
        }
        if p < t {
            assert(rows[p] < rows[t]);
        } else {
            lemma_partner_is_the_first(k, store, a, others, partners[p], b as usize, s);
        }
    }
    partners[t].1
}

/// The pairs are computed from the store that is given.
pub proof fn law_cross_is_that_of_the_store<K: Numerics>(
    k: &K,
    store: &VectorStore,
    r: Vec<CrossPair>,
)
    requires
        store.wf(),
        call_ensures(ConceptAnalysis::compute_cross::<K>, (k, store), r),
    ensures
        store.is_cross(k, r@),
{
}

/// Where there is no file, the analysis holds the pairs computed from the store, and no frontier.
/// A file that cannot be read gives the path and what is wrong; one that can is handed whole to the
/// decoder, and gives the lists that it decodes to, or what is wrong with it.
pub proof fn law_analysis_is_loaded_or_computed<K: Numerics, D: AnalysisDecoder>(
    k: &K,
    d: &D,
    path: &str,
    file: Option<Result<String, String>>,
    store: &VectorStore,
    r: Result<ConceptAnalysis, String>,
)
    requires
        store.wf(),
        call_ensures(
            ConceptAnalysis::load_or_compute::<K, D>,
            (k, d, path, file, store),
            r,
        ),
    ensures
        file is None ==> (r matches Ok(analysis) && store.is_cross(k, analysis.cross@)
            && analysis.frontier@.len() == 0),
        file matches Some(Err(e)) ==> (r matches Err(told) && told@ == "read "@ + path@ + ": "@
            + e@),
        file matches Some(Ok(content)) ==> exists|t: &str, outcome: Result<AnalysisFile, String>|
            t@ == content@ && #[trigger] call_ensures(D::analysis, (d, t), outcome) && match (
                outcome,
                r,
            ) {
                (Ok(held), Ok(analysis)) => analysis.cross == held.cross_pollination
                    && analysis.frontier == held.frontier,
                (Err(e), Err(told)) => told@ == "parse analysis: "@ + e@,
                _ => false,
            },
{
}

} // verus!
