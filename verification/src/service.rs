//! What the server answers.

use vstd::prelude::*;
use vstd::slice::slice_subrange;
use vstd::string::StringExecFns;
use vstd::utf8::{decode_utf8, encode_utf8, encode_utf8_decode_utf8, is_char_boundary};

use crate::concepts::{ConceptAnalysis, CrossPair, FrontierEntry};
use crate::index::{find, law_members_are_the_tagged_rows, lemma_absent, members_of};
use crate::numerics::{
    functional, is_to_four_places, keeps_order, law_four_places_keep_the_order, spelled,
    to_four_places, Numerics,
};
use crate::scalar::{exceeds, rank, Single, HALF, ZERO};
use crate::search::{
    found_name, law_answer_is_determined, law_cross_pollination_is_determined,
    law_results_are_rows, law_results_descend, law_strangers_are_outside,
};
use crate::text::{
    characters, decimal, first, joined, law_join_splits_back, push_decimal, split, split_on,
    strings, text, trim, trimmed,
};
use crate::vectors::{
    law_row_carries_what_its_list_holds, said, SearchHit, VectorStore, DIM,
};

verus! {

/// The number of results where none is asked for.
pub const DEFAULT_RESULTS: usize = 10;

/// The most results that an answer holds.
pub const MOST_RESULTS: usize = 100;

/// The most rows outside the concept that an answer holds.
pub const MOST_STRANGERS: usize = 5;

/// The most members of a concept that are shown.
pub const SHOWN_MEMBERS: usize = 50;

/// The most pairs, or frontier entries, that are shown.
pub const SHOWN_ANALYSIS: usize = 20;

/// The most bytes of a query that an error quotes.
pub const QUOTED: usize = 80;

/// A search that was asked for.
pub struct SearchRequest {
    pub vector: [Single; DIM],
    pub top_k: usize,
}

/// What is wrong with a request for a search.
pub enum RequestError {
    /// No query is given.
    MissingQuery,
    /// The query is not a vector.
    NotAVector,
}

/// The answer to a search.
pub struct SearchResponse {
    pub query: String,
    pub concept: Option<String>,
    pub concept_confidence: Single,
    pub results: Vec<SearchHit>,
    pub cross_pollination: Vec<SearchHit>,
    pub total_crates: usize,
}

/// A concept and some of its members.
pub struct ConceptDetail {
    pub concept: String,
    pub count: usize,
    pub members_sample: Vec<String>,
}

/// Whether `q` stands between square brackets.
pub open spec fn is_array(q: Seq<char>) -> bool {
    let t = trimmed(q);
    t.len() >= 2 && t[0] == '[' && t.last() == ']'
}

/// The list of numbers in `q`: what stands between square brackets, where `q` is such an array,
/// and otherwise all of `q`.
pub open spec fn vector_body(q: Seq<char>) -> Seq<char> {
    if is_array(q) {
        trimmed(q).subrange(1, trimmed(q).len() - 1)
    } else {
        q
    }
}

/// The texts of the numbers in `q`.
pub open spec fn vector_parts(q: Seq<char>) -> Seq<Seq<char>> {
    split_on(vector_body(q), ',')
}

/// `r` is the vector that `q` spells out: as many numbers as a vector has components, with commas
/// between them; nothing, where their number is another or one of them cannot be read.
pub open spec fn is_vector<K: Numerics>(k: &K, q: Seq<char>, r: Option<Seq<Single>>) -> bool {
    let parts = vector_parts(q);
    match r {
        Some(v) => {
            &&& parts.len() == DIM
            &&& v.len() == DIM
            &&& forall|i: int|
                0 <= i < DIM ==> spelled(k, trimmed(parts[i]), Some(#[trigger] v[i]))
        },
        None => parts.len() != DIM || exists|i: int|
            0 <= i < DIM && spelled(k, trimmed(#[trigger] parts[i]), None),
    }
}

fn body(q: &str) -> (r: String)
    ensures
        r@ == vector_body(q@),
{
    let t = trim(q);
    let chars = characters(t.as_str());
    if chars.len() >= 2 && chars[0] == '[' && chars[chars.len() - 1] == ']' {
        text(&chars, 1, chars.len() - 1)
    } else {
        q.to_owned()
    }
}

/// The components of a vector.
pub open spec fn components(v: Option<[Single; DIM]>) -> Option<Seq<Single>> {
    match v {
        Some(v) => Some(v@),
        None => None,
    }
}

/// The vector that `q` spells out. Accepts comma-separated values or a raw array of numbers.
pub fn parse_query_vector<K: Numerics>(k: &K, q: &str) -> (r: Option<[Single; DIM]>)
    ensures
        is_vector(k, q@, components(r)),
{
    let list = body(q);
    let parts = split(list.as_str(), ',');
    let ghost texts = vector_parts(q@);
    proof {
        assert(strings(parts@) == texts);
        assert(strings(parts@).len() == parts@.len());
    }
    if parts.len() != DIM {
        return None;
    }
    let mut vector: [Single; DIM] = [ZERO;DIM];
    let mut i: usize = 0;
    while i < DIM
        invariant
            i <= DIM,
            strings(parts@) == texts,
            texts == vector_parts(q@),
            parts@.len() == DIM,
            vector@.len() == DIM,
            forall|j: int|
                0 <= j < i ==> spelled(k, trimmed(texts[j]), Some(#[trigger] vector@[j])),
        decreases DIM - i,
    {
        let part = trim(parts[i].as_str());
        let number = k.parse(part.as_str());
        proof {
            assert(texts[i as int] == parts@[i as int]@);
            assert(spelled(k, trimmed(texts[i as int]), number));
        }
        match number {
            Some(number) => {
                vector[i] = number;
            },
            None => {
                return None;
            },
        }
        i = i + 1;
    }
    Some(vector)
}

/// Where each operation has one outcome, so has the reading of a vector.
pub proof fn law_vector_is_determined<K: Numerics>(
    k: &K,
    q: Seq<char>,
    a: Option<Seq<Single>>,
    b: Option<Seq<Single>>,
)
    requires
        functional(k),
        is_vector(k, q, a),
        is_vector(k, q, b),
    ensures
        a == b,
{
    let parts = vector_parts(q);
    match (a, b) {
        (Some(v), Some(w)) => {
            assert forall|i: int| 0 <= i < DIM implies v[i] == w[i] by {
                assert(spelled(k, trimmed(parts[i]), Some(v[i])));
                assert(spelled(k, trimmed(parts[i]), Some(w[i])));
            }
            assert(v =~= w);
        },
        (Some(v), None) => {
            let i = choose|i: int|
                0 <= i < DIM && spelled(k, trimmed(#[trigger] parts[i]), None);
            assert(spelled(k, trimmed(parts[i]), Some(v[i])));
        },
        (None, Some(w)) => {
            let i = choose|i: int|
                0 <= i < DIM && spelled(k, trimmed(#[trigger] parts[i]), None);
            assert(spelled(k, trimmed(parts[i]), Some(w[i])));
        },
        (None, None) => {},
    }
}

/// The numbers of a vector, written out with commas between them, are read as that vector, in the
/// order in which they were written; so are they in square brackets. `pieces` are any texts of the
/// numbers `v` that hold no comma and that `k` reads as those numbers and nothing else.
pub proof fn law_written_vector_is_read_back<K: Numerics>(
    k: &K,
    v: Seq<Single>,
    pieces: Seq<Seq<char>>,
    r: Option<Seq<Single>>,
)
    requires
        v.len() == DIM,
        pieces.len() == DIM,
        forall|i: int| 0 <= i < DIM ==> !(#[trigger] pieces[i]).contains(','),
        forall|i: int, x: Option<Single>|
            0 <= i < DIM && #[trigger] spelled(k, trimmed(pieces[i]), x) ==> x == Some(v[i]),
    ensures
        !is_array(joined(pieces, ',')) && is_vector(k, joined(pieces, ','), r) ==> r == Some(v),
        is_vector(k, seq!['['] + joined(pieces, ',') + seq![']'], r) ==> r == Some(v),
{
    let q = joined(pieces, ',');
    let bracketed = seq!['['] + q + seq![']'];
    law_join_splits_back(pieces, ',');
    assert(bracketed[0] == '[' && bracketed.last() == ']');
    assert(trimmed(bracketed) == bracketed);
    assert(vector_body(bracketed) =~= q);
    assert(vector_parts(bracketed) == pieces);
    if !is_array(q) && is_vector(k, q, r) || is_vector(k, bracketed, r) {
        match r {
            Some(w) => {
                assert forall|i: int| 0 <= i < DIM implies w[i] == v[i] by {
                    assert(spelled(k, trimmed(pieces[i]), Some(w[i])));
                }
                assert(w =~= v);
            },
            None => {
                let i = choose|i: int|
                    0 <= i < DIM && spelled(k, trimmed(#[trigger] pieces[i]), None);
                assert(spelled(k, trimmed(pieces[i]), None));
            },
        }
    }
}

/// How many results are wanted: ten where no number is given, and from one to a hundred.
pub open spec fn wanted(count: Option<usize>) -> usize {
    match count {
        None => DEFAULT_RESULTS,
        Some(n) => if n < 1 {
            1
        } else if n > MOST_RESULTS {
            MOST_RESULTS
        } else {
            n
        },
    }
}

/// The search that a request asks for: its vector `q` and the number of results `count`.
pub fn read_request<K: Numerics>(k: &K, q: Option<&str>, count: Option<usize>) -> (r: Result<
    SearchRequest,
    RequestError,
>)
    ensures
        match (q, r) {
            (None, Err(RequestError::MissingQuery)) => true,
            (Some(q), Err(RequestError::NotAVector)) => is_vector(k, q@, None),
            (Some(q), Ok(request)) => is_vector(k, q@, Some(request.vector@)) && request.top_k
                == wanted(count),
            _ => false,
        },
{
    match q {
        None => Err(RequestError::MissingQuery),
        Some(q) => {
            let top_k: usize = match count {
                None => DEFAULT_RESULTS,
                Some(n) => if n < 1 {
                    1
                } else if n > MOST_RESULTS {
                    MOST_RESULTS
                } else {
                    n
                },
            };
            match parse_query_vector(k, q) {
                Some(vector) => Ok(SearchRequest { vector, top_k }),
                None => Err(RequestError::NotAVector),
            }
        },
    }
}

/// What is said where no query is given.
pub fn missing_query() -> (r: String)
    ensures
        r@ == "Missing ?q= parameter"@,
{
    String::from_str("Missing ?q= parameter")
}

/// Whether `q` is short enough to be quoted in full, or can be cut off at the quoted length.
pub open spec fn is_quotable(q: Seq<char>) -> bool {
    encode_utf8(q).len() <= QUOTED || is_char_boundary(encode_utf8(q), QUOTED as int)
}

/// The part of `q` that is quoted: its first 80 bytes, or all of it where there are fewer.
pub open spec fn quoted(q: Seq<char>) -> Seq<char> {
    if encode_utf8(q).len() > QUOTED {
        decode_utf8(encode_utf8(q).subrange(0, QUOTED as int))
    } else {
        q
    }
}

/// What is said of a query that is not a vector.
pub fn not_a_vector(q: &str) -> (r: String)
    requires
        is_quotable(q@),
    ensures
        r@ == "Expected "@ + decimal(DIM as nat) + " comma-separated float values, got: "@
            + quoted(q@),
{
    let mut r = String::from_str("Expected ");
    push_decimal(&mut r, DIM);
    r.append(" comma-separated float values, got: ");
    if q.as_bytes().len() > QUOTED {
        let (start, _) = q.split_at(QUOTED);
        proof {
            encode_utf8_decode_utf8(start@);
        }
        r.append(start);
    } else {
        r.append(q);
    }
    r
}

/// `hits` show `rows`, each marked as to whether it is in the concept.
pub open spec fn are_results<K: Numerics>(
    k: &K,
    store: &VectorStore,
    name: Option<Seq<char>>,
    rows: Seq<(usize, Single)>,
    hits: Seq<SearchHit>,
) -> bool {
    &&& hits.len() == rows.len()
    &&& forall|t: int|
        0 <= t < rows.len() ==> store.is_hit(
            k,
            rows[t].0 as int,
            rows[t].1,
            store.is_in(rows[t].0 as int, name),
            #[trigger] hits[t],
        )
}

/// The score of the concept that was found, and 0 where none was.
pub open spec fn confidence(found: Option<(String, Single)>) -> Single {
    match found {
        Some((_, score)) => score,
        None => ZERO,
    }
}

/// `r` answers `request`.
pub open spec fn is_response<K: Numerics>(
    k: &K,
    store: &VectorStore,
    request: SearchRequest,
    boost: Single,
    r: SearchResponse,
) -> bool {
    exists|
        best: Seq<(usize, Single)>,
        found: Option<(String, Single)>,
        strangers: Seq<(usize, Single)>,
    |
        {
            &&& #[trigger] store.is_answer(
                k,
                request.vector@,
                request.top_k as nat,
                boost,
                best,
                found,
            )
            &&& #[trigger] store.is_cross_pollination(
                k,
                request.vector@,
                found_name(found),
                MOST_STRANGERS as nat,
                strangers,
            )
            &&& said(r.concept) == found_name(found)
            &&& is_to_four_places(k, confidence(found), r.concept_confidence)
            &&& are_results(k, store, found_name(found), best, r.results@)
            &&& are_results(k, store, found_name(found), strangers, r.cross_pollination@)
            &&& r.query@ == "vec["@ + decimal(DIM as nat) + "]"@
            &&& r.total_crates == store.len
        }
}

/// `rows` as they are shown, each marked as to whether it is in the concept.
fn show_rows<K: Numerics>(
    k: &K,
    store: &VectorStore,
    name: &Option<String>,
    rows: &Vec<(usize, Single)>,
) -> (hits: Vec<SearchHit>)
    requires
        store.wf(),
        forall|t: int| 0 <= t < rows@.len() ==> (#[trigger] rows@[t]).0 < store.len,
    ensures
        are_results(k, store, said(*name), rows@, hits@),
{
    let mut hits: Vec<SearchHit> = Vec::new();
    let mut t: usize = 0;
    while t < rows.len()
        invariant
            store.wf(),
            forall|t: int| 0 <= t < rows@.len() ==> (#[trigger] rows@[t]).0 < store.len,
            t <= rows@.len(),
            hits@.len() == t,
            forall|s: int|
                0 <= s < t ==> store.is_hit(
                    k,
                    rows@[s].0 as int,
                    rows@[s].1,
                    store.is_in(rows@[s].0 as int, said(*name)),
                    #[trigger] hits@[s],
                ),
        decreases rows@.len() - t,
    {
        let (idx, score) = rows[t];
        let in_concept = match name {
            Some(name) => store.is_tagged(idx, name),
            None => false,
        };
        hits.push(store.hit(k, idx, score, in_concept));
        t = t + 1;
    }
    hits
}

/// The answer to `request`, with rows in the nearest concept boosted by `boost`.
pub fn respond<K: Numerics>(k: &K, store: &VectorStore, request: &SearchRequest, boost: Single) -> (
    r: SearchResponse)
    requires
        store.wf(),
    ensures
        is_response(k, store, *request, boost, r),
{
    let (best, found) = store.search(k, &request.vector, request.top_k, boost);
    proof {
        law_results_are_rows(
            k,
            store,
            request.vector@,
            request.top_k as nat,
            boost,
            best@,
            found,
        );
    }
    let score: Single = match &found {
        Some((_, score)) => *score,
        None => ZERO,
    };
    let concept = match &found {
        Some((name, _)) => Some(name.clone()),
        None => None,
    };
    proof {
        assert(said(concept) == found_name(found));
    }
    let strangers = match &concept {
        Some(name) => store.cross_pollination(
            k,
            &request.vector,
            Some(name.as_str()),
            MOST_STRANGERS,
        ),
        None => store.cross_pollination(k, &request.vector, None, MOST_STRANGERS),
    };
    proof {
        law_strangers_are_outside(
            k,
            store,
            request.vector@,
            found_name(found),
            MOST_STRANGERS as nat,
            strangers@,
        );
    }
    let results = show_rows(k, store, &concept, &best);
    let cross_pollination = show_rows(k, store, &concept, &strangers);
    let mut query = String::from_str("vec[");
    push_decimal(&mut query, DIM);
    query.append("]");
    SearchResponse {
        query,
        concept,
        concept_confidence: to_four_places(k, score),
        results,
        cross_pollination,
        total_crates: store.len,
    }
}

/// A concept and up to 50 of its members, if any row carries it.
pub fn concept_detail(store: &VectorStore, name: &String) -> (r: Result<ConceptDetail, String>)
    requires
        store.wf(),
    ensures
        ({
            let members = members_of(store.tags(), name@);
            match r {
                Ok(detail) => {
                    &&& members.len() > 0
                    &&& detail.concept@ == name@
                    &&& detail.count == members.len()
                    &&& strings(detail.members_sample@) == first(
                        Seq::new(members.len(), |m: int| store.names@[members[m] as int]@),
                        SHOWN_MEMBERS as int,
                    )
                },
                Err(said) => {
                    &&& members.len() == 0
                    &&& said@ == "Unknown concept: "@ + name@
                },
            }
        }),
{
    match find(&store.concept_index, name) {
        Some(e) => {
            let members = &store.concept_index[e].members;
            let ghost shown = Seq::new(members@.len(), |m: int| store.names@[members@[m] as int]@);
            proof {
                law_members_are_the_tagged_rows(store.tags(), name@);
            }
            let count: usize = if members.len() <= SHOWN_MEMBERS {
                members.len()
            } else {
                SHOWN_MEMBERS
            };
            let mut members_sample: Vec<String> = Vec::new();
            let mut m: usize = 0;
            while m < count
                invariant
                    store.wf(),
                    m <= count <= members@.len(),
                    shown == Seq::new(members@.len(), |m: int| store.names@[members@[m] as int]@),
                    forall|i: usize| #[trigger] members@.contains(i) ==> i < store.len,
                    strings(members_sample@) == shown.take(m as int),
                decreases count - m,
            {
                let ghost before = strings(members_sample@);
                let i = members[m];
                proof {
                    assert(members@.contains(members@[m as int]));
                }
                members_sample.push(store.names[i].clone());
                proof {
                    assert(strings(members_sample@) =~= before.push(shown[m as int]));
                    assert(strings(members_sample@) =~= shown.take(m + 1));
                }
                m = m + 1;
            }
            proof {
                assert(strings(members_sample@) =~= first(shown, SHOWN_MEMBERS as int));
            }
            Ok(ConceptDetail { concept: name.clone(), count: members.len(), members_sample })
        },
        None => {
            proof {
                lemma_absent(store.concept_index@, store.tags(), name@);
            }
            let mut said = String::from_str("Unknown concept: ");
            said.append(name.as_str());
            Err(said)
        },
    }
}

/// The first 20 of `all`.
fn shown<T>(all: &Vec<T>) -> (r: &[T])
    ensures
        r@ == first(all@, SHOWN_ANALYSIS as int),
{
    let count: usize = if all.len() <= SHOWN_ANALYSIS {
        all.len()
    } else {
        SHOWN_ANALYSIS
    };
    let r = slice_subrange(all.as_slice(), 0, count);
    proof {
        assert(r@ =~= first(all@, SHOWN_ANALYSIS as int));
    }
    r
}

/// The pairs that are shown: the first 20.
pub fn shown_pairs(analysis: &ConceptAnalysis) -> (r: &[CrossPair])
    ensures
        r@ == first(analysis.cross@, SHOWN_ANALYSIS as int),
{
    shown(&analysis.cross)
}

/// The frontier entries that are shown: the first 20.
pub fn shown_frontier(analysis: &ConceptAnalysis) -> (r: &[FrontierEntry])
    ensures
        r@ == first(analysis.frontier@, SHOWN_ANALYSIS as int),
{
    shown(&analysis.frontier)
}

/// What an answer rests on.
proof fn response_witness<K: Numerics>(
    k: &K,
    store: &VectorStore,
    request: SearchRequest,
    boost: Single,
    r: SearchResponse,
) -> (w: (Seq<(usize, Single)>, Option<(String, Single)>, Seq<(usize, Single)>))
    requires
        is_response(k, store, request, boost, r),
    ensures
        store.is_answer(k, request.vector@, request.top_k as nat, boost, w.0, w.1),
        store.is_cross_pollination(
            k,
            request.vector@,
            found_name(w.1),
            MOST_STRANGERS as nat,
            w.2,
        ),
        said(r.concept) == found_name(w.1),
        is_to_four_places(k, confidence(w.1), r.concept_confidence),
        are_results(k, store, found_name(w.1), w.0, r.results@),
        are_results(k, store, found_name(w.1), w.2, r.cross_pollination@),
{
    choose|
        best: Seq<(usize, Single)>,
        found: Option<(String, Single)>,
        strangers: Seq<(usize, Single)>,
    |
        {
            &&& #[trigger] store.is_answer(
                k,
                request.vector@,
                request.top_k as nat,
                boost,
                best,
                found,
            )
            &&& #[trigger] store.is_cross_pollination(
                k,
                request.vector@,
                found_name(found),
                MOST_STRANGERS as nat,
                strangers,
            )
            &&& said(r.concept) == found_name(found)
            &&& is_to_four_places(k, confidence(found), r.concept_confidence)
            &&& are_results(k, store, found_name(found), best, r.results@)
            &&& are_results(k, store, found_name(found), strangers, r.cross_pollination@)
            &&& r.query@ == "vec["@ + decimal(DIM as nat) + "]"@
            &&& r.total_crates == store.len
        }
}

/// An answer holds as many results as the request wants, or all rows where there are fewer, and
/// at most five rows besides, none of which is marked as being in the concept.
pub proof fn law_response_is_bounded<K: Numerics>(
    k: &K,
    store: &VectorStore,
    request: SearchRequest,
    boost: Single,
    r: SearchResponse,
)
    requires
        is_response(k, store, request, boost, r),
    ensures
        r.results@.len() == if request.top_k < store.len {
            request.top_k
        } else {
            store.len
        },
        r.cross_pollination@.len() <= MOST_STRANGERS,
        forall|t: int|
            0 <= t < r.cross_pollination@.len() ==> !(
            #[trigger] r.cross_pollination@[t]).in_concept,
{
    let (best, found, strangers) = response_witness(k, store, request, boost, r);
    law_results_are_rows(k, store, request.vector@, request.top_k as nat, boost, best, found);
    law_strangers_are_outside(
        k,
        store,
        request.vector@,
        found_name(found),
        MOST_STRANGERS as nat,
        strangers,
    );
    assert forall|t: int| 0 <= t < r.cross_pollination@.len() implies !(
    #[trigger] r.cross_pollination@[t]).in_concept by {
        assert(!store.is_in(strangers[t].0 as int, found_name(found)));
    }
}

/// Where the operations of rounding keep the order, the scores that an answer shows never rise from
/// one result to the next, nor from one row outside the concept to the next.
pub proof fn law_shown_scores_descend<K: Numerics>(
    k: &K,
    store: &VectorStore,
    request: SearchRequest,
    boost: Single,
    r: SearchResponse,
)
    requires
        keeps_order(k),
        is_response(k, store, request, boost, r),
    ensures
        forall|s: int, t: int|
            0 <= s <= t < r.results@.len() ==> rank((#[trigger] r.results@[s]).score) >= rank(
                (#[trigger] r.results@[t]).score,
            ),
        forall|s: int, t: int|
            0 <= s <= t < r.cross_pollination@.len() ==> rank(
                (#[trigger] r.cross_pollination@[s]).score,
            ) >= rank((#[trigger] r.cross_pollination@[t]).score),
{
    let (best, found, strangers) = response_witness(k, store, request, boost, r);
    let name = found_name(found);
    let query = request.vector@;
    law_strangers_are_outside(k, store, query, name, MOST_STRANGERS as nat, strangers);
    assert forall|s: int, t: int| 0 <= s <= t < r.results@.len() implies rank(
        (#[trigger] r.results@[s]).score,
    ) >= rank((#[trigger] r.results@[t]).score) by {
        law_results_descend(k, store, query, request.top_k as nat, boost, best, found, s, t);
        law_four_places_keep_the_order(
            k,
            best[t].1,
            best[s].1,
            r.results@[t].score,
            r.results@[s].score,
        );
    }
    assert forall|s: int, t: int| 0 <= s <= t < r.cross_pollination@.len() implies rank(
        (#[trigger] r.cross_pollination@[s]).score,
    ) >= rank((#[trigger] r.cross_pollination@[t]).score) by {
        assert(!exceeds(strangers[t].1, strangers[s].1));
        assert(exceeds(strangers[s].1, HALF) && exceeds(strangers[t].1, HALF));
        law_four_places_keep_the_order(
            k,
            strangers[t].1,
            strangers[s].1,
            r.cross_pollination@[t].score,
            r.cross_pollination@[s].score,
        );
    }
}

/// Two hits show the same.
pub open spec fn same_hit(x: SearchHit, y: SearchHit) -> bool {
    &&& x.name@ == y.name@
    &&& x.score == y.score
    &&& strings(x.concepts@) == strings(y.concepts@)
    &&& x.description@ == y.description@
    &&& x.in_concept == y.in_concept
}

proof fn lemma_results_agree<K: Numerics>(
    k: &K,
    store: &VectorStore,
    name: Option<Seq<char>>,
    rows: Seq<(usize, Single)>,
    x: Seq<SearchHit>,
    y: Seq<SearchHit>,
)
    requires
        functional(k),
        are_results(k, store, name, rows, x),
        are_results(k, store, name, rows, y),
    ensures
        x.len() == y.len(),
        forall|t: int| 0 <= t < x.len() ==> same_hit(#[trigger] x[t], y[t]),
{
    assert forall|t: int| 0 <= t < x.len() implies same_hit(#[trigger] x[t], y[t]) by {
        let i = rows[t].0 as int;
        assert(store.is_hit(k, i, rows[t].1, store.is_in(i, name), x[t]));
        assert(store.is_hit(k, i, rows[t].1, store.is_in(i, name), y[t]));
    }
}

/// Where each operation has one outcome, so has the answer to a request.
pub proof fn law_response_is_determined<K: Numerics>(
    k: &K,
    store: &VectorStore,
    request: SearchRequest,
    boost: Single,
    x: SearchResponse,
    y: SearchResponse,
)
    requires
        functional(k),
        is_response(k, store, request, boost, x),
        is_response(k, store, request, boost, y),
    ensures
        said(x.concept) == said(y.concept),
        x.concept_confidence == y.concept_confidence,
        x.results@.len() == y.results@.len(),
        forall|t: int|
            0 <= t < x.results@.len() ==> same_hit(#[trigger] x.results@[t], y.results@[t]),
        x.cross_pollination@.len() == y.cross_pollination@.len(),
        forall|t: int|
            0 <= t < x.cross_pollination@.len() ==> same_hit(
                #[trigger] x.cross_pollination@[t],
                y.cross_pollination@[t],
            ),
{
    let (best1, found1, strangers1) = response_witness(k, store, request, boost, x);
    let (best2, found2, strangers2) = response_witness(k, store, request, boost, y);
    let query = request.vector@;
    law_answer_is_determined(
        k,
        store,
        query,
        request.top_k as nat,
        boost,
        best1,
        found1,
        best2,
        found2,
    );
    let name = found_name(found1);
    law_cross_pollination_is_determined(
        k,
        store,
        query,
        name,
        MOST_STRANGERS as nat,
        strangers1,
        strangers2,
    );
    lemma_results_agree(k, store, name, best1, x.results@, y.results@);
    lemma_results_agree(k, store, name, strangers1, x.cross_pollination@, y.cross_pollination@);
}

/// The numbers of a query stand between the commas of its list: what is inside square brackets, where
/// the query stands in them, white space round them aside, and otherwise all of the query.
pub proof fn law_numbers_stand_between_commas(q: Seq<char>)
    ensures
        trimmed(q).len() >= 2 && trimmed(q)[0] == '[' && trimmed(q)[trimmed(q).len() - 1] == ']'
            ==> vector_parts(q) == split_on(trimmed(q).subrange(1, trimmed(q).len() - 1), ','),
        !(trimmed(q).len() >= 2 && trimmed(q)[0] == '[' && trimmed(q)[trimmed(q).len() - 1] == ']')
            ==> vector_parts(q) == split_on(q, ','),
{
}

/// A query is read number by number: each of its numbers, without the white space round it, is
/// handed to the arithmetic, and the components are what that gives, in their order. There is no
/// vector just where there are not 384 numbers or one of them cannot be read.
pub proof fn law_query_is_read_number_by_number<K: Numerics>(
    k: &K,
    q: &str,
    r: Option<[Single; DIM]>,
)
    requires
        call_ensures(parse_query_vector::<K>, (k, q), r),
    ensures
        r matches Some(v) ==> {
            &&& vector_parts(q@).len() == 384
            &&& v@.len() == 384
            &&& forall|i: int|
                0 <= i < 384 ==> spelled(
                    k,
                    trimmed(vector_parts(q@)[i]),
                    Some(#[trigger] v@[i]),
                )
        },
        r is None ==> vector_parts(q@).len() != 384 || exists|i: int|
            0 <= i < 384 && spelled(k, trimmed(#[trigger] vector_parts(q@)[i]), None),
{
}

/// A request without a query is told so; one whose query is no vector is told that; and any other
/// asks for the very vector that its query is read as, and for as many results as it says: ten where
/// it says nothing, one where it says less, and a hundred where it says more.
pub proof fn law_request_asks_for_what_it_says<K: Numerics>(
    k: &K,
    q: Option<&str>,
    count: Option<usize>,
    r: Result<SearchRequest, RequestError>,
)
    requires
        call_ensures(read_request::<K>, (k, q, count), r),
    ensures
        q is None <==> r matches Err(RequestError::MissingQuery),
        q matches Some(q) ==> (r matches Err(RequestError::NotAVector) ==> is_vector(k, q@, None)),
        r matches Ok(request) ==> {
            &&& q matches Some(q)
            &&& is_vector(k, q@, Some(request.vector@))
            &&& count is None ==> request.top_k == 10
            &&& count matches Some(n) ==> {
                &&& n < 1 ==> request.top_k == 1
                &&& 1 <= n <= 100 ==> request.top_k == n
                &&& n > 100 ==> request.top_k == 100
            }
        },
{
}

/// What it is for a text to be read as a vector, part by part, and for it not to be.
pub proof fn law_reading_of_a_vector<K: Numerics>(k: &K, q: Seq<char>, v: Seq<Single>)
    ensures
        is_vector(k, q, Some(v)) <==> vector_parts(q).len() == 384 && v.len() == 384 && forall|
            i: int,
        |
            0 <= i < 384 ==> spelled(k, trimmed(vector_parts(q)[i]), Some(#[trigger] v[i])),
        is_vector(k, q, None) <==> vector_parts(q).len() != 384 || exists|i: int|
            0 <= i < 384 && spelled(k, trimmed(#[trigger] vector_parts(q)[i]), None),
{
}

/// An answer shows a search for the vector and the number of rows that the request asks for, with
/// the boost that is given: the rows `w.0` and the concept `w.1`. Beside them it shows five rows at
/// most of a cross-pollination that excludes this concept, `w.2`. Each row is shown by what it is,
/// with its own score, and is marked as being in the concept just where it carries it. The
/// confidence is the score of the concept, to four places, and that of 0 where none was found.
pub proof fn law_answer_shows_the_search<K: Numerics>(
    k: &K,
    store: &VectorStore,
    request: &SearchRequest,
    boost: Single,
    r: SearchResponse,
) -> (w: (Seq<(usize, Single)>, Option<(String, Single)>, Seq<(usize, Single)>))
    requires
        store.wf(),
        call_ensures(respond::<K>, (k, store, request, boost), r),
    ensures
        store.is_answer(k, request.vector@, request.top_k as nat, boost, w.0, w.1),
        match w.1 {
            Some((name, score)) => {
                &&& r.concept matches Some(shown)
                &&& shown@ == name@
                &&& is_to_four_places(k, score, r.concept_confidence)
                &&& store.is_cross_pollination(k, request.vector@, Some(name@), 5, w.2)
            },
            None => {
                &&& r.concept is None
                &&& is_to_four_places(k, ZERO, r.concept_confidence)
                &&& store.is_cross_pollination(k, request.vector@, None, 5, w.2)
            },
        },
        r.results@.len() == w.0.len(),
        forall|t: int|
            0 <= t < w.0.len() ==> store.is_hit(
                k,
                w.0[t].0 as int,
                w.0[t].1,
                w.1 matches Some((name, _)) && store.carries(w.0[t].0 as int, name@),
                #[trigger] r.results@[t],
            ),
        r.cross_pollination@.len() == w.2.len(),
        forall|t: int|
            0 <= t < w.2.len() ==> store.is_hit(
                k,
                w.2[t].0 as int,
                w.2[t].1,
                false,
                #[trigger] r.cross_pollination@[t],
            ),
        r.query@ == "vec["@ + decimal(384) + "]"@,
        r.total_crates == store.len,
{
    let w = response_witness(k, store, *request, boost, r);
    let name = found_name(w.1);
    assert forall|t: int| 0 <= t < w.0.len() implies store.is_hit(
        k,
        w.0[t].0 as int,
        w.0[t].1,
        w.1 matches Some((name, _)) && store.carries(w.0[t].0 as int, name@),
        #[trigger] r.results@[t],
    ) by {
        let i = w.0[t].0 as int;
        assert(store.is_hit(k, i, w.0[t].1, store.is_in(i, name), r.results@[t]));
    }
    law_strangers_are_outside(k, store, request.vector@, name, MOST_STRANGERS as nat, w.2);
    assert forall|t: int| 0 <= t < w.2.len() implies store.is_hit(
        k,
        w.2[t].0 as int,
        w.2[t].1,
        false,
        #[trigger] r.cross_pollination@[t],
    ) by {
        let i = w.2[t].0 as int;
        assert(store.is_hit(k, i, w.2[t].1, store.is_in(i, name), r.cross_pollination@[t]));
    }
    w
}

/// The details of a concept are those of the rows that carry it: `members` are these rows, in
/// ascending order, none twice; their number is told, and the names of the first 50. Where no row
/// carries the concept, it is told to be unknown.
pub proof fn law_details_are_those_of_the_members(
    store: &VectorStore,
    name: &String,
    r: Result<ConceptDetail, String>,
) -> (members: Seq<usize>)
    requires
        store.wf(),
        call_ensures(concept_detail, (store, name), r),
    ensures
        forall|m: int, n: int|
            0 <= m < n < members.len() ==> #[trigger] members[m] < #[trigger] members[n],
        forall|i: usize| #[trigger]
            members.contains(i) <==> i < store.len && exists|j: int|
                0 <= j < store.concepts@[i as int]@.len() && (
                #[trigger] store.concepts@[i as int]@[j])@ == name@,
        match r {
            Ok(detail) => {
                &&& members.len() > 0
                &&& detail.concept@ == name@
                &&& detail.count == members.len()
                &&& detail.members_sample@.len() == if members.len() < 50 {
                    members.len()
                } else {
                    50
                }
                &&& forall|m: int|
                    0 <= m < detail.members_sample@.len() ==> (
                    #[trigger] detail.members_sample@[m])@ == store.names@[members[m] as int]@
            },
            Err(told) => members.len() == 0 && told@ == "Unknown concept: "@ + name@,
        },
{
    let members = members_of(store.tags(), name@);
    assert(store.tags().len() == store.concepts.len());
    law_members_are_the_tagged_rows(store.tags(), name@);
    assert forall|i: usize| #[trigger] members.contains(i) <==> i < store.len && exists|j: int|
        0 <= j < store.concepts@[i as int]@.len() && (#[trigger] store.concepts@[i as int]@[j])@
            == name@ by {
        if i < store.len {
            law_row_carries_what_its_list_holds(store, i as int, name@);
        }
    }
    if let Ok(detail) = r {
        let shown = Seq::new(members.len(), |m: int| store.names@[members[m] as int]@);
        assert(strings(detail.members_sample@).len() == detail.members_sample@.len());
        assert forall|m: int| 0 <= m < detail.members_sample@.len() implies (
        #[trigger] detail.members_sample@[m])@ == store.names@[members[m] as int]@ by {
            assert(strings(detail.members_sample@)[m] == shown[m]);
        }
    }
    members
}

/// What is shown of an analysis are its first 20 pairs and its first 20 frontier entries, as they
/// are and in their order.
pub proof fn law_first_of_the_analysis_is_shown(
    analysis: &ConceptAnalysis,
    pairs: &[CrossPair],
    frontier: &[FrontierEntry],
)
    requires
        call_ensures(shown_pairs, (analysis,), pairs),
        call_ensures(shown_frontier, (analysis,), frontier),
    ensures
        pairs@.len() == if analysis.cross@.len() < 20 {
            analysis.cross@.len()
        } else {
            20
        },
        forall|i: int| 0 <= i < pairs@.len() ==> #[trigger] pairs@[i] == analysis.cross@[i],
        frontier@.len() == if analysis.frontier@.len() < 20 {
            analysis.frontier@.len()
        } else {
            20
        },
        forall|i: int|
            0 <= i < frontier@.len() ==> #[trigger] frontier@[i] == analysis.frontier@[i],
{
}

/// A query that is no vector is quoted: in full where it has no more than 80 bytes, and otherwise
/// its first 80 bytes.
pub proof fn law_query_is_quoted(q: &str, r: String)
    requires
        is_quotable(q@),
        call_ensures(not_a_vector, (q,), r),
    ensures
        encode_utf8(q@).len() <= 80 ==> r@ == "Expected "@ + decimal(384)
            + " comma-separated float values, got: "@ + q@,
        encode_utf8(q@).len() > 80 ==> r@ == "Expected "@ + decimal(384)
            + " comma-separated float values, got: "@ + decode_utf8(
            encode_utf8(q@).subrange(0, 80),
        ),
{
}

} // verus!
