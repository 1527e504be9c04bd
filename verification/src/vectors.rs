//! The vector store: all vectors end to end in one allocation, with what belongs to each row in
//! arrays beside it.

use vstd::prelude::*;
use vstd::slice::slice_subrange;
use vstd::string::StringExecFns;

use crate::index::{
    build, indexes, law_members_are_the_tagged_rows, lemma_named_where_carried, members_of, names,
    tag_lists, ConceptMembers,
};
use crate::numerics::{
    added, counted, divided, functional, is_mean, is_norm, is_share, law_mean_is_a_share_of_the_sum,
    law_mean_is_determined, law_norm_is_determined, law_share_is_one_divided, mean, multiplied, norm,
    share, Numerics,
};
use crate::scalar::{Single, ONE, ZERO};
use crate::text::{
    blank, decimal, first_strings, is_blank, lines, lines_of, push_decimal, strings,
};

verus! {

/// The number of components of a vector.
pub const DIM: usize = 384;

/// One record of an embeddings file.
#[derive(Debug)]
pub struct Record {
    pub name: String,
    pub description: String,
    pub concepts: Vec<String>,
    pub values: Vec<Single>,
    pub readme_length: Option<u64>,
}

/// The vectors, row after row, and what is known of each row.
pub struct VectorStore {
    /// The vectors, one behind the other.
    pub data: Vec<Single>,
    /// The name of each row.
    pub names: Vec<String>,
    /// The description of each row.
    pub descriptions: Vec<String>,
    /// The concepts of each row.
    pub concepts: Vec<Vec<String>>,
    /// The number of rows.
    pub len: usize,
    /// The length of each vector.
    pub norms: Vec<Single>,
    /// Each concept with the rows that carry it.
    pub concept_index: Vec<ConceptMembers>,
    /// The centroid of each concept, in the order of `concept_index`.
    pub concept_centroids: Vec<Vec<Single>>,
}

/// A row as it is shown in an answer.
#[derive(Debug)]
pub struct SearchHit {
    pub name: String,
    pub score: Single,
    pub concepts: Vec<String>,
    pub description: String,
    pub in_concept: bool,
}

/// What is shown of a concept.
#[derive(Debug)]
pub struct ConceptInfo {
    pub count: usize,
    pub centroid_norm: Single,
}

/// The size of a store.
#[derive(Debug)]
pub struct Stats {
    pub total_crates: usize,
    pub dimensions: usize,
    pub concepts: usize,
    pub engine: &'static str,
}

/// What an optional string says.
pub open spec fn said(s: Option<String>) -> Option<Seq<char>> {
    match s {
        Some(s) => Some(s@),
        None => None,
    }
}

/// Row `i` of vectors that stand end to end.
pub open spec fn row_of(data: Seq<Single>, i: int) -> Seq<Single> {
    data.subrange(i * DIM, (i + 1) * DIM)
}

/// Component `d` of each of the rows `members`.
pub open spec fn column(data: Seq<Single>, members: Seq<usize>, d: int) -> Seq<Single> {
    Seq::new(members.len(), |m: int| row_of(data, members[m] as int)[d])
}

/// `centroid` is the mean of the rows `members`.
pub open spec fn is_centroid<K: Numerics>(
    k: &K,
    data: Seq<Single>,
    members: Seq<usize>,
    centroid: Seq<Single>,
) -> bool {
    &&& centroid.len() == DIM
    &&& exists|part: Single| #[trigger]
        is_share(k, members.len() as usize, part) && forall|d: int|
            0 <= d < DIM ==> is_mean(k, column(data, members, d), part, #[trigger] centroid[d])
}

impl VectorStore {
    /// Row `i`.
    pub open spec fn row(&self, i: int) -> Seq<Single> {
        row_of(self.data@, i)
    }

    /// The concepts of each row.
    pub open spec fn tags(&self) -> Seq<Seq<Seq<char>>> {
        tag_lists(self.concepts@)
    }

    /// Whether row `i` carries the concept `name`.
    pub open spec fn carries(&self, i: int, name: Seq<char>) -> bool {
        self.tags()[i].contains(name)
    }

    /// All arrays go with the rows, and the index lists the rows of each concept.
    pub open spec fn wf(&self) -> bool {
        &&& self.len > 0
        &&& self.data@.len() == self.len * DIM
        &&& self.names@.len() == self.len
        &&& self.descriptions@.len() == self.len
        &&& self.concepts@.len() == self.len
        &&& self.norms@.len() == self.len
        &&& indexes(self.concept_index@, self.tags())
        &&& self.concept_centroids@.len() == self.concept_index@.len()
        &&& forall|e: int|
            0 <= e < self.concept_centroids@.len() ==> (
            #[trigger] self.concept_centroids@[e])@.len() == DIM
    }

    /// The lengths and the centroids are those that `k` computes of the rows.
    pub open spec fn computed_with<K: Numerics>(&self, k: &K) -> bool {
        &&& forall|i: int|
            0 <= i < self.len ==> is_norm(k, self.row(i), #[trigger] self.norms@[i])
        &&& forall|e: int|
            0 <= e < self.concept_index@.len() ==> is_centroid(
                k,
                self.data@,
                (#[trigger] self.concept_index@[e]).members@,
                self.concept_centroids@[e]@,
            )
    }

    /// The rows are `records`, in their order.
    pub open spec fn holds(&self, records: Seq<Record>) -> bool {
        &&& self.len == records.len()
        &&& forall|i: int|
            0 <= i < self.len ==> {
                &&& self.row(i) == (#[trigger] records[i]).values@
                &&& self.names@[i]@ == records[i].name@
                &&& self.descriptions@[i]@ == records[i].description@
                &&& self.tags()[i] == strings(records[i].concepts@)
            }
    }
}

fn norms_of<K: Numerics>(k: &K, data: &Vec<Single>, len: usize) -> (norms: Vec<Single>)
    requires
        data@.len() == len * DIM,
    ensures
        norms@.len() == len,
        forall|i: int| 0 <= i < len ==> is_norm(k, row_of(data@, i), #[trigger] norms@[i]),
{
    let mut norms: Vec<Single> = Vec::new();
    let mut i: usize = 0;
    while i < len
        invariant
            i <= len,
            data.len() == len * DIM,
            norms@.len() == i,
            forall|j: int| 0 <= j < i ==> is_norm(k, row_of(data@, j), #[trigger] norms@[j]),
        decreases len - i,
    {
        assert((i + 1) * DIM <= len * DIM) by (nonlinear_arith)
            requires
                i < len,
        ;
        let row = slice_subrange(data.as_slice(), i * DIM, (i + 1) * DIM);
        norms.push(norm(k, row));
        i = i + 1;
    }
    norms
}

fn centroid_of<K: Numerics>(k: &K, data: &Vec<Single>, len: usize, members: &Vec<usize>) -> (
    centroid: Vec<Single>)
    requires
        data@.len() == len * DIM,
        forall|m: int| 0 <= m < members@.len() ==> #[trigger] members@[m] < len,
    ensures
        is_centroid(k, data@, members@, centroid@),
{
    let part = share(k, members.len());
    let mut centroid: Vec<Single> = Vec::new();
    let mut d: usize = 0;
    while d < DIM
        invariant
            d <= DIM,
            data.len() == len * DIM,
            forall|m: int| 0 <= m < members@.len() ==> #[trigger] members@[m] < len,
            centroid@.len() == d,
            forall|c: int|
                0 <= c < d ==> is_mean(
                    k,
                    column(data@, members@, c),
                    part,
                    #[trigger] centroid@[c],
                ),
        decreases DIM - d,
    {
        let mut terms: Vec<Single> = Vec::new();
        let mut m: usize = 0;
        while m < members.len()
            invariant
                d < DIM,
                m <= members@.len(),
                data.len() == len * DIM,
                forall|m: int| 0 <= m < members@.len() ==> #[trigger] members@[m] < len,
                terms@ == column(data@, members@, d as int).take(m as int),
            decreases members@.len() - m,
        {
            let i = members[m];
            assert((i + 1) * DIM <= len * DIM) by (nonlinear_arith)
                requires
                    i < len,
            ;
            terms.push(data[i * DIM + d]);
            proof {
                assert(terms@ =~= column(data@, members@, d as int).take(m + 1));
            }
            m = m + 1;
        }
        proof {
            assert(terms@ =~= column(data@, members@, d as int));
        }
        centroid.push(mean(k, terms.as_slice(), part));
        d = d + 1;
    }
    proof {
        assert(is_share(k, members@.len() as usize, part));
    }
    centroid
}

impl VectorStore {
    /// The store of `records`.
    pub fn from_records<K: Numerics>(k: &K, records: &Vec<Record>) -> (store: Self)
        requires
            records@.len() > 0,
            forall|i: int|
                0 <= i < records@.len() ==> (#[trigger] records@[i]).values@.len() == DIM,
        ensures
            store.wf(),
            store.holds(records@),
            store.computed_with(k),
    {
        let len = records.len();
        let mut data: Vec<Single> = Vec::new();
        let mut names: Vec<String> = Vec::new();
        let mut descriptions: Vec<String> = Vec::new();
        let mut concepts: Vec<Vec<String>> = Vec::new();
        let mut i: usize = 0;
        while i < len
            invariant
                i <= len,
                len == records@.len(),
                forall|j: int|
                    0 <= j < records@.len() ==> (#[trigger] records@[j]).values@.len() == DIM,
                data@.len() == i * DIM,
                names@.len() == i,
                descriptions@.len() == i,
                concepts@.len() == i,
                forall|j: int|
                    0 <= j < i ==> {
                        &&& row_of(data@, j) == (#[trigger] records@[j]).values@
                        &&& names@[j]@ == records@[j].name@
                        &&& descriptions@[j]@ == records@[j].description@
                        &&& strings(concepts@[j]@) == strings(records@[j].concepts@)
                    },
            decreases len - i,
        {
            let record = &records[i];
            let ghost before = data@;
            data.extend_from_slice(record.values.as_slice());
            names.push(record.name.clone());
            descriptions.push(record.description.clone());
            concepts.push(first_strings(&record.concepts, record.concepts.len()));
            proof {
                assert(data@ =~= before + record.values@);
                assert(row_of(data@, i as int) =~= record.values@);
                assert forall|j: int| 0 <= j < i implies row_of(data@, j) == (
                #[trigger] records@[j]).values@ by {
                    assert(row_of(data@, j) =~= row_of(before, j));
                }
            }
            i = i + 1;
        }
        let norms = norms_of(k, &data, len);
        let concept_index = build(&concepts);
        let mut concept_centroids: Vec<Vec<Single>> = Vec::new();
        let mut e: usize = 0;
        while e < concept_index.len()
            invariant
                e <= concept_index@.len(),
                data@.len() == len * DIM,
                concepts@.len() == len,
                indexes(concept_index@, tag_lists(concepts@)),
                concept_centroids@.len() == e,
                forall|d: int|
                    0 <= d < e ==> is_centroid(
                        k,
                        data@,
                        (#[trigger] concept_index@[d]).members@,
                        concept_centroids@[d]@,
                    ),
            decreases concept_index@.len() - e,
        {
            let members = &concept_index[e].members;
            proof {
                law_members_are_the_tagged_rows(
                    tag_lists(concepts@),
                    concept_index@[e as int].name@,
                );
                assert forall|m: int| 0 <= m < members@.len() implies #[trigger] members@[m]
                    < len by {
                    assert(members@.contains(members@[m]));
                }
            }
            concept_centroids.push(centroid_of(k, &data, len, members));
            e = e + 1;
        }
        let store = VectorStore {
            data,
            names,
            descriptions,
            concepts,
            len,
            norms,
            concept_index,
            concept_centroids,
        };
        proof {
            assert forall|d: int| 0 <= d < store.concept_centroids@.len() implies (
            #[trigger] store.concept_centroids@[d])@.len() == DIM by {
                assert(is_centroid(
                    k,
                    store.data@,
                    store.concept_index@[d].members@,
                    store.concept_centroids@[d]@,
                ));
            }
        }
        store
    }
}

/// How a record is read out of a line.
pub trait RecordDecoder {
    /// The record that `line` spells out, or what is wrong with it.
    fn record(&self, line: &str) -> Result<Record, String>;
}

/// `r` is what `d` reads out of `line`.
pub open spec fn decoded<D: RecordDecoder>(
    d: &D,
    line: Seq<char>,
    r: Result<Record, String>,
) -> bool {
    exists|t: &str| t@ == line && #[trigger] call_ensures(D::record, (d, t), r)
}

/// The lines that are not blank, each with its number.
pub open spec fn filled(lines: Seq<Seq<char>>) -> Seq<(int, Seq<char>)>
    decreases lines.len(),
{
    if lines.len() == 0 {
        Seq::empty()
    } else {
        let earlier = filled(lines.drop_last());
        if is_blank(lines.last()) {
            earlier
        } else {
            earlier.push((lines.len() - 1, lines.last()))
        }
    }
}

/// The lines of an embeddings file that hold records, each with its number.
pub open spec fn record_lines(content: Seq<char>) -> Seq<(int, Seq<char>)> {
    filled(lines_of(content))
}

/// A record was read, and it has the right number of components.
pub open spec fn is_sound(outcome: Result<Record, String>) -> bool {
    match outcome {
        Ok(record) => record.values@.len() == DIM,
        Err(_) => false,
    }
}

/// `outcomes` are what `d` reads out of `lines`, from the first on, up to the first line that
/// does not give a sound record.
pub open spec fn read_from<D: RecordDecoder>(
    d: &D,
    lines: Seq<(int, Seq<char>)>,
    outcomes: Seq<Result<Record, String>>,
) -> bool {
    &&& outcomes.len() <= lines.len()
    &&& forall|j: int| 0 <= j < outcomes.len() ==> decoded(d, lines[j].1, #[trigger] outcomes[j])
    &&& forall|j: int| 0 <= j < outcomes.len() - 1 ==> is_sound(#[trigger] outcomes[j])
    &&& outcomes.len() < lines.len() ==> outcomes.len() > 0 && !is_sound(outcomes.last())
}

/// Whether there are records, and all are sound.
pub open spec fn all_sound(outcomes: Seq<Result<Record, String>>) -> bool {
    &&& outcomes.len() > 0
    &&& is_sound(outcomes.last())
}

/// What is said of lines that do not make up a store.
pub open spec fn load_error(
    lines: Seq<(int, Seq<char>)>,
    outcomes: Seq<Result<Record, String>>,
) -> Seq<char> {
    if outcomes.len() == 0 {
        "no records found"@
    } else {
        let line = decimal(lines[outcomes.len() - 1].0 as nat);
        match outcomes.last() {
            Err(e) => "parse line "@ + line + ": "@ + e@,
            Ok(record) => "line "@ + line + ": expected "@ + decimal(DIM as nat) + " dims, got "@
                + decimal(record.values@.len()),
        }
    }
}

/// `r` is the store of the records in `content`, or what is said where they do not make up one.
pub open spec fn is_loaded<K: Numerics, D: RecordDecoder>(
    k: &K,
    d: &D,
    content: Seq<char>,
    r: Result<VectorStore, String>,
) -> bool {
    exists|outcomes: Seq<Result<Record, String>>| #[trigger]
        read_from(d, record_lines(content), outcomes) && match r {
            Ok(store) => {
                &&& all_sound(outcomes)
                &&& store.wf()
                &&& store.holds(records_of(outcomes))
                &&& store.computed_with(k)
            },
            Err(e) => {
                &&& !all_sound(outcomes)
                &&& e@ == load_error(record_lines(content), outcomes)
            },
        }
}

/// The records that were read.
pub open spec fn records_of(outcomes: Seq<Result<Record, String>>) -> Seq<Record> {
    Seq::new(outcomes.len(), |i: int| outcomes[i]->Ok_0)
}

fn parse_error(line: usize, error: &String) -> (r: String)
    ensures
        r@ == "parse line "@ + decimal(line as nat) + ": "@ + error@,
{
    let mut r = String::from_str("parse line ");
    push_decimal(&mut r, line);
    r.append(": ");
    r.append(error.as_str());
    r
}

fn size_error(line: usize, got: usize) -> (r: String)
    ensures
        r@ == "line "@ + decimal(line as nat) + ": expected "@ + decimal(DIM as nat)
            + " dims, got "@ + decimal(got as nat),
{
    let mut r = String::from_str("line ");
    push_decimal(&mut r, line);
    r.append(": expected ");
    push_decimal(&mut r, DIM);
    r.append(" dims, got ");
    push_decimal(&mut r, got);
    r
}

/// What is said of a file that cannot be read.
pub open spec fn read_error(path: Seq<char>, error: Seq<char>) -> Seq<char> {
    "read "@ + path + ": "@ + error
}

/// What is said of a file that cannot be read.
pub fn describe_read_error(path: &str, error: &str) -> (r: String)
    ensures
        r@ == read_error(path@, error@),
{
    let mut r = String::from_str("read ");
    r.append(path);
    r.append(": ");
    r.append(error);
    r
}

impl VectorStore {
    /// The store of the records in `content`, one to a line. Blank lines are passed over; the
    /// first line that does not give a sound record ends the reading.
    pub fn from_content<K: Numerics, D: RecordDecoder>(k: &K, d: &D, content: &str) -> (r: Result<
        Self,
        String,
    >)
        ensures
            is_loaded(k, d, content@, r),
    {
        let all = lines(content);
        let ghost texts = lines_of(content@);
        let mut records: Vec<Record> = Vec::new();
        let ghost mut outcomes: Seq<Result<Record, String>> = Seq::empty();
        let mut i: usize = 0;
        while i < all.len()
            invariant
                i <= all@.len(),
                strings(all@) == texts,
                texts == lines_of(content@),
                outcomes.len() == filled(texts.take(i as int)).len(),
                forall|j: int|
                    0 <= j < outcomes.len() ==> decoded(
                        d,
                        filled(texts.take(i as int))[j].1,
                        #[trigger] outcomes[j],
                    ),
                forall|j: int| 0 <= j < outcomes.len() ==> is_sound(#[trigger] outcomes[j]),
                records@ == records_of(outcomes),
            decreases all@.len() - i,
        {
            let line = all[i].as_str();
            let ghost earlier = filled(texts.take(i as int));
            proof {
                assert(texts.take(i + 1).drop_last() =~= texts.take(i as int));
                assert(texts.take(i + 1).last() == texts[i as int]);
                assert(texts[i as int] == line@);
            }
            if blank(line) {
                i = i + 1;
                continue;
            }
            let outcome = d.record(line);
            let ghost next = outcomes.push(outcome);
            proof {
                assert(decoded(d, line@, outcome));
                assert(filled(texts.take(i + 1)) == earlier.push((i as int, line@)));
                lemma_filled_prefix(texts, i + 1);
                assert forall|j: int| 0 <= j < next.len() implies decoded(
                    d,
                    filled(texts.take(i + 1))[j].1,
                    #[trigger] next[j],
                ) && record_lines(content@)[j] == filled(texts.take(i + 1))[j] by {
                    if j < outcomes.len() {
                        assert(next[j] == outcomes[j]);
                        assert(filled(texts.take(i + 1))[j] == earlier[j]);
                    }
                }
                if !is_sound(outcome) {
                    assert(read_from(d, record_lines(content@), next));
                }
            }
            match outcome {
                Err(e) => {
                    return Err(parse_error(i, &e));
                },
                Ok(record) => {
                    if record.values.len() != DIM {
                        return Err(size_error(i, record.values.len()));
                    }
                    records.push(record);
                    proof {
                        assert(records@ =~= records_of(next));
                        outcomes = next;
                    }
                },
            }
            i = i + 1;
        }
        proof {
            assert(texts.take(i as int) =~= texts);
            assert(read_from(d, record_lines(content@), outcomes));
        }
        if records.len() == 0 {
            return Err(String::from_str("no records found"));
        }
        proof {
            assert forall|j: int| 0 <= j < records@.len() implies (
            #[trigger] records@[j]).values@.len() == DIM by {
                assert(is_sound(outcomes[j]));
            }
        }
        Ok(VectorStore::from_records(k, &records))
    }

    /// The store of an embeddings file: `file` is what reading it from `path` gave.
    pub fn load<K: Numerics, D: RecordDecoder>(
        k: &K,
        d: &D,
        path: &str,
        file: Result<String, String>,
    ) -> (r: Result<Self, String>)
        ensures
            match file {
                Err(e) => match r {
                    Ok(_) => false,
                    Err(said) => said@ == read_error(path@, e@),
                },
                Ok(content) => is_loaded(k, d, content@, r),
            },
    {
        match file {
            Err(e) => Err(describe_read_error(path, e.as_str())),
            Ok(content) => VectorStore::from_content(k, d, content.as_str()),
        }
    }
}

/// Blank lines are passed over and nothing else: the lines that are read are the lines that are not
/// blank, each with its own number, in their order.
pub proof fn law_filled_lines_are_those_not_blank(lines: Seq<Seq<char>>)
    ensures
        forall|j: int|
            0 <= j < filled(lines).len() ==> {
                &&& 0 <= (#[trigger] filled(lines)[j]).0 < lines.len()
                &&& filled(lines)[j].1 == lines[filled(lines)[j].0]
                &&& !is_blank(filled(lines)[j].1)
            },
        forall|i: int, j: int|
            0 <= i < j < filled(lines).len() ==> (#[trigger] filled(lines)[i]).0 < (
            #[trigger] filled(lines)[j]).0,
        forall|n: int|
            0 <= n < lines.len() && !is_blank(#[trigger] lines[n]) ==> filled(lines).contains(
                (n, lines[n]),
            ),
    decreases lines.len(),
{
    if lines.len() > 0 {
        let rest = lines.drop_last();
        law_filled_lines_are_those_not_blank(rest);
        assert forall|n: int| 0 <= n < lines.len() && !is_blank(#[trigger] lines[n]) implies filled(
            lines,
        ).contains((n, lines[n])) by {
            if n < rest.len() {
                assert(rest[n] == lines[n]);
                let j = filled(rest).index_of((n, lines[n]));
                assert(filled(lines)[j] == (n, lines[n]));
            } else {
                assert(filled(lines).last() == (n, lines[n]));
            }
        }
    }
}

/// Two stores hold the same: the same rows with the same lengths, names, descriptions and concepts,
/// and the same rows and centroid for each concept.
pub open spec fn same_store(a: &VectorStore, b: &VectorStore) -> bool {
    &&& a.len == b.len
    &&& a.data@ == b.data@
    &&& strings(a.names@) == strings(b.names@)
    &&& strings(a.descriptions@) == strings(b.descriptions@)
    &&& a.tags() == b.tags()
    &&& a.norms@ == b.norms@
    &&& forall|e: int, f: int|
        0 <= e < a.concept_index@.len() && 0 <= f < b.concept_index@.len() && (
        #[trigger] a.concept_index@[e]).name@ == (#[trigger] b.concept_index@[f]).name@ ==> {
            &&& a.concept_index@[e].members@ == b.concept_index@[f].members@
            &&& a.concept_centroids@[e]@ == b.concept_centroids@[f]@
        }
    &&& forall|name: Seq<char>| #[trigger]
        names(a.concept_index@, name) <==> names(b.concept_index@, name)
}

/// Where each operation has one outcome, the same records make the same store.
pub proof fn law_store_is_determined<K: Numerics>(
    k: &K,
    records: Seq<Record>,
    a: &VectorStore,
    b: &VectorStore,
)
    requires
        functional(k),
        a.wf(),
        b.wf(),
        a.holds(records),
        b.holds(records),
        a.computed_with(k),
        b.computed_with(k),
    ensures
        same_store(a, b),
{
    assert forall|x: int| 0 <= x < a.data@.len() implies a.data@[x] == b.data@[x] by {
        let i = x / (DIM as int);
        let d = x % (DIM as int);
        assert(a.row(i) == records[i].values@);
        assert(a.row(i)[d] == a.data@[x]);
        assert(b.row(i)[d] == b.data@[x]);
    }
    assert(a.data@ =~= b.data@);
    assert forall|i: int| 0 <= i < a.len implies a.tags()[i] == b.tags()[i] by {
        assert(a.row(i) == records[i].values@);
    }
    assert(a.tags() =~= b.tags());
    assert forall|i: int| 0 <= i < a.len implies strings(a.names@)[i] == strings(b.names@)[i]
        && strings(a.descriptions@)[i] == strings(b.descriptions@)[i] by {
        assert(a.row(i) == records[i].values@);
    }
    assert(strings(a.names@) =~= strings(b.names@));
    assert(strings(a.descriptions@) =~= strings(b.descriptions@));
    assert forall|i: int| 0 <= i < a.len implies a.norms@[i] == b.norms@[i] by {
        assert(is_norm(k, a.row(i), a.norms@[i]));
        assert(is_norm(k, b.row(i), b.norms@[i]));
        law_norm_is_determined(k, a.row(i), a.norms@[i], b.norms@[i]);
    }
    assert(a.norms@ =~= b.norms@);
    assert forall|e: int, f: int|
        0 <= e < a.concept_index@.len() && 0 <= f < b.concept_index@.len() && (
        #[trigger] a.concept_index@[e]).name@ == (
        #[trigger] b.concept_index@[f]).name@ implies a.concept_index@[e].members@
        == b.concept_index@[f].members@ && a.concept_centroids@[e]@
        == b.concept_centroids@[f]@ by {
        lemma_centroids_agree(
            k,
            a.data@,
            a.concept_index@[e].members@,
            a.concept_centroids@[e]@,
            b.concept_centroids@[f]@,
        );
    }
    assert forall|name: Seq<char>| #[trigger] names(a.concept_index@, name) <==> names(
        b.concept_index@,
        name,
    ) by {
        lemma_named_where_carried(a.concept_index@, a.tags(), name);
        lemma_named_where_carried(b.concept_index@, b.tags(), name);
    }
}

proof fn lemma_centroids_agree<K: Numerics>(
    k: &K,
    data: Seq<Single>,
    members: Seq<usize>,
    a: Seq<Single>,
    b: Seq<Single>,
)
    requires
        functional(k),
        is_centroid(k, data, members, a),
        is_centroid(k, data, members, b),
    ensures
        a == b,
{
    let n = members.len() as usize;
    let x = choose|part: Single| #[trigger]
        is_share(k, n, part) && forall|d: int|
            0 <= d < DIM ==> is_mean(k, column(data, members, d), part, #[trigger] a[d]);
    let y = choose|part: Single| #[trigger]
        is_share(k, n, part) && forall|d: int|
            0 <= d < DIM ==> is_mean(k, column(data, members, d), part, #[trigger] b[d]);
    assert forall|d: int| 0 <= d < DIM implies a[d] == b[d] by {
        assert(is_mean(k, column(data, members, d), x, a[d]));
        assert(is_mean(k, column(data, members, d), y, b[d]));
        law_mean_is_determined(k, column(data, members, d), x, a[d], b[d]);
    }
    assert(a =~= b);
}

/// `d` reads each line in one way.
pub open spec fn reads_one_way<D: RecordDecoder>(d: &D) -> bool {
    forall|t: Seq<char>, r: Result<Record, String>, s: Result<Record, String>| #[trigger]
        decoded(d, t, r) && #[trigger] decoded(d, t, s) ==> r == s
}

/// The texts of numbered lines.
pub open spec fn line_texts(lines: Seq<(int, Seq<char>)>) -> Seq<Seq<char>> {
    Seq::new(lines.len(), |j: int| lines[j].1)
}

/// Where each line is read in one way, there is one outcome of reading the same lines, whatever
/// their numbers.
pub proof fn law_reading_is_determined<D: RecordDecoder>(
    d: &D,
    lines1: Seq<(int, Seq<char>)>,
    lines2: Seq<(int, Seq<char>)>,
    a: Seq<Result<Record, String>>,
    b: Seq<Result<Record, String>>,
)
    requires
        reads_one_way(d),
        line_texts(lines1) == line_texts(lines2),
        read_from(d, lines1, a),
        read_from(d, lines2, b),
    ensures
        a == b,
{
    assert(lines1.len() == line_texts(lines1).len() && lines2.len() == line_texts(lines2).len());
    assert forall|j: int| 0 <= j < a.len() && j < b.len() implies a[j] == b[j] by {
        assert(line_texts(lines1)[j] == line_texts(lines2)[j]);
        assert(decoded(d, lines1[j].1, a[j]));
        assert(decoded(d, lines2[j].1, b[j]));
    }
    if a.len() < b.len() {
        assert(a.last() == b[a.len() - 1]);
        assert(is_sound(b[a.len() - 1]));
    }
    if b.len() < a.len() {
        assert(b.last() == a[b.len() - 1]);
        assert(is_sound(a[b.len() - 1]));
    }
    assert(a =~= b);
}

/// `spaced` is `lines` with any number of blank lines put in before, between and after them.
pub open spec fn is_spaced_out(lines: Seq<Seq<char>>, spaced: Seq<Seq<char>>) -> bool
    decreases spaced.len(),
{
    if spaced.len() == 0 {
        lines.len() == 0
    } else {
        ||| is_blank(spaced.last()) && is_spaced_out(lines, spaced.drop_last())
        ||| lines.len() > 0 && lines.last() == spaced.last() && is_spaced_out(
            lines.drop_last(),
            spaced.drop_last(),
        )
    }
}

proof fn lemma_spaced_out(lines: Seq<Seq<char>>, spaced: Seq<Seq<char>>)
    requires
        is_spaced_out(lines, spaced),
    ensures
        line_texts(filled(lines)) == line_texts(filled(spaced)),
    decreases spaced.len(),
{
    if spaced.len() == 0 {
        assert(line_texts(filled(lines)) =~= line_texts(filled(spaced)));
    } else if is_blank(spaced.last()) && is_spaced_out(lines, spaced.drop_last()) {
        lemma_spaced_out(lines, spaced.drop_last());
    } else {
        lemma_spaced_out(lines.drop_last(), spaced.drop_last());
        if !is_blank(spaced.last()) {
            let a = line_texts(filled(lines.drop_last()));
            assert(line_texts(filled(lines)) =~= a.push(lines.last()));
            let b = line_texts(filled(spaced.drop_last()));
            assert(line_texts(filled(spaced)) =~= b.push(spaced.last()));
        }
    }
}

/// Where each line is read in one way and each operation has one outcome, blank lines that are put
/// into a file leave its store as it is.
pub proof fn law_blank_lines_change_nothing<K: Numerics, D: RecordDecoder>(
    k: &K,
    d: &D,
    content: Seq<char>,
    spaced: Seq<char>,
    store: VectorStore,
    r: Result<VectorStore, String>,
)
    requires
        functional(k),
        reads_one_way(d),
        is_spaced_out(lines_of(content), lines_of(spaced)),
        is_loaded(k, d, content, Ok(store)),
        is_loaded(k, d, spaced, r),
    ensures
        r matches Ok(s) && same_store(&store, &s),
{
    let a = choose|outcomes: Seq<Result<Record, String>>| #[trigger]
        read_from(d, record_lines(content), outcomes) && all_sound(outcomes) && store.wf()
            && store.holds(records_of(outcomes)) && store.computed_with(k);
    let b = choose|outcomes: Seq<Result<Record, String>>| #[trigger]
        read_from(d, record_lines(spaced), outcomes) && match r {
            Ok(s) => {
                &&& all_sound(outcomes)
                &&& s.wf()
                &&& s.holds(records_of(outcomes))
                &&& s.computed_with(k)
            },
            Err(e) => {
                &&& !all_sound(outcomes)
                &&& e@ == load_error(record_lines(spaced), outcomes)
            },
        };
    lemma_spaced_out(lines_of(content), lines_of(spaced));
    law_reading_is_determined(d, record_lines(content), record_lines(spaced), a, b);
    if let Ok(s) = r {
        law_store_is_determined(k, records_of(a), &store, &s);
    }
}

proof fn lemma_filled_prefix(lines: Seq<Seq<char>>, n: int)
    requires
        0 <= n <= lines.len(),
    ensures
        filled(lines.take(n)).len() <= filled(lines).len(),
        forall|j: int|
            0 <= j < filled(lines.take(n)).len() ==> filled(lines)[j] == #[trigger] filled(
                lines.take(n),
            )[j],
    decreases lines.len(),
{
    if n == lines.len() {
        assert(lines.take(n) =~= lines);
    } else {
        let rest = lines.drop_last();
        lemma_filled_prefix(rest, n);
        assert(rest.take(n) =~= lines.take(n));
    }
}

impl VectorStore {
    /// Whether one of the concepts listed for row `i`, at whichever place, is `name`.
    pub open spec fn lists(&self, i: int, name: Seq<char>) -> bool {
        exists|j: int|
            0 <= j < self.concepts@[i]@.len() && (#[trigger] self.concepts@[i]@[j])@ == name
    }

    /// A row carries a concept just where the concept is somewhere in its list.
    pub(crate) proof fn lemma_carries(&self, i: int, name: Seq<char>)
        requires
            0 <= i < self.concepts@.len(),
        ensures
            self.carries(i, name) <==> self.lists(i, name),
    {
        let tags = self.tags()[i];
        assert(tags == strings(self.concepts@[i]@));
        if tags.contains(name) {
            let j = tags.index_of(name);
            assert(self.concepts@[i]@[j]@ == name);
        }
        if self.lists(i, name) {
            let j = choose|j: int|
                0 <= j < self.concepts@[i]@.len() && (#[trigger] self.concepts@[i]@[j])@ == name;
            assert(tags[j] == name);
        }
    }
}

/// A row carries a concept just where one of the concepts in its list, at whichever place, has that
/// name.
pub proof fn law_row_carries_what_its_list_holds(store: &VectorStore, i: int, name: Seq<char>)
    requires
        0 <= i < store.concepts@.len(),
    ensures
        store.carries(i, name) <==> exists|j: int|
            0 <= j < store.concepts@[i]@.len() && (#[trigger] store.concepts@[i]@[j])@ == name,
        store.carries(i, name) <==> members_of(store.tags(), name).contains(i as usize),
{
    store.lemma_carries(i, name);
    assert(store.tags().len() == store.concepts.len());
    law_members_are_the_tagged_rows(store.tags(), name);
    assert((i as usize) as int == i);
}

/// The index of a store has one entry for each concept that stands anywhere in the lists of its
/// rows. The members of an entry are in ascending order, none twice, and they are just the rows in
/// whose lists the concept stands at some place. Each entry has a centroid, of full length.
pub proof fn law_store_indexes_every_concept(store: &VectorStore)
    requires
        store.wf(),
    ensures
        forall|a: int, b: int|
            0 <= a < b < store.concept_index@.len() ==> (#[trigger] store.concept_index@[a]).name@
                != (#[trigger] store.concept_index@[b]).name@,
        forall|e: int, m: int, n: int|
            0 <= e < store.concept_index@.len() && 0 <= m < n
                < store.concept_index@[e].members@.len()
                ==> #[trigger] store.concept_index@[e].members@[m]
                < #[trigger] store.concept_index@[e].members@[n],
        forall|e: int, i: usize|
            0 <= e < store.concept_index@.len() ==> (
            #[trigger] store.concept_index@[e].members@.contains(i) <==> i < store.len && exists|
                j: int,
            |
                0 <= j < store.concepts@[i as int]@.len() && (
                #[trigger] store.concepts@[i as int]@[j])@ == store.concept_index@[e].name@),
        forall|e: int|
            0 <= e < store.concept_index@.len() ==> (
            #[trigger] store.concept_index@[e]).members@.len() > 0,
        forall|i: int, j: int|
            0 <= i < store.len && 0 <= j < store.concepts@[i]@.len() ==> names(
                store.concept_index@,
                (#[trigger] store.concepts@[i]@[j])@,
            ),
        store.concept_centroids@.len() == store.concept_index@.len(),
        forall|e: int|
            0 <= e < store.concept_index@.len() ==> (
            #[trigger] store.concept_centroids@[e])@.len() == DIM,
{
    let index = store.concept_index@;
    assert(store.tags().len() == store.concepts.len());
    assert forall|e: int, m: int, n: int|
        0 <= e < index.len() && 0 <= m < n < index[e].members@.len()
        implies #[trigger] index[e].members@[m] < #[trigger] index[e].members@[n] by {
        law_members_are_the_tagged_rows(store.tags(), index[e].name@);
    }
    assert forall|e: int, i: usize| 0 <= e < index.len() implies (
    #[trigger] index[e].members@.contains(i) <==> i < store.len && exists|j: int|
        0 <= j < store.concepts@[i as int]@.len() && (#[trigger] store.concepts@[i as int]@[j])@
            == index[e].name@) by {
        law_members_are_the_tagged_rows(store.tags(), index[e].name@);
        if i < store.len {
            store.lemma_carries(i as int, index[e].name@);
        }
    }
    assert forall|i: int, j: int| 0 <= i < store.len && 0 <= j < store.concepts@[i]@.len() implies
        names(index, (#[trigger] store.concepts@[i]@[j])@) by {
        assert(store.tags()[i][j] == store.concepts@[i]@[j]@);
    }
}

/// A store holds its records row by row: their values end to end, their names, their descriptions
/// and their lists of concepts as they are; and the length of each row is that of the values.
pub proof fn law_store_holds_its_records<K: Numerics>(
    k: &K,
    store: &VectorStore,
    records: Seq<Record>,
)
    requires
        store.wf(),
        store.holds(records),
        store.computed_with(k),
    ensures
        store.len == records.len(),
        store.data@.len() == records.len() * 384,
        store.names@.len() == records.len(),
        store.descriptions@.len() == records.len(),
        store.concepts@.len() == records.len(),
        store.norms@.len() == records.len(),
        forall|i: int|
            0 <= i < records.len() ==> {
                &&& store.data@.subrange(i * 384, (i + 1) * 384) == (#[trigger] records[i]).values@
                &&& store.names@[i]@ == records[i].name@
                &&& store.descriptions@[i]@ == records[i].description@
                &&& store.concepts@[i]@.len() == records[i].concepts@.len()
                &&& is_norm(k, records[i].values@, store.norms@[i])
            },
        forall|i: int, j: int|
            0 <= i < records.len() && 0 <= j < records[i].concepts@.len() ==> (
            #[trigger] store.concepts@[i]@[j])@ == records[i].concepts@[j]@,
{
    assert forall|i: int| 0 <= i < records.len() implies {
        &&& store.data@.subrange(i * 384, (i + 1) * 384) == (#[trigger] records[i]).values@
        &&& store.names@[i]@ == records[i].name@
        &&& store.descriptions@[i]@ == records[i].description@
        &&& store.concepts@[i]@.len() == records[i].concepts@.len()
        &&& is_norm(k, records[i].values@, store.norms@[i])
    } by {
        assert(store.row(i) == records[i].values@);
        assert(is_norm(k, store.row(i), store.norms@[i]));
        assert(strings(store.concepts@[i]@).len() == strings(records[i].concepts@).len());
    }
    assert forall|i: int, j: int| 0 <= i < records.len() && 0 <= j < records[i].concepts@.len()
        implies (#[trigger] store.concepts@[i]@[j])@ == records[i].concepts@[j]@ by {
        assert(store.row(i) == records[i].values@);
        assert(strings(store.concepts@[i]@)[j] == strings(records[i].concepts@)[j]);
    }
}

/// A store is made of the very records that it is given, and its lengths and centroids with the
/// arithmetic that it is given.
pub proof fn law_store_is_made_of_its_records<K: Numerics>(
    k: &K,
    records: &Vec<Record>,
    store: VectorStore,
)
    requires
        records@.len() > 0,
        forall|i: int| 0 <= i < records@.len() ==> (#[trigger] records@[i]).values@.len() == DIM,
        call_ensures(VectorStore::from_records::<K>, (k, records), store),
    ensures
        store.wf(),
        store.holds(records@),
        store.computed_with(k),
{
}

/// A component of a centroid is the mean of that component over all rows that carry the concept:
/// the rows' components are added up in the order of the rows, each of them and from 0 on, and the
/// sum is multiplied by 1 divided by the number of these rows. That number, in the format of the
/// arithmetic, is `w.0`, 1 divided by it is `w.1`, and the results of the additions are `w.2`.
#[verifier::rlimit(40)]
pub proof fn law_centroid_is_the_mean_of_all_members<K: Numerics>(
    k: &K,
    store: &VectorStore,
    e: int,
    d: int,
) -> (w: (Single, Single, Seq<Single>))
    requires
        store.wf(),
        store.computed_with(k),
        0 <= e < store.concept_index@.len(),
        0 <= d < 384,
    ensures
        ({
            let members = store.concept_index@[e].members@;
            &&& counted(k, members.len() as usize, w.0)
            &&& members.len() <= usize::MAX
            &&& divided(k, ONE, w.0, w.1)
            &&& w.2.len() == members.len() + 1
            &&& w.2[0] == ZERO
            &&& forall|m: int|
                0 <= m < members.len() ==> added(
                    k,
                    #[trigger] w.2[m],
                    store.data@[members[m] * 384 + d],
                    w.2[m + 1],
                )
            &&& multiplied(k, w.2[members.len() as int], w.1, store.concept_centroids@[e]@[d])
            &&& forall|m: int, n: int|
                0 <= m < n < members.len() ==> #[trigger] members[m] < #[trigger] members[n]
            &&& forall|i: usize| #[trigger]
                members.contains(i) <==> i < store.len && exists|j: int|
                    0 <= j < store.concepts@[i as int]@.len() && (
                    #[trigger] store.concepts@[i as int]@[j])@ == store.concept_index@[e].name@
        }),
{
    let members = store.concept_index@[e].members@;
    let centroid = store.concept_centroids@[e]@;
    assert(is_centroid(k, store.data@, members, centroid));
    let part = choose|part: Single| #[trigger]
        is_share(k, members.len() as usize, part) && forall|d: int|
            0 <= d < DIM ==> is_mean(
                k,
                column(store.data@, members, d),
                part,
                #[trigger] centroid[d],
            );
    let terms = column(store.data@, members, d);
    assert(is_mean(k, terms, part, centroid[d]));
    let sums = law_mean_is_a_share_of_the_sum(k, terms, part, centroid[d]);
    let c = law_share_is_one_divided(k, members.len() as usize, part);
    law_store_indexes_every_concept(store);
    assert(store.concept_index@[e].members.len() == members.len());
    assert forall|m: int| 0 <= m < members.len() implies added(
        k,
        #[trigger] sums[m],
        store.data@[members[m] * 384 + d],
        sums[m + 1],
    ) by {
        let i = members[m] as int;
        assert(members.contains(members[m]));
        assert((i + 1) * 384 <= store.len * 384) by (nonlinear_arith)
            requires
                i < store.len,
        ;
        assert(terms[m] == store.data@[i * 384 + d]);
        assert(added(k, sums[m], terms[m], sums[m + 1]));
    }
    (c, part, sums)
}

/// What is read out of a line is what the caller's decoder gives for that very line.
pub proof fn law_decoding_is_the_decoders<D: RecordDecoder>(
    d: &D,
    line: &str,
    r: Result<Record, String>,
)
    ensures
        call_ensures(D::record, (d, line), r) ==> decoded(d, line@, r),
        decoded(d, line@, r) ==> exists|t: &str|
            t@ == line@ && #[trigger] call_ensures(D::record, (d, t), r),
{
}

/// A file that cannot be read gives no store, but the path and what is wrong.
pub proof fn law_unreadable_file_is_told<K: Numerics, D: RecordDecoder>(
    k: &K,
    d: &D,
    path: &str,
    error: String,
    r: Result<VectorStore, String>,
)
    requires
        call_ensures(VectorStore::load::<K, D>, (k, d, path, Err::<String, String>(error)), r),
    ensures
        r matches Err(told) && told@ == "read "@ + path@ + ": "@ + error@,
{
}

/// A file is read line by line, from the first on; blank lines are passed over, and no other. The
/// numbers of the lines that were read are `w.0`, and what they gave is `w.1`. Where all lines that
/// are not blank give records of full length, and there is one, the file gives the store of these
/// records. Otherwise the reading ends with the first line that does not, and the file gives no
/// store but says what is wrong with that line; or that there are no records.
#[verifier::rlimit(40)]
pub proof fn law_file_is_read_line_by_line<K: Numerics, D: RecordDecoder>(
    k: &K,
    d: &D,
    path: &str,
    content: String,
    r: Result<VectorStore, String>,
) -> (w: (Seq<int>, Seq<Result<Record, String>>))
    requires
        call_ensures(VectorStore::load::<K, D>, (k, d, path, Ok::<String, String>(content)), r),
    ensures
        ({
            let lines = lines_of(content@);
            let n = w.0.len() as int;
            &&& w.1.len() == n
            &&& forall|j: int|
                0 <= j < n ==> {
                    &&& 0 <= #[trigger] w.0[j] < lines.len()
                    &&& !is_blank(lines[w.0[j]])
                    &&& decoded(d, lines[w.0[j]], w.1[j])
                }
            &&& forall|i: int, j: int| 0 <= i < j < n ==> #[trigger] w.0[i] < #[trigger] w.0[j]
            &&& forall|j: int|
                0 <= j < n && (r is Ok || j < n - 1) ==> {
                    &&& (#[trigger] w.1[j]) matches Ok(record)
                    &&& record.values@.len() == 384
                }
            &&& forall|l: int|
                0 <= l < lines.len() && !is_blank(#[trigger] lines[l]) && (r is Ok || n == 0 || l
                    <= w.0[n - 1]) ==> w.0.contains(l)
            &&& match r {
                Ok(store) => {
                    &&& n > 0
                    &&& store.wf()
                    &&& store.computed_with(k)
                    &&& store.holds(Seq::new(n as nat, |j: int| w.1[j]->Ok_0))
                },
                Err(told) => if n == 0 {
                    told@ == "no records found"@
                } else {
                    match w.1[n - 1] {
                        Err(e) => told@ == "parse line "@ + decimal(w.0[n - 1] as nat) + ": "@ + e@,
                        Ok(record) => record.values@.len() != 384 && told@ == "line "@ + decimal(
                            w.0[n - 1] as nat,
                        ) + ": expected "@ + decimal(384) + " dims, got "@ + decimal(
                            record.values@.len(),
                        ),
                    }
                },
            }
        }),
{
    let lines = lines_of(content@);
    let numbered = filled(lines);
    assert(is_loaded(k, d, content@, r));
    let outcomes = choose|outcomes: Seq<Result<Record, String>>| #[trigger]
        read_from(d, record_lines(content@), outcomes) && match r {
            Ok(store) => {
                &&& all_sound(outcomes)
                &&& store.wf()
                &&& store.holds(records_of(outcomes))
                &&& store.computed_with(k)
            },
            Err(e) => {
                &&& !all_sound(outcomes)
                &&& e@ == load_error(record_lines(content@), outcomes)
            },
        };
    let n = outcomes.len() as int;
    let numbers = Seq::new(outcomes.len(), |j: int| numbered[j].0);
    law_filled_lines_are_those_not_blank(lines);
    assert forall|j: int| 0 <= j < n implies {
        &&& 0 <= #[trigger] numbers[j] < lines.len()
        &&& !is_blank(lines[numbers[j]])
        &&& decoded(d, lines[numbers[j]], outcomes[j])
    } by {
        assert(numbered[j].1 == lines[numbered[j].0]);
        assert(decoded(d, numbered[j].1, outcomes[j]));
    }
    assert forall|i: int, j: int| 0 <= i < j < n implies #[trigger] numbers[i]
        < #[trigger] numbers[j] by {
        assert(numbered[i].0 < numbered[j].0);
    }
    assert forall|j: int| 0 <= j < n && (r is Ok || j < n - 1) implies {
        &&& (#[trigger] outcomes[j]) matches Ok(record)
        &&& record.values@.len() == 384
    } by {
        assert(is_sound(outcomes[j]));
    }
    assert forall|l: int|
        0 <= l < lines.len() && !is_blank(#[trigger] lines[l]) && (r is Ok || n == 0 || l
            <= numbers[n - 1]) implies numbers.contains(l) by {
        let x = numbered.index_of((l, lines[l]));
        assert(numbered[x].0 == l);
        if x >= n {
            if n > 0 {
                assert(numbered[n - 1].0 < numbered[x].0);
                assert(numbers[n - 1] == numbered[n - 1].0);
            }
        }
        assert(numbers[x] == l);
    }
    if let Ok(store) = r {
        assert(records_of(outcomes) =~= Seq::new(n as nat, |j: int| outcomes[j]->Ok_0));
    } else if n > 0 {
        assert(!is_sound(outcomes.last()));
    }
    (numbers, outcomes)
}

/// A row is the 384 numbers that stand from `i * 384` on.
pub proof fn law_row_is_its_numbers(store: &VectorStore, i: int)
    ensures
        store.row(i) == store.data@.subrange(i * 384, (i + 1) * 384),
{
}

} // verus!
