//! Work over a range of row numbers, shared out among threads.

use rayon::iter::{IntoParallelIterator, ParallelIterator};
use vstd::prelude::*;

verus! {

/// The most items that one parallel pass is given.
pub const BATCH: usize = 0x10_0000;

/// The values that are there, in order.
pub open spec fn present<T>(values: Seq<Option<T>>) -> Seq<T>
    decreases values.len(),
{
    if values.len() == 0 {
        Seq::empty()
    } else {
        match values.last() {
            Some(v) => present(values.drop_last()).push(v),
            None => present(values.drop_last()),
        }
    }
}

/// `outcomes` are what calls of `f` on `start..end` gave, in the order of the range.
pub open spec fn outcomes_of<T, F: Fn(usize) -> T>(
    f: F,
    start: usize,
    end: usize,
    outcomes: Seq<T>,
) -> bool {
    &&& outcomes.len() == end - start
    &&& forall|i: usize|
        start <= i < end ==> call_ensures(f, (i,), #[trigger] outcomes[i - start])
}

/// `found` is what calls of `f` on `start..end` gave, in the order of the range and without the
/// calls that gave nothing.
pub open spec fn gathers<T, F: Fn(usize) -> Option<T>>(
    f: F,
    start: usize,
    end: usize,
    found: Seq<T>,
) -> bool {
    exists|outcomes: Seq<Option<T>>| #[trigger]
        outcomes_of(f, start, end, outcomes) && found == present(outcomes)
}

/// `rayon`'s `ParallelIterator::map` over the range `start..end`, gathered by `collect` into a
/// vector.
///
/// Claimed of it: `f` is called on each number of the range, and the vector holds what the calls
/// gave, in the order of the range.
#[verifier::external_body]
fn par_map<F: Fn(usize) -> (usize, u32) + Sync>(start: usize, end: usize, f: &F) -> (r: Vec<
    (usize, u32),
>)
    requires
        start <= end,
        end - start <= BATCH,
        forall|i: usize| start <= i < end ==> call_requires(f, (i,)),
    ensures
        outcomes_of(*f, start, end, r@),
{
    (start..end).into_par_iter().map(f).collect()
}

/// `rayon`'s `ParallelIterator::filter_map` over the range `start..end`, gathered by `collect`
/// into a vector.
///
/// Claimed of it: `f` is called on each number of the range, and the vector holds what the calls
/// gave, in the order of the range and without the calls that gave nothing.
#[verifier::external_body]
fn par_filter_map<F: Fn(usize) -> Option<(usize, u32)> + Sync>(
    start: usize,
    end: usize,
    f: &F,
) -> (r: Vec<(usize, u32)>)
    requires
        start <= end,
        end - start <= BATCH,
        forall|i: usize| start <= i < end ==> call_requires(f, (i,)),
    ensures
        gathers(*f, start, end, r@),
{
    (start..end).into_par_iter().filter_map(f).collect()
}

fn extend(out: &mut Vec<(usize, u32)>, part: &Vec<(usize, u32)>)
    ensures
        final(out)@ == old(out)@ + part@,
{
    let ghost before = out@;
    let mut j: usize = 0;
    while j < part.len()
        invariant
            j <= part@.len(),
            out@ == before + part@.take(j as int),
        decreases part@.len() - j,
    {
        out.push(part[j]);
        proof {
            assert(part@.take(j + 1) == part@.take(j as int).push(part@[j as int]));
        }
        j = j + 1;
    }
    proof {
        assert(part@.take(j as int) == part@);
    }
}

proof fn lemma_present_concat<T>(a: Seq<Option<T>>, b: Seq<Option<T>>)
    ensures
        present(a + b) == present(a) + present(b),
    decreases b.len(),
{
    if b.len() == 0 {
        assert(a + b == a);
        assert(present(a) + present(b) == present(a));
    } else {
        assert((a + b).drop_last() == a + b.drop_last());
        lemma_present_concat(a, b.drop_last());
        match b.last() {
            Some(v) => {
                assert(present(a) + present(b.drop_last()).push(v) == (present(a) + present(
                    b.drop_last(),
                )).push(v));
            },
            None => {},
        }
    }
}

proof fn lemma_outcomes_concat<T, F: Fn(usize) -> T>(
    f: F,
    mid: usize,
    end: usize,
    a: Seq<T>,
    b: Seq<T>,
)
    requires
        mid <= end,
        outcomes_of(f, 0, mid, a),
        outcomes_of(f, mid, end, b),
    ensures
        outcomes_of(f, 0, end, a + b),
{
    let joined = a + b;
    assert forall|i: usize| 0 <= i < end implies call_ensures(
        f,
        (i,),
        #[trigger] joined[i - 0],
    ) by {
        if i < mid {
            assert(joined[i - 0] == a[i - 0]);
        } else {
            assert(joined[i - 0] == b[i - mid]);
        }
    }
}

/// The values that are there are those that were given.
pub proof fn law_present<T>(values: Seq<Option<T>>, v: T)
    ensures
        present(values).contains(v) <==> values.contains(Some(v)),
    decreases values.len(),
{
    if values.len() > 0 {
        let rest = values.drop_last();
        law_present(rest, v);
        if values.contains(Some(v)) {
            let i = values.index_of(Some(v));
            if i < rest.len() {
                assert(rest[i] == Some(v));
                let j = present(rest).index_of(v);
                assert(present(values)[j] == v);
            } else {
                assert(present(values).last() == v);
            }
        }
        if present(values).contains(v) {
            let j = present(values).index_of(v);
            if j < present(rest).len() {
                assert(present(rest)[j] == v);
                let i = rest.index_of(Some(v));
                assert(values[i] == Some(v));
            } else {
                assert(values[values.len() - 1] == Some(v));
            }
        }
    }
}

/// What `f` gives on `0..n`, in order.
pub(crate) fn scan<F: Fn(usize) -> (usize, u32) + Sync>(n: usize, f: F) -> (r: Vec<(usize, u32)>)
    requires
        forall|i: usize| i < n ==> call_requires(f, (i,)),
    ensures
        outcomes_of(f, 0, n, r@),
{
    let mut out: Vec<(usize, u32)> = Vec::new();
    let mut start: usize = 0;
    while start < n
        invariant
            start <= n,
            forall|i: usize| i < n ==> call_requires(f, (i,)),
            outcomes_of(f, 0, start, out@),
        decreases n - start,
    {
        let end: usize = if n - start < BATCH {
            n
        } else {
            start + BATCH
        };
        let part = par_map(start, end, &f);
        proof {
            lemma_outcomes_concat(f, start, end, out@, part@);
        }
        extend(&mut out, &part);
        start = end;
    }
    out
}

/// What `f` gives on `0..n`, in order, without the calls that give nothing.
pub(crate) fn scan_some<F: Fn(usize) -> Option<(usize, u32)> + Sync>(n: usize, f: F) -> (r: Vec<
    (usize, u32),
>)
    requires
        forall|i: usize| i < n ==> call_requires(f, (i,)),
    ensures
        gathers(f, 0, n, r@),
{
    let mut out: Vec<(usize, u32)> = Vec::new();
    let ghost mut outcomes: Seq<Option<(usize, u32)>> = Seq::empty();
    let mut start: usize = 0;
    while start < n
        invariant
            start <= n,
            forall|i: usize| i < n ==> call_requires(f, (i,)),
            outcomes_of(f, 0, start, outcomes),
            out@ == present(outcomes),
        decreases n - start,
    {
        let end: usize = if n - start < BATCH {
            n
        } else {
            start + BATCH
        };
        let part = par_filter_map(start, end, &f);
        extend(&mut out, &part);
        proof {
            let more = choose|more: Seq<Option<(usize, u32)>>| #[trigger]
                outcomes_of(f, start, end, more) && part@ == present(more);
            lemma_present_concat(outcomes, more);
            lemma_outcomes_concat(f, start, end, outcomes, more);
            outcomes = outcomes + more;
        }
        start = end;
    }
    out
}

/// The values that are there keep their order, and each comes out once: value `j` of them stood at
/// place `places[j]`, these places ascend, and they are all places where there is a value.
pub proof fn law_present_keeps_the_order<T>(values: Seq<Option<T>>) -> (places: Seq<int>)
    ensures
        places.len() == present(values).len(),
        forall|j: int|
            0 <= j < places.len() ==> 0 <= #[trigger] places[j] < values.len()
                && values[places[j]] == Some(present(values)[j]),
        forall|i: int, j: int|
            0 <= i < j < places.len() ==> #[trigger] places[i] < #[trigger] places[j],
        forall|i: int| 0 <= i < values.len() && (#[trigger] values[i]) is Some ==> places.contains(i),
    decreases values.len(),
{
    if values.len() == 0 {
        Seq::empty()
    } else {
        let rest = values.drop_last();
        let earlier = law_present_keeps_the_order(rest);
        let last = values.len() - 1;
        let places = if values.last() is Some {
            earlier.push(last)
        } else {
            earlier
        };
        assert forall|j: int| 0 <= j < places.len() implies 0 <= #[trigger] places[j]
            < values.len() && values[places[j]] == Some(present(values)[j]) by {
            if j < earlier.len() {
                assert(earlier[j] == places[j]);
                assert(rest[earlier[j]] == values[earlier[j]]);
            }
        }
        assert forall|i: int| 0 <= i < values.len() && (#[trigger] values[i]) is Some implies
            places.contains(i) by {
            if i < last {
                assert(rest[i] == values[i]);
                let j = earlier.index_of(i);
                assert(places[j] == i);
            } else {
                assert(places[earlier.len() as int] == i);
            }
        }
        places
    }
}

} // verus!
