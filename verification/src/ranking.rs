//! Ordering rows from the best to the worst.

use vstd::prelude::*;

use crate::scalar::{exceeds, greater, is_nan, number, rank, rank_of, Single};
use crate::text::first;

verus! {

/// Whether place `i` goes before place `j`: the higher key does, and of equal keys the earlier
/// place.
pub open spec fn before(keys: Seq<i64>, i: int, j: int) -> bool {
    keys[i] > keys[j] || (keys[i] == keys[j] && i < j)
}

/// `order` holds places within `from..to`, each before all that follow it.
pub open spec fn ordered(keys: Seq<i64>, from: int, to: int, order: Seq<usize>) -> bool {
    &&& forall|a: int| 0 <= a < order.len() ==> from <= #[trigger] order[a] < to
    &&& forall|a: int, b: int|
        0 <= a < b < order.len() ==> before(
            keys,
            #[trigger] order[a] as int,
            #[trigger] order[b] as int,
        )
}

/// `order` holds the places `from..to`, all of them, each before all that follow it.
pub open spec fn ranks_range(keys: Seq<i64>, from: int, to: int, order: Seq<usize>) -> bool {
    &&& to <= usize::MAX
    &&& order.len() == to - from
    &&& ordered(keys, from, to, order)
    &&& forall|p: usize| from <= p < to ==> #[trigger] order.contains(p)
}

/// `order` holds all places of `keys`, the highest key first and equal keys in their own order.
pub open spec fn is_ranking(keys: Seq<i64>, order: Seq<usize>) -> bool {
    ranks_range(keys, 0, keys.len() as int, order)
}

/// Merges two rankings of neighbouring ranges into one.
fn merge(
    keys: &Vec<i64>,
    Ghost(from): Ghost<int>,
    Ghost(mid): Ghost<int>,
    Ghost(to): Ghost<int>,
    left: &Vec<usize>,
    right: &Vec<usize>,
) -> (out: Vec<usize>)
    requires
        0 <= from <= mid <= to <= keys@.len(),
        ranks_range(keys@, from, mid, left@),
        ranks_range(keys@, mid, to, right@),
    ensures
        ranks_range(keys@, from, to, out@),
{
    let mut out: Vec<usize> = Vec::new();
    let mut i: usize = 0;
    let mut j: usize = 0;
    while i < left.len() || j < right.len()
        invariant
            0 <= from <= mid <= to <= keys@.len(),
            ranks_range(keys@, from, mid, left@),
            ranks_range(keys@, mid, to, right@),
            i <= left@.len(),
            j <= right@.len(),
            out@.len() == i + j,
            ordered(keys@, from, to, out@),
            forall|a: int, b: int|
                0 <= a < out@.len() && i <= b < left@.len() ==> before(
                    keys@,
                    #[trigger] out@[a] as int,
                    #[trigger] left@[b] as int,
                ),
            forall|a: int, b: int|
                0 <= a < out@.len() && j <= b < right@.len() ==> before(
                    keys@,
                    #[trigger] out@[a] as int,
                    #[trigger] right@[b] as int,
                ),
            forall|a: int| 0 <= a < i ==> out@.contains(#[trigger] left@[a]),
            forall|a: int| 0 <= a < j ==> out@.contains(#[trigger] right@[a]),
        decreases left@.len() - i + right@.len() - j,
    {
        let ghost earlier = out@;
        let from_left: bool = if i < left.len() {
            if j < right.len() {
                keys[left[i]] >= keys[right[j]]
            } else {
                true
            }
        } else {
            false
        };
        if from_left {
            let p: usize = left[i];
            out.push(p);
            proof {
                assert(forall|a: int| 0 <= a < earlier.len() ==> out@[a] == earlier[a]);
                assert(out@[earlier.len() as int] == p);
                assert forall|q: usize| earlier.contains(q) implies #[trigger] out@.contains(q) by {
                    let a = earlier.index_of(q);
                    assert(out@[a] == q);
                }
            }
            i = i + 1;
        } else {
            let p: usize = right[j];
            out.push(p);
            proof {
                assert(forall|a: int| 0 <= a < earlier.len() ==> out@[a] == earlier[a]);
                assert(out@[earlier.len() as int] == p);
                assert forall|q: usize| earlier.contains(q) implies #[trigger] out@.contains(q) by {
                    let a = earlier.index_of(q);
                    assert(out@[a] == q);
                }
            }
            j = j + 1;
        }
    }
    proof {
        assert forall|p: usize| from <= p < to implies #[trigger] out@.contains(p) by {
            if p < mid {
                assert(left@.contains(p));
                let a = left@.index_of(p);
                assert(out@.contains(left@[a]));
            } else {
                assert(right@.contains(p));
                let a = right@.index_of(p);
                assert(out@.contains(right@[a]));
            }
        }
    }
    out
}

fn rank_range(keys: &Vec<i64>, from: usize, to: usize) -> (out: Vec<usize>)
    requires
        from <= to <= keys@.len(),
    ensures
        ranks_range(keys@, from as int, to as int, out@),
    decreases to - from,
{
    let mut out: Vec<usize> = Vec::new();
    if to - from == 0 {
        return out;
    }
    if to - from == 1 {
        out.push(from);
        proof {
            assert(out@[0] == from);
        }
        return out;
    }
    let mid: usize = from + (to - from) / 2;
    let left = rank_range(keys, from, mid);
    let right = rank_range(keys, mid, to);
    merge(keys, Ghost(from as int), Ghost(mid as int), Ghost(to as int), &left, &right)
}

/// All places of `keys`, the highest key first and equal keys in their own order.
pub fn ranking(keys: &Vec<i64>) -> (order: Vec<usize>)
    ensures
        is_ranking(keys@, order@),
{
    rank_range(keys, 0, keys.len())
}

/// The keys by which scored rows are ordered.
pub open spec fn score_keys(rows: Seq<(usize, Single)>) -> Seq<i64> {
    Seq::new(rows.len(), |i: int| rank(rows[i].1) as i64)
}

/// The `n` first places of `order`, but no more than there are.
pub open spec fn pick<T>(items: Seq<T>, order: Seq<usize>, n: nat) -> Seq<T> {
    Seq::new(
        if n < order.len() {
            n
        } else {
            order.len()
        },
        |i: int| items[order[i] as int],
    )
}

/// `out` holds the `n` rows with the highest scores (all rows, where there are fewer), the best
/// first, and rows with equal scores in the order in which `rows` has them.
pub open spec fn is_top(rows: Seq<(usize, Single)>, n: nat, out: Seq<(usize, Single)>) -> bool {
    exists|order: Seq<usize>| #[trigger]
        is_ranking(score_keys(rows), order) && out == pick(rows, order, n)
}

/// The `n` rows with the highest scores, the best first.
pub fn top(rows: &Vec<(usize, Single)>, n: usize) -> (out: Vec<(usize, Single)>)
    ensures
        is_top(rows@, n as nat, out@),
{
    let mut keys: Vec<i64> = Vec::new();
    let mut i: usize = 0;
    while i < rows.len()
        invariant
            i <= rows@.len(),
            keys@ == score_keys(rows@.take(i as int)),
        decreases rows@.len() - i,
    {
        keys.push(rank_of(rows[i].1));
        proof {
            assert(keys@ =~= score_keys(rows@.take(i + 1)));
        }
        i = i + 1;
    }
    proof {
        assert(rows@.take(i as int) == rows@);
    }
    let order = ranking(&keys);
    let count: usize = if n < order.len() {
        n
    } else {
        order.len()
    };
    let mut out: Vec<(usize, Single)> = Vec::new();
    let mut j: usize = 0;
    while j < count
        invariant
            j <= count <= order@.len(),
            is_ranking(score_keys(rows@), order@),
            out@ == pick(rows@, order@, j as nat),
        decreases count - j,
    {
        out.push(rows[order[j]]);
        proof {
            assert(out@ =~= pick(rows@, order@, (j + 1) as nat));
        }
        j = j + 1;
    }
    proof {
        assert(out@ =~= pick(rows@, order@, n as nat));
    }
    out
}

/// Whether `x` is a number above `floor`; where there is no floor, any number is.
pub open spec fn clears(x: Single, floor: Option<Single>) -> bool {
    match floor {
        Some(floor) => exceeds(x, floor),
        None => !is_nan(x),
    }
}

/// `found` is the first place with the greatest of the numbers above `floor`, if there are any.
pub open spec fn is_first_best(
    values: Seq<Single>,
    floor: Option<Single>,
    found: Option<int>,
) -> bool {
    match found {
        Some(p) => {
            &&& 0 <= p < values.len()
            &&& clears(values[p], floor)
            &&& forall|i: int| 0 <= i < values.len() ==> !exceeds(#[trigger] values[i], values[p])
            &&& forall|i: int|
                0 <= i < p ==> is_nan(#[trigger] values[i]) || exceeds(values[p], values[i])
        },
        None => forall|i: int| 0 <= i < values.len() ==> !clears(#[trigger] values[i], floor),
    }
}

/// The first place with the greatest of the numbers above `floor`, if there are any.
pub fn first_best(values: &Vec<Single>, floor: Option<Single>) -> (found: Option<usize>)
    ensures
        is_first_best(values@, floor, match found {
            Some(p) => Some(p as int),
            None => None,
        }),
{
    let mut found: Option<usize> = None;
    let mut best: Option<Single> = floor;
    let mut i: usize = 0;
    while i < values.len()
        invariant
            i <= values@.len(),
            match found {
                Some(p) => p < i && best == Some(values@[p as int]),
                None => best == floor,
            },
            is_first_best(
                values@.take(i as int),
                floor,
                match found {
                    Some(p) => Some(p as int),
                    None => None,
                },
            ),
        decreases values@.len() - i,
    {
        let ghost seen = values@.take(i as int);
        proof {
            assert(values@.take(i + 1) == seen.push(values@[i as int]));
            assert(forall|j: int| 0 <= j < i ==> seen[j] == values@[j]);
        }
        let better = match best {
            Some(best) => greater(values[i], best),
            None => number(values[i]),
        };
        if better {
            found = Some(i);
            best = Some(values[i]);
        }
        i = i + 1;
    }
    proof {
        assert(values@.take(i as int) == values@);
    }
    found
}

/// `p` is the last place with the highest rank among `rows`.
pub open spec fn is_last_best(rows: Seq<(usize, Single)>, p: int) -> bool {
    &&& 0 <= p < rows.len()
    &&& forall|i: int| 0 <= i < rows.len() ==> rank((#[trigger] rows[i]).1) <= rank(rows[p].1)
    &&& forall|i: int| p < i < rows.len() ==> rank((#[trigger] rows[i]).1) < rank(rows[p].1)
}

/// The last place with the highest rank.
pub fn last_best(rows: &Vec<(usize, Single)>) -> (found: usize)
    requires
        rows@.len() > 0,
    ensures
        is_last_best(rows@, found as int),
{
    let mut found: usize = 0;
    let mut i: usize = 1;
    while i < rows.len()
        invariant
            0 <= found < i <= rows@.len(),
            is_last_best(rows@.take(i as int), found as int),
        decreases rows@.len() - i,
    {
        let ghost seen = rows@.take(i as int);
        proof {
            assert(rows@.take(i + 1) == seen.push(rows@[i as int]));
            assert(forall|j: int| 0 <= j < i ==> seen[j] == rows@[j]);
        }
        if rank_of(rows[i].1) >= rank_of(rows[found].1) {
            found = i;
        }
        i = i + 1;
    }
    proof {
        assert(rows@.take(i as int) == rows@);
    }
    found
}

proof fn lemma_rankings_agree(keys: Seq<i64>, a: Seq<usize>, b: Seq<usize>, n: nat)
    requires
        is_ranking(keys, a),
        is_ranking(keys, b),
        n <= keys.len(),
    ensures
        a.take(n as int) == b.take(n as int),
    decreases n,
{
    if n > 0 {
        let m = n - 1;
        lemma_rankings_agree(keys, a, b, m as nat);
        assert forall|i: int| 0 <= i < m implies a[i] == b[i] by {
            assert(a.take(m)[i] == b.take(m)[i]);
        }
        if a[m] != b[m] {
            assert(b.contains(a[m]));
            assert(a.contains(b[m]));
            let x = b.index_of(a[m]);
            let y = a.index_of(b[m]);
            if x < m {
                assert(before(keys, a[x] as int, a[m] as int));
            }
            if y < m {
                assert(before(keys, b[y] as int, b[m] as int));
            }
            assert(before(keys, b[m] as int, b[x] as int));
            assert(before(keys, a[m] as int, a[y] as int));
        }
        assert(a.take(n as int) =~= b.take(n as int));
    }
}

/// There is one ranking of the same keys.
pub proof fn law_ranking_is_determined(keys: Seq<i64>, a: Seq<usize>, b: Seq<usize>)
    requires
        is_ranking(keys, a),
        is_ranking(keys, b),
    ensures
        a == b,
{
    lemma_rankings_agree(keys, a, b, keys.len());
    assert(a.take(keys.len() as int) == a);
    assert(b.take(keys.len() as int) == b);
}

/// There is one answer to which rows are the best.
pub proof fn law_top_is_determined(
    rows: Seq<(usize, Single)>,
    n: nat,
    a: Seq<(usize, Single)>,
    b: Seq<(usize, Single)>,
)
    requires
        is_top(rows, n, a),
        is_top(rows, n, b),
    ensures
        a == b,
{
    let x = choose|order: Seq<usize>| #[trigger]
        is_ranking(score_keys(rows), order) && a == pick(rows, order, n);
    let y = choose|order: Seq<usize>| #[trigger]
        is_ranking(score_keys(rows), order) && b == pick(rows, order, n);
    law_ranking_is_determined(score_keys(rows), x, y);
}

/// Where fewer rows are asked for, the first of those come out that come out where more are.
pub proof fn law_fewer_are_the_first_of_more(
    rows: Seq<(usize, Single)>,
    n: nat,
    more: nat,
    a: Seq<(usize, Single)>,
    b: Seq<(usize, Single)>,
)
    requires
        n <= more,
        is_top(rows, n, a),
        is_top(rows, more, b),
    ensures
        a == first(b, n as int),
{
    let x = choose|order: Seq<usize>| #[trigger]
        is_ranking(score_keys(rows), order) && a == pick(rows, order, n);
    let y = choose|order: Seq<usize>| #[trigger]
        is_ranking(score_keys(rows), order) && b == pick(rows, order, more);
    law_ranking_is_determined(score_keys(rows), x, y);
    assert(a =~= first(b, n as int));
}

/// As many rows come out as were asked for, or all of them where there are fewer.
pub proof fn law_top_is_full(rows: Seq<(usize, Single)>, n: nat, out: Seq<(usize, Single)>)
    requires
        is_top(rows, n, out),
    ensures
        out.len() == if n < rows.len() {
            n
        } else {
            rows.len()
        },
{
}

/// Scores never rise from one row to the next.
pub proof fn law_top_descends(
    rows: Seq<(usize, Single)>,
    n: nat,
    out: Seq<(usize, Single)>,
    i: int,
    j: int,
)
    requires
        is_top(rows, n, out),
        0 <= i <= j < out.len(),
    ensures
        rank(out[i].1) >= rank(out[j].1),
        !exceeds(out[j].1, out[i].1),
{
    let keys = score_keys(rows);
    let order = choose|order: Seq<usize>| #[trigger]
        is_ranking(keys, order) && out == pick(rows, order, n);
    if i < j {
        assert(before(keys, order[i] as int, order[j] as int));
    }
}

/// Every row that comes out is one of the rows that went in, with its score.
pub proof fn law_top_invents_nothing(
    rows: Seq<(usize, Single)>,
    n: nat,
    out: Seq<(usize, Single)>,
    i: int,
)
    requires
        is_top(rows, n, out),
        0 <= i < out.len(),
    ensures
        rows.contains(out[i]),
{
    let order = choose|order: Seq<usize>| #[trigger]
        is_ranking(score_keys(rows), order) && out == pick(rows, order, n);
    assert(rows[order[i] as int] == out[i]);
}

/// A row that is left out scores no higher than any row that comes out.
pub proof fn law_top_leaves_out_nothing_better(
    rows: Seq<(usize, Single)>,
    n: nat,
    out: Seq<(usize, Single)>,
    p: int,
    i: int,
)
    requires
        is_top(rows, n, out),
        0 <= p < rows.len(),
        !out.contains(rows[p]),
        0 <= i < out.len(),
    ensures
        rank(rows[p].1) <= rank(out[i].1),
        !exceeds(rows[p].1, out[i].1),
{
    let keys = score_keys(rows);
    let order = choose|order: Seq<usize>| #[trigger]
        is_ranking(keys, order) && out == pick(rows, order, n);
    assert(order.contains(p as usize));
    let x = order.index_of(p as usize);
    if x < out.len() {
        assert(out[x] == rows[p]);
    }
    assert(before(keys, order[i] as int, order[x] as int));
}

/// Where no more rows went in than were asked for, every row comes out.
pub proof fn law_top_of_few_is_all(
    rows: Seq<(usize, Single)>,
    n: nat,
    out: Seq<(usize, Single)>,
    p: int,
)
    requires
        is_top(rows, n, out),
        0 <= p < rows.len(),
        rows.len() <= n,
    ensures
        out.contains(rows[p]),
{
    let order = choose|order: Seq<usize>| #[trigger]
        is_ranking(score_keys(rows), order) && out == pick(rows, order, n);
    assert(order.contains(p as usize));
    let x = order.index_of(p as usize);
    assert(out[x] == rows[p]);
}

/// Of rows that differ, none comes out twice.
pub proof fn law_top_repeats_nothing(
    rows: Seq<(usize, Single)>,
    n: nat,
    out: Seq<(usize, Single)>,
    i: int,
    j: int,
)
    requires
        is_top(rows, n, out),
        rows.no_duplicates(),
        0 <= i < j < out.len(),
    ensures
        out[i] != out[j],
{
    let keys = score_keys(rows);
    let order = choose|order: Seq<usize>| #[trigger]
        is_ranking(keys, order) && out == pick(rows, order, n);
    assert(before(keys, order[i] as int, order[j] as int));
}

/// A row that is ranked above all others comes first.
pub proof fn law_strictly_best_comes_first(
    rows: Seq<(usize, Single)>,
    n: nat,
    out: Seq<(usize, Single)>,
    p: int,
)
    requires
        is_top(rows, n, out),
        n > 0,
        0 <= p < rows.len(),
        forall|j: int|
            0 <= j < rows.len() && j != p ==> rank(rows[p].1) > rank((#[trigger] rows[j]).1),
    ensures
        out.len() > 0,
        out[0] == rows[p],
{
    let keys = score_keys(rows);
    let order = choose|order: Seq<usize>| #[trigger]
        is_ranking(keys, order) && out == pick(rows, order, n);
    assert(order.contains(p as usize));
    let x = order.index_of(p as usize);
    if x > 0 {
        assert(before(keys, order[0] as int, order[x] as int));
        assert(keys[order[0] as int] == rank(rows[order[0] as int].1));
        assert(keys[p] == rank(rows[p].1));
    }
}

/// There is one answer to which value is the first of the greatest.
pub proof fn law_first_best_is_determined(
    values: Seq<Single>,
    floor: Option<Single>,
    a: Option<int>,
    b: Option<int>,
)
    requires
        is_first_best(values, floor, a),
        is_first_best(values, floor, b),
    ensures
        a == b,
{
    match (a, b) {
        (Some(p), Some(q)) => {
            assert(!exceeds(values[p], values[q]));
            assert(!exceeds(values[q], values[p]));
        },
        (Some(p), None) => {
            assert(!clears(values[p], floor));
        },
        (None, Some(q)) => {
            assert(!clears(values[q], floor));
        },
        (None, None) => {},
    }
}

/// There is one answer to which row is the last of the best.
pub proof fn law_last_best_is_determined(rows: Seq<(usize, Single)>, p: int, q: int)
    requires
        is_last_best(rows, p),
        is_last_best(rows, q),
    ensures
        p == q,
{
    assert(rank(rows[p].1) <= rank(rows[q].1));
    assert(rank(rows[q].1) <= rank(rows[p].1));
}

/// A ranking names every place once, the highest key first, and of equal keys the earlier place
/// first.
pub proof fn law_ranking_orders_all_places(keys: &Vec<i64>, order: Vec<usize>)
    requires
        call_ensures(ranking, (keys,), order),
    ensures
        order@.len() == keys@.len(),
        forall|a: int| 0 <= a < order@.len() ==> #[trigger] order@[a] < keys@.len(),
        forall|p: usize| p < keys@.len() ==> #[trigger] order@.contains(p),
        forall|a: int, b: int|
            0 <= a < b < order@.len() ==> {
                ||| keys@[#[trigger] order@[a] as int] > keys@[#[trigger] order@[b] as int]
                ||| keys@[order@[a] as int] == keys@[order@[b] as int] && order@[a] < order@[b]
            },
{
}

/// The best rows are those at `places`, in this order: as many as were asked for, or all where there
/// are fewer; different places, no score above the one before it, rows with level scores in the
/// order in which they stand; and a row at any other place has a score no higher than all of them,
/// and stands behind those that it is level with.
pub proof fn law_top_are_the_best_rows(
    rows: Seq<(usize, Single)>,
    n: nat,
    out: Seq<(usize, Single)>,
) -> (places: Seq<int>)
    requires
        is_top(rows, n, out),
    ensures
        places.len() == out.len(),
        out.len() == if n < rows.len() {
            n
        } else {
            rows.len()
        },
        forall|i: int|
            0 <= i < places.len() ==> 0 <= #[trigger] places[i] < rows.len() && out[i]
                == rows[places[i]],
        forall|i: int, j: int|
            0 <= i < j < places.len() ==> {
                ||| rank(rows[#[trigger] places[i]].1) > rank(rows[#[trigger] places[j]].1)
                ||| rank(rows[places[i]].1) == rank(rows[places[j]].1) && places[i] < places[j]
            },
        forall|i: int, p: int|
            0 <= i < places.len() && 0 <= p < rows.len() && !places.contains(p) ==> {
                ||| rank(rows[#[trigger] places[i]].1) > rank((#[trigger] rows[p]).1)
                ||| rank(rows[places[i]].1) == rank(rows[p].1) && places[i] < p
            },
{
    let keys = score_keys(rows);
    let order = choose|order: Seq<usize>| #[trigger]
        is_ranking(keys, order) && out == pick(rows, order, n);
    let places = Seq::new(out.len(), |i: int| order[i] as int);
    assert forall|i: int, j: int| 0 <= i < j < places.len() implies {
        ||| rank(rows[#[trigger] places[i]].1) > rank(rows[#[trigger] places[j]].1)
        ||| rank(rows[places[i]].1) == rank(rows[places[j]].1) && places[i] < places[j]
    } by {
        assert(before(keys, order[i] as int, order[j] as int));
    }
    assert forall|i: int, p: int|
        0 <= i < places.len() && 0 <= p < rows.len() && !places.contains(p) implies {
        ||| rank(rows[#[trigger] places[i]].1) > rank((#[trigger] rows[p]).1)
        ||| rank(rows[places[i]].1) == rank(rows[p].1) && places[i] < p
    } by {
        assert(order.contains(p as usize));
        let x = order.index_of(p as usize);
        if x < places.len() {
            assert(places[x] == p);
        }
        assert(before(keys, order[i] as int, order[x] as int));
    }
    places
}

/// The function gives the best rows of its own arguments.
pub proof fn law_top_is_called_for_the_best(
    rows: &Vec<(usize, Single)>,
    n: usize,
    out: Vec<(usize, Single)>,
)
    requires
        call_ensures(top, (rows, n), out),
    ensures
        is_top(rows@, n as nat, out@),
{
}

/// The first of the best is a number above the floor, if there is one; no value is greater, and
/// every earlier value is less or no number. Where nothing is found, no value is a number above the
/// floor.
pub proof fn law_first_best_is_the_greatest(
    values: &Vec<Single>,
    floor: Option<Single>,
    found: Option<usize>,
)
    requires
        call_ensures(first_best, (values, floor), found),
    ensures
        found matches Some(p) ==> {
            &&& p < values@.len()
            &&& !is_nan(values@[p as int])
            &&& floor matches Some(f) ==> exceeds(values@[p as int], f)
            &&& forall|i: int|
                0 <= i < values@.len() ==> !exceeds(#[trigger] values@[i], values@[p as int])
            &&& forall|i: int|
                0 <= i < p ==> is_nan(#[trigger] values@[i]) || exceeds(
                    values@[p as int],
                    values@[i],
                )
        },
        found is None ==> forall|i: int|
            0 <= i < values@.len() ==> match floor {
                Some(f) => !exceeds(#[trigger] values@[i], f),
                None => is_nan(values@[i]),
            },
{
}

/// The last of the best is ranked no lower than any row, and higher than every later one.
pub proof fn law_last_best_is_the_highest(rows: &Vec<(usize, Single)>, found: usize)
    requires
        rows@.len() > 0,
        call_ensures(last_best, (rows,), found),
    ensures
        found < rows@.len(),
        forall|i: int|
            0 <= i < rows@.len() ==> rank((#[trigger] rows@[i]).1) <= rank(rows@[found as int].1),
        forall|i: int|
            found < i < rows@.len() ==> rank((#[trigger] rows@[i]).1) < rank(
                rows@[found as int].1,
            ),
{
}

} // verus!
