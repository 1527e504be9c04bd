//! Which rows carry which concept.

use vstd::prelude::*;

use crate::text::strings;

verus! {

/// A concept and the rows that carry it, in ascending order.
pub struct ConceptMembers {
    pub name: String,
    pub members: Vec<usize>,
}

/// What the lists of strings say.
pub open spec fn tag_lists(lists: Seq<Vec<String>>) -> Seq<Seq<Seq<char>>> {
    Seq::new(lists.len(), |i: int| strings(lists[i]@))
}

/// The rows whose tags hold `name`, each once, in ascending order.
pub open spec fn members_of(lists: Seq<Seq<Seq<char>>>, name: Seq<char>) -> Seq<usize>
    decreases lists.len(),
{
    if lists.len() == 0 {
        Seq::empty()
    } else {
        let earlier = members_of(lists.drop_last(), name);
        if lists.last().contains(name) {
            earlier.push((lists.len() - 1) as usize)
        } else {
            earlier
        }
    }
}

/// Whether `index` has an entry for `name`.
pub open spec fn names(index: Seq<ConceptMembers>, name: Seq<char>) -> bool {
    exists|e: int| 0 <= e < index.len() && (#[trigger] index[e]).name@ == name
}

/// `index` has one entry for each concept that occurs in `lists`, with the rows that carry it, and
/// no other.
pub open spec fn indexes(index: Seq<ConceptMembers>, lists: Seq<Seq<Seq<char>>>) -> bool {
    &&& forall|a: int, b: int|
        0 <= a < b < index.len() ==> (#[trigger] index[a]).name@ != (#[trigger] index[b]).name@
    &&& forall|e: int|
        0 <= e < index.len() ==> (#[trigger] index[e]).members@ == members_of(
            lists,
            index[e].name@,
        )
    &&& forall|e: int| 0 <= e < index.len() ==> (#[trigger] index[e]).members@.len() > 0
    &&& forall|i: int, j: int|
        0 <= i < lists.len() && 0 <= j < lists[i].len() ==> names(index, #[trigger] lists[i][j])
}

/// Whether each value is above the one before it.
pub open spec fn ascending(v: Seq<usize>) -> bool {
    forall|a: int, b: int| 0 <= a < b < v.len() ==> #[trigger] v[a] < #[trigger] v[b]
}

/// The rows of a concept are listed in ascending order, none twice, and they are the rows that
/// carry it.
pub proof fn law_members_are_the_tagged_rows(lists: Seq<Seq<Seq<char>>>, name: Seq<char>)
    requires
        lists.len() <= usize::MAX,
    ensures
        ascending(members_of(lists, name)),
        forall|i: usize| #[trigger]
            members_of(lists, name).contains(i) <==> i < lists.len() && lists[i as int].contains(
                name,
            ),
    decreases lists.len(),
{
    let all = members_of(lists, name);
    if lists.len() > 0 {
        let rest = lists.drop_last();
        let row = (lists.len() - 1) as usize;
        let earlier = members_of(rest, name);
        law_members_are_the_tagged_rows(rest, name);
        assert forall|m: int| 0 <= m < earlier.len() implies #[trigger] earlier[m] < row by {
            assert(earlier.contains(earlier[m]));
        }
        assert forall|i: usize| #[trigger] all.contains(i) <==> i < lists.len()
            && lists[i as int].contains(name) by {
            if all.contains(i) {
                let m = all.index_of(i);
                if m < earlier.len() {
                    assert(earlier[m] == i);
                    assert(earlier.contains(i));
                    assert(rest[i as int] == lists[i as int]);
                }
            }
            if i < lists.len() && lists[i as int].contains(name) {
                if i < row {
                    assert(rest[i as int] == lists[i as int]);
                    assert(earlier.contains(i));
                    let m = earlier.index_of(i);
                    assert(all[m] == i);
                } else {
                    assert(all.last() == row);
                }
            }
        }
    }
}

proof fn lemma_one_more_row(lists: Seq<Seq<Seq<char>>>, name: Seq<char>)
    ensures
        members_of(lists.push(Seq::empty()), name) == members_of(lists, name),
{
    let more = lists.push(Seq::empty());
    assert(more.drop_last() == lists);
    assert(members_of(more, name) =~= members_of(lists, name));
}

proof fn lemma_one_more_tag(
    lists: Seq<Seq<Seq<char>>>,
    tags: Seq<Seq<char>>,
    tag: Seq<char>,
    name: Seq<char>,
)
    requires
        lists.len() < usize::MAX,
    ensures
        members_of(lists.push(tags.push(tag)), name) == if tag == name && !tags.contains(name) {
            members_of(lists.push(tags), name).push(lists.len() as usize)
        } else {
            members_of(lists.push(tags), name)
        },
{
    let a = lists.push(tags);
    let b = lists.push(tags.push(tag));
    let more = tags.push(tag);
    assert(a.drop_last() == lists);
    assert(b.drop_last() == lists);
    if tags.contains(name) {
        let j = tags.index_of(name);
        assert(more[j] == name);
    } else if tag == name {
        assert(more[tags.len() as int] == name);
    } else if more.contains(name) {
        let j = more.index_of(name);
        assert(tags[j] == name);
    }
}

/// The entry for `name`, if there is one.
pub fn find(index: &Vec<ConceptMembers>, name: &String) -> (found: Option<usize>)
    ensures
        match found {
            Some(e) => e < index@.len() && index@[e as int].name@ == name@,
            None => !names(index@, name@),
        },
{
    let mut e: usize = 0;
    while e < index.len()
        invariant
            e <= index@.len(),
            forall|d: int| 0 <= d < e ==> (#[trigger] index@[d]).name@ != name@,
        decreases index@.len() - e,
    {
        if index[e].name == *name {
            return Some(e);
        }
        e = e + 1;
    }
    None
}

/// Whether `row` is among `members`.
pub fn includes(members: &Vec<usize>, row: usize) -> (r: bool)
    requires
        ascending(members@),
    ensures
        r == members@.contains(row),
{
    let mut low: usize = 0;
    let mut high: usize = members.len();
    while low < high
        invariant
            low <= high <= members@.len(),
            ascending(members@),
            forall|m: int| 0 <= m < low ==> #[trigger] members@[m] < row,
            forall|m: int| high <= m < members@.len() ==> #[trigger] members@[m] > row,
        decreases high - low,
    {
        let mid: usize = low + (high - low) / 2;
        if members[mid] == row {
            return true;
        }
        if members[mid] < row {
            low = mid + 1;
        } else {
            high = mid;
        }
    }
    proof {
        if members@.contains(row) {
            let m = members@.index_of(row);
            assert(members@[m] == row);
        }
    }
    false
}

fn add_tag(
    index: &mut Vec<ConceptMembers>,
    tag: &String,
    row: usize,
    Ghost(lists): Ghost<Seq<Seq<Seq<char>>>>,
    Ghost(tags): Ghost<Seq<Seq<char>>>,
)
    requires
        lists.len() == row,
        row < usize::MAX,
        indexes(old(index)@, lists.push(tags)),
    ensures
        indexes(final(index)@, lists.push(tags.push(tag@))),
{
    let ghost before = index@;
    let ghost a = lists.push(tags);
    let ghost b = lists.push(tags.push(tag@));
    proof {
        assert forall|name: Seq<char>| #[trigger] members_of(b, name) == if tag@ == name
            && !tags.contains(name) {
            members_of(a, name).push(row)
        } else {
            members_of(a, name)
        } by {
            lemma_one_more_tag(lists, tags, tag@, name);
        }
    }
    match find(index, tag) {
        Some(e) => {
            let last: usize = index[e].members.len() - 1;
            proof {
                assert(a.drop_last() == lists);
                law_members_are_the_tagged_rows(lists, tag@);
                let listed = members_of(lists, tag@);
                if !tags.contains(tag@) {
                    assert(listed.contains(listed[last as int]));
                }
            }
            if index[e].members[last] != row {
                index[e].members.push(row);
            }
        },
        None => {
            proof {
                lemma_absent(before, a, tag@);
                assert(a.drop_last() == lists);
            }
            let mut members: Vec<usize> = Vec::new();
            members.push(row);
            index.push(ConceptMembers { name: tag.clone(), members });
            proof {
                assert(index@.last().members@ =~= Seq::<usize>::empty().push(row));
            }
        },
    }
    proof {
        assert forall|i: int, j: int| 0 <= i < b.len() && 0 <= j < b[i].len() implies names(
            index@,
            #[trigger] b[i][j],
        ) by {
            if i < lists.len() {
                assert(a[i] == b[i]);
                assert(names(before, a[i][j]));
                let e = choose|e: int|
                    0 <= e < before.len() && (#[trigger] before[e]).name@ == a[i][j];
                assert(index@[e].name@ == b[i][j]);
            } else if j < tags.len() {
                assert(a[i][j] == b[i][j]);
                assert(names(before, a[i][j]));
                let e = choose|e: int|
                    0 <= e < before.len() && (#[trigger] before[e]).name@ == a[i][j];
                assert(index@[e].name@ == b[i][j]);
            } else {
                assert(b[i][j] == tag@);
            }
        }
    }
}

pub(crate) proof fn lemma_absent(
    index: Seq<ConceptMembers>,
    lists: Seq<Seq<Seq<char>>>,
    name: Seq<char>,
)
    requires
        lists.len() <= usize::MAX,
        indexes(index, lists),
        !names(index, name),
    ensures
        members_of(lists, name) == Seq::<usize>::empty(),
{
    let all = members_of(lists, name);
    law_members_are_the_tagged_rows(lists, name);
    if all.len() > 0 {
        assert(all.contains(all[0]));
        let i = all[0] as int;
        let j = lists[i].index_of(name);
        assert(names(index, lists[i][j]));
    }
    assert(all =~= Seq::<usize>::empty());
}

pub(crate) proof fn lemma_named_where_carried(
    index: Seq<ConceptMembers>,
    lists: Seq<Seq<Seq<char>>>,
    name: Seq<char>,
)
    requires
        lists.len() <= usize::MAX,
        indexes(index, lists),
    ensures
        names(index, name) <==> members_of(lists, name).len() > 0,
{
    if !names(index, name) {
        lemma_absent(index, lists, name);
    }
}

/// The concepts that occur in `lists`, each with the rows that carry it.
pub fn build(lists: &Vec<Vec<String>>) -> (index: Vec<ConceptMembers>)
    ensures
        indexes(index@, tag_lists(lists@)),
{
    let mut index: Vec<ConceptMembers> = Vec::new();
    let ghost all = tag_lists(lists@);
    let mut i: usize = 0;
    while i < lists.len()
        invariant
            i <= lists@.len(),
            all == tag_lists(lists@),
            indexes(index@, all.take(i as int)),
        decreases lists@.len() - i,
    {
        let ghost earlier = all.take(i as int);
        let ghost tags = strings(lists@[i as int]@);
        proof {
            assert forall|name: Seq<char>| #[trigger]
                members_of(earlier.push(tags.take(0)), name) == members_of(earlier, name) by {
                assert(tags.take(0) =~= Seq::empty());
                lemma_one_more_row(earlier, name);
            }
            assert forall|r: int, c: int|
                0 <= r < earlier.push(tags.take(0)).len() && 0 <= c < earlier.push(
                    tags.take(0),
                )[r].len() implies names(
                index@,
                #[trigger] earlier.push(tags.take(0))[r][c],
            ) by {
                assert(earlier.push(tags.take(0))[r] == earlier[r]);
            }
        }
        let mut j: usize = 0;
        while j < lists[i].len()
            invariant
                i < lists@.len(),
                i < usize::MAX,
                j <= lists@[i as int]@.len(),
                earlier.len() == i,
                tags == strings(lists@[i as int]@),
                indexes(index@, earlier.push(tags.take(j as int))),
            decreases lists@[i as int]@.len() - j,
        {
            add_tag(&mut index, &lists[i][j], i, Ghost(earlier), Ghost(tags.take(j as int)));
            proof {
                assert(tags.take(j as int).push(tags[j as int]) =~= tags.take(j + 1));
            }
            j = j + 1;
        }
        proof {
            assert(tags.take(j as int) =~= tags);
            assert(earlier.push(tags) =~= all.take(i + 1));
        }
        i = i + 1;
    }
    proof {
        assert(all.take(i as int) =~= all);
    }
    index
}

/// The index of some lists of tags has one entry for each tag that stands anywhere in them, and no
/// other; its members are in ascending order, none twice, and they are just the lists in which the
/// tag stands at some place, whichever it is.
pub proof fn law_index_lists_every_tag(lists: &Vec<Vec<String>>, index: Vec<ConceptMembers>)
    requires
        call_ensures(build, (lists,), index),
    ensures
        forall|a: int, b: int|
            0 <= a < b < index@.len() ==> (#[trigger] index@[a]).name@ != (
            #[trigger] index@[b]).name@,
        forall|e: int, m: int, n: int|
            0 <= e < index@.len() && 0 <= m < n < index@[e].members@.len()
                ==> #[trigger] index@[e].members@[m] < #[trigger] index@[e].members@[n],
        forall|e: int| 0 <= e < index@.len() ==> (#[trigger] index@[e]).members@.len() > 0,
        forall|e: int, i: usize|
            0 <= e < index@.len() ==> (#[trigger] index@[e].members@.contains(i) <==> i
                < lists@.len() && exists|j: int|
                0 <= j < lists@[i as int]@.len() && (#[trigger] lists@[i as int]@[j])@
                    == index@[e].name@),
        forall|i: int, j: int|
            0 <= i < lists@.len() && 0 <= j < lists@[i]@.len() ==> names(
                index@,
                (#[trigger] lists@[i]@[j])@,
            ),
        forall|name: Seq<char>| #[trigger]
            names(index@, name) <==> exists|e: int|
                0 <= e < index@.len() && (#[trigger] index@[e]).name@ == name,
{
    let tags = tag_lists(lists@);
    assert(tags.len() == lists.len());
    assert forall|e: int, m: int, n: int|
        0 <= e < index@.len() && 0 <= m < n < index@[e].members@.len()
        implies #[trigger] index@[e].members@[m] < #[trigger] index@[e].members@[n] by {
        law_members_are_the_tagged_rows(tags, index@[e].name@);
    }
    assert forall|e: int, i: usize| 0 <= e < index@.len() implies (
    #[trigger] index@[e].members@.contains(i) <==> i < lists@.len() && exists|j: int|
        0 <= j < lists@[i as int]@.len() && (#[trigger] lists@[i as int]@[j])@
            == index@[e].name@) by {
        let name = index@[e].name@;
        law_members_are_the_tagged_rows(tags, name);
        if i < lists@.len() {
            assert(tags[i as int] == strings(lists@[i as int]@));
            if tags[i as int].contains(name) {
                let j = tags[i as int].index_of(name);
                assert(lists@[i as int]@[j]@ == name);
            }
            if exists|j: int|
                0 <= j < lists@[i as int]@.len() && (#[trigger] lists@[i as int]@[j])@ == name {
                let j = choose|j: int|
                    0 <= j < lists@[i as int]@.len() && (#[trigger] lists@[i as int]@[j])@ == name;
                assert(tags[i as int][j] == name);
            }
        }
    }
    assert forall|i: int, j: int| 0 <= i < lists@.len() && 0 <= j < lists@[i]@.len() implies names(
        index@,
        (#[trigger] lists@[i]@[j])@,
    ) by {
        assert(tags[i][j] == lists@[i]@[j]@);
    }
}

/// What is found in an index is the entry of that name, and nothing is found only where there is
/// none; and a row is among the members just where it stands at some place of them.
pub proof fn law_what_is_found(
    index: &Vec<ConceptMembers>,
    name: &String,
    found: Option<usize>,
    members: &Vec<usize>,
    row: usize,
    r: bool,
)
    requires
        call_ensures(find, (index, name), found),
        forall|a: int, b: int|
            0 <= a < b < members@.len() ==> #[trigger] members@[a] < #[trigger] members@[b],
        call_ensures(includes, (members, row), r),
    ensures
        found matches Some(e) ==> e < index@.len() && index@[e as int].name@ == name@,
        found is None ==> forall|e: int|
            0 <= e < index@.len() ==> (#[trigger] index@[e]).name@ != name@,
        r <==> exists|m: int| 0 <= m < members@.len() && #[trigger] members@[m] == row,
{
    assert(ascending(members@));
    if r {
        let m = members@.index_of(row);
        assert(members@[m] == row);
    }
}

} // verus!
