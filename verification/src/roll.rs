//! Lists of names, the distinct names in them, and tables keyed by name.

use vstd::prelude::*;

verus! {

/// The names of `list` without repetitions, in order of first appearance.
pub open spec fn distinct_names(list: Seq<Seq<char>>) -> Seq<Seq<char>>
    decreases list.len(),
{
    if list.len() == 0 {
        Seq::empty()
    } else {
        let earlier = distinct_names(list.drop_last());
        if earlier.contains(list.last()) {
            earlier
        } else {
            earlier.push(list.last())
        }
    }
}

/// How often `name` stands in `list`.
pub open spec fn occurrences(list: Seq<Seq<char>>, name: Seq<char>) -> nat
    decreases list.len(),
{
    if list.len() == 0 {
        0
    } else {
        occurrences(list.drop_last(), name) + if list.last() == name {
            1nat
        } else {
            0nat
        }
    }
}

/// The names that key a table, in table order.
pub open spec fn entry_names<T>(entries: Seq<(String, T)>) -> Seq<Seq<char>> {
    entries.map_values(|entry: (String, T)| entry.0@)
}

/// Appending a name adds it to the distinct names exactly when it is new.
pub proof fn lemma_distinct_names_push(list: Seq<Seq<char>>, name: Seq<char>)
    ensures
        distinct_names(list.push(name)) == if distinct_names(list).contains(name) {
            distinct_names(list)
        } else {
            distinct_names(list).push(name)
        },
{
    assert(list.push(name).drop_last() =~= list);
}

/// The distinct names of a list are the names that stand in it.
pub proof fn lemma_distinct_names_members(list: Seq<Seq<char>>, name: Seq<char>)
    ensures
        distinct_names(list).contains(name) == list.contains(name),
    decreases list.len(),
{
    if list.len() > 0 {
        let rest = list.drop_last();
        let last = list.last();
        let earlier = distinct_names(rest);
        lemma_distinct_names_members(rest, name);
        lemma_distinct_names_members(rest, last);
        if list.contains(name) {
            let i = choose|i: int| 0 <= i < list.len() && list[i] == name;
            if i < rest.len() {
                assert(rest[i] == name);
                let j = choose|j: int| 0 <= j < earlier.len() && earlier[j] == name;
                assert(distinct_names(list)[j] == name);
            } else if earlier.contains(last) {
            } else {
                assert(distinct_names(list)[earlier.len() as int] == name);
            }
        }
        if distinct_names(list).contains(name) {
            let j = choose|j: int| 0 <= j < distinct_names(list).len() && distinct_names(list)[j] == name;
            if j < earlier.len() {
                assert(earlier[j] == name);
                let i = choose|i: int| 0 <= i < rest.len() && rest[i] == name;
                assert(list[i] == name);
            } else {
                assert(list[list.len() - 1] == name);
            }
        }
    }
}

/// No name stands twice among the distinct names.
pub proof fn lemma_distinct_names_no_duplicates(list: Seq<Seq<char>>)
    ensures
        distinct_names(list).no_duplicates(),
    decreases list.len(),
{
    if list.len() > 0 {
        lemma_distinct_names_no_duplicates(list.drop_last());
    }
}

/// There are no more distinct names than names.
pub proof fn lemma_distinct_names_bounded(list: Seq<Seq<char>>)
    ensures
        distinct_names(list).len() <= list.len(),
    decreases list.len(),
{
    if list.len() > 0 {
        lemma_distinct_names_bounded(list.drop_last());
    }
}

/// A name occurs at most as often as the list is long.
pub proof fn lemma_occurrences_bounded(list: Seq<Seq<char>>, name: Seq<char>)
    ensures
        occurrences(list, name) <= list.len(),
    decreases list.len(),
{
    if list.len() > 0 {
        lemma_occurrences_bounded(list.drop_last(), name);
    }
}

/// A name occurs at least once exactly when it stands in the list.
pub proof fn lemma_occurrences_positive(list: Seq<Seq<char>>, name: Seq<char>)
    ensures
        (occurrences(list, name) > 0) == list.contains(name),
    decreases list.len(),
{
    if list.len() > 0 {
        let rest = list.drop_last();
        lemma_occurrences_positive(rest, name);
        if list.contains(name) {
            let i = choose|i: int| 0 <= i < list.len() && list[i] == name;
            if i < rest.len() {
                assert(rest[i] == name);
            }
        }
        if rest.contains(name) {
            let i = choose|i: int| 0 <= i < rest.len() && rest[i] == name;
            assert(list[i] == name);
        }
        if list.last() == name {
            assert(list[list.len() - 1] == name);
        }
    }
}

/// Looks a name up in a table: the first entry keyed by it, if there is one.
pub fn find_slot<T>(entries: &Vec<(String, T)>, name: &String) -> (slot: Option<usize>)
    ensures
        match slot {
            Some(k) => k < entries@.len() && entry_names(entries@)[k as int] == name@ && forall|
                j: int,
            |
                0 <= j < k ==> entry_names(entries@)[j] != name@,
            None => !entry_names(entries@).contains(name@),
        },
{
    let mut k: usize = 0;
    while k < entries.len()
        invariant
            k <= entries@.len(),
            forall|j: int| 0 <= j < k ==> entry_names(entries@)[j] != name@,
        decreases entries@.len() - k,
    {
        if entries[k].0 == *name {
            return Some(k);
        }
        k += 1;
    }
    None
}

} // verus!
