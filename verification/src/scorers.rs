//! Goal tallies per scorer, and the ranking of the leading scorers.

use vstd::prelude::*;
use crate::match_data::{texts, MatchView};
use crate::roll::{
    distinct_names, entry_names, find_slot, lemma_distinct_names_members,
    lemma_distinct_names_no_duplicates, lemma_distinct_names_push, lemma_occurrences_bounded,
    lemma_occurrences_positive, occurrences,
};

verus! {

/// Every scorer entry of all fixtures in order: for each fixture its home
/// scorers, then its away scorers. One entry stands for one goal.
pub open spec fn all_goals(matches: Seq<MatchView>) -> Seq<Seq<char>>
    decreases matches.len(),
{
    if matches.len() == 0 {
        Seq::empty()
    } else {
        all_goals(matches.drop_last()) + matches.last().home_scorers + matches.last().away_scorers
    }
}

/// A stored tally table as pairs of name and count.
pub open spec fn tally_view(entries: Seq<(String, usize)>) -> Seq<(Seq<char>, nat)> {
    entries.map_values(|entry: (String, usize)| (entry.0@, entry.1 as nat))
}

/// Each distinct scorer of `goals`, in order of first appearance, with the
/// number of entries that name it.
pub open spec fn scorer_tallies(goals: Seq<Seq<char>>) -> Seq<(Seq<char>, nat)> {
    distinct_names(goals).map_values(|name: Seq<char>| (name, occurrences(goals, name)))
}

/// The place of the highest count; of several equal ones, the earliest.
pub open spec fn first_best(tallies: Seq<(Seq<char>, nat)>) -> int
    decreases tallies.len(),
{
    if tallies.len() <= 1 {
        0
    } else {
        let earlier = first_best(tallies.drop_last());
        if tallies.last().1 > tallies[earlier].1 {
            tallies.len() - 1
        } else {
            earlier
        }
    }
}

/// The `n` leading tallies (all of them, if there are fewer): the best of
/// all, then the best of the rest, and so on. Equal counts keep the order
/// they have in `tallies`.
pub open spec fn leading(tallies: Seq<(Seq<char>, nat)>, n: nat) -> Seq<(Seq<char>, nat)>
    decreases n,
{
    if n == 0 || tallies.len() == 0 {
        Seq::empty()
    } else {
        let best = first_best(tallies);
        seq![tallies[best]] + leading(tallies.remove(best), (n - 1) as nat)
    }
}

/// Whether `entries` holds exactly the scorers of `goals`, in order of first
/// appearance, each with its number of goals.
pub open spec fn is_goal_table(entries: Seq<(String, usize)>, goals: Seq<Seq<char>>) -> bool {
    &&& entry_names(entries) == distinct_names(goals)
    &&& forall|k: int|
        0 <= k < entries.len() ==> (#[trigger] entries[k]).1 == occurrences(
            goals,
            entry_names(entries)[k],
        )
}

/// The goals of the first `i` fixtures are no more than the goals of all.
pub proof fn lemma_all_goals_prefix(matches: Seq<MatchView>, i: int)
    requires
        0 <= i <= matches.len(),
    ensures
        all_goals(matches.take(i)).len() <= all_goals(matches).len(),
    decreases matches.len(),
{
    if i == matches.len() {
        assert(matches.take(i) =~= matches);
    } else {
        assert(matches.drop_last().take(i) =~= matches.take(i));
        lemma_all_goals_prefix(matches.drop_last(), i);
    }
}

/// A goal table, read as pairs, is the scorer tallies of its goals.
pub proof fn lemma_goal_table_view(entries: Seq<(String, usize)>, goals: Seq<Seq<char>>)
    requires
        is_goal_table(entries, goals),
    ensures
        tally_view(entries) == scorer_tallies(goals),
{
    assert(entry_names(entries).len() == entries.len());
    assert forall|k: int| 0 <= k < entries.len() implies tally_view(entries)[k] == scorer_tallies(
        goals,
    )[k] by {
        assert(entry_names(entries)[k] == entries[k].0@);
    }
    assert(tally_view(entries) =~= scorer_tallies(goals));
}

/// Counts one goal for `scorer`, adding an entry for the name where the
/// table has none.
pub fn count_goal(entries: &mut Vec<(String, usize)>, scorer: &String)
    requires
        entry_names(old(entries)@).no_duplicates(),
        forall|k: int| 0 <= k < old(entries)@.len() ==> (#[trigger] old(entries)@[k]).1 < usize::MAX,
    ensures
        entry_names(final(entries)@).no_duplicates(),
        entry_names(final(entries)@) == if entry_names(old(entries)@).contains(scorer@) {
            entry_names(old(entries)@)
        } else {
            entry_names(old(entries)@).push(scorer@)
        },
        forall|k: int|
            0 <= k < final(entries)@.len() ==> (#[trigger] final(entries)@[k]).1 == (if k < old(
                entries,
            )@.len() {
                old(entries)@[k].1 as int
            } else {
                0
            }) + (if entry_names(final(entries)@)[k] == scorer@ {
                1int
            } else {
                0
            }),
{
    match find_slot(entries, scorer) {
        Some(slot) => {
            let count = entries[slot].1;
            let name = entries[slot].0.clone();
            entries.set(slot, (name, count + 1));
            proof {
                assert(entry_names(entries@) =~= entry_names(old(entries)@));
                assert(entry_names(old(entries)@)[slot as int] == scorer@);
                assert forall|k: int| 0 <= k < entries@.len() && k != slot implies entry_names(
                    entries@,
                )[k] != scorer@ by {
                    assert(entry_names(old(entries)@)[k] != entry_names(old(entries)@)[slot as int]);
                }
            }
        },
        None => {
            entries.push((scorer.clone(), 1usize));
            proof {
                assert(entry_names(entries@) =~= entry_names(old(entries)@).push(scorer@));
            }
        },
    }
}

/// Counts one goal for each entry of `scorers`, which follow the goals
/// `seen` that the table already holds.
pub fn count_goals(
    entries: &mut Vec<(String, usize)>,
    scorers: &Vec<String>,
    Ghost(seen): Ghost<Seq<Seq<char>>>,
)
    requires
        is_goal_table(old(entries)@, seen),
        seen.len() + scorers@.len() <= usize::MAX,
    ensures
        is_goal_table(final(entries)@, seen + texts(scorers@)),
{
    let mut j: usize = 0;
    assert(seen + texts(scorers@).take(0) =~= seen);
    while j < scorers.len()
        invariant
            j <= scorers@.len(),
            seen.len() + scorers@.len() <= usize::MAX,
            is_goal_table(entries@, seen + texts(scorers@).take(j as int)),
        decreases scorers@.len() - j,
    {
        let ghost goals = seen + texts(scorers@).take(j as int);
        let ghost before = entries@;
        let ghost scorer = scorers@[j as int]@;
        proof {
            lemma_distinct_names_no_duplicates(goals);
            assert forall|k: int| 0 <= k < entries@.len() implies (#[trigger] entries@[k]).1
                < usize::MAX by {
                lemma_occurrences_bounded(goals, entry_names(entries@)[k]);
            }
        }
        count_goal(entries, &scorers[j]);
        j += 1;
        proof {
            let next = seen + texts(scorers@).take(j as int);
            assert(next =~= goals.push(scorer));
            assert(next.drop_last() =~= goals);
            lemma_distinct_names_push(goals, scorer);
            assert forall|k: int| 0 <= k < entries@.len() implies (#[trigger] entries@[k]).1
                == occurrences(next, entry_names(entries@)[k]) by {
                let name = entry_names(entries@)[k];
                assert(next.last() == scorer);
                assert(occurrences(next, name) == occurrences(goals, name) + if scorer == name {
                    1nat
                } else {
                    0nat
                });
                if k >= before.len() {
                    assert(entry_names(entries@).len() == entries@.len());
                    assert(entry_names(before).len() == before.len());
                    assert(name == scorer);
                    lemma_distinct_names_members(goals, scorer);
                    lemma_occurrences_positive(goals, scorer);
                } else {
                    assert(name == entry_names(before)[k]);
                    assert(before[k].1 == occurrences(goals, entry_names(before)[k]));
                }
            }
        }
    }
    assert(texts(scorers@).take(j as int) =~= texts(scorers@));
}

/// The place of the highest count in a table; of several equal ones, the
/// earliest.
pub fn best_slot(entries: &Vec<(String, usize)>) -> (best: usize)
    requires
        entries@.len() > 0,
    ensures
        best < entries@.len(),
        best == first_best(tally_view(entries@)),
        forall|k: int| 0 <= k < entries@.len() ==> (#[trigger] entries@[k]).1 <= entries@[best as int].1,
{
    let mut best: usize = 0;
    let mut j: usize = 1;
    while j < entries.len()
        invariant
            1 <= j <= entries@.len(),
            best < j,
            best == first_best(tally_view(entries@).take(j as int)),
            forall|k: int| 0 <= k < j ==> (#[trigger] entries@[k]).1 <= entries@[best as int].1,
        decreases entries@.len() - j,
    {
        proof {
            let next = tally_view(entries@).take(j + 1);
            assert(next.drop_last() =~= tally_view(entries@).take(j as int));
            assert(next.last() == tally_view(entries@)[j as int]);
            assert(next[best as int] == tally_view(entries@)[best as int]);
        }
        if entries[j].1 > entries[best].1 {
            best = j;
        }
        j += 1;
    }
    assert(tally_view(entries@).take(j as int) =~= tally_view(entries@));
    best
}

/// Moves the `n` leading entries out of a table (all of them, if there are
/// fewer), highest count first; equal counts keep their table order.
pub fn take_leading(entries: Vec<(String, usize)>, n: usize) -> (top: Vec<(String, usize)>)
    ensures
        tally_view(top@) == leading(tally_view(entries@), n as nat),
        top@.len() == if n <= entries@.len() {
            n as nat
        } else {
            entries@.len()
        },
        forall|a: int, b: int| 0 <= a < b < top@.len() ==> top@[a].1 >= top@[b].1,
        forall|a: int| 0 <= a < top@.len() ==> entries@.contains(#[trigger] top@[a]),
        forall|j: int, a: int|
            0 <= j < entries@.len() && 0 <= a < top@.len() ==> top@.contains(
                #[trigger] entries@[j],
            ) || entries@[j].1 <= (#[trigger] top@[a]).1,
        entry_names(entries@).no_duplicates() ==> entry_names(top@).no_duplicates(),
{
    let mut pool = entries;
    let mut top: Vec<(String, usize)> = Vec::new();
    assert(tally_view(top@) + leading(tally_view(pool@), n as nat) =~= leading(
        tally_view(entries@),
        n as nat,
    ));
    while top.len() < n && pool.len() > 0
        invariant
            top@.len() <= n,
            top@.len() + pool@.len() == entries@.len(),
            tally_view(top@) + leading(tally_view(pool@), (n - top@.len()) as nat) == leading(
                tally_view(entries@),
                n as nat,
            ),
            forall|a: int, b: int| 0 <= a < b < top@.len() ==> top@[a].1 >= top@[b].1,
            forall|a: int, k: int|
                0 <= a < top@.len() && 0 <= k < pool@.len() ==> top@[a].1 >= pool@[k].1,
            forall|a: int| 0 <= a < top@.len() ==> entries@.contains(#[trigger] top@[a]),
            forall|k: int| 0 <= k < pool@.len() ==> entries@.contains(#[trigger] pool@[k]),
            forall|j: int|
                0 <= j < entries@.len() ==> top@.contains(#[trigger] entries@[j]) || pool@.contains(
                    entries@[j],
                ),
            entry_names(entries@).no_duplicates() ==> (entry_names(top@) + entry_names(
                pool@,
            )).no_duplicates(),
        decreases pool@.len(),
    {
        let ghost pool0 = pool@;
        let ghost top0 = top@;
        let best = best_slot(&pool);
        let entry = pool.remove(best);
        top.push(entry);
        proof {
            let rest = leading(tally_view(pool@), (n - top@.len()) as nat);
            assert(tally_view(pool@) =~= tally_view(pool0).remove(best as int));
            assert(tally_view(top@) =~= tally_view(top0).push(tally_view(pool0)[best as int]));
            assert(leading(tally_view(pool0), (n - top0.len()) as nat) == seq![
                tally_view(pool0)[best as int],
            ] + rest);
            assert(tally_view(top@) + rest =~= tally_view(top0) + (seq![
                tally_view(pool0)[best as int],
            ] + rest));
            assert forall|k: int| 0 <= k < pool@.len() implies entries@.contains(
                #[trigger] pool@[k],
            ) && pool@[k].1 <= entry.1 by {
                if k < best {
                    assert(pool@[k] == pool0[k]);
                } else {
                    assert(pool@[k] == pool0[k + 1]);
                }
            }
            assert(entry == pool0[best as int]);
            assert forall|j: int| 0 <= j < entries@.len() implies top@.contains(
                #[trigger] entries@[j],
            ) || pool@.contains(entries@[j]) by {
                if top0.contains(entries@[j]) {
                    let a = choose|a: int| 0 <= a < top0.len() && top0[a] == entries@[j];
                    assert(top@[a] == entries@[j]);
                } else {
                    let k = choose|k: int| 0 <= k < pool0.len() && pool0[k] == entries@[j];
                    if k < best {
                        assert(pool@[k] == entries@[j]);
                    } else if k == best {
                        assert(top@[top0.len() as int] == entries@[j]);
                    } else {
                        assert(pool@[k - 1] == entries@[j]);
                    }
                }
            }
            if entry_names(entries@).no_duplicates() {
                let names0 = entry_names(top0) + entry_names(pool0);
                let names = entry_names(top@) + entry_names(pool@);
                assert forall|x: int, y: int|
                    0 <= x < names.len() && 0 <= y < names.len() && x != y implies names[x]
                    != names[y] by {
                    let x0 = if x < top0.len() {
                        x
                    } else if x == top0.len() {
                        top0.len() + best
                    } else if x - 1 < top0.len() + best {
                        x - 1
                    } else {
                        x
                    };
                    let y0 = if y < top0.len() {
                        y
                    } else if y == top0.len() {
                        top0.len() + best
                    } else if y - 1 < top0.len() + best {
                        y - 1
                    } else {
                        y
                    };
                    assert(names[x] == names0[x0]);
                    assert(names[y] == names0[y0]);
                    assert(x0 != y0);
                }
            }
        }
    }
    proof {
        assert(top@.len() == n || pool@.len() == 0);
        if entry_names(entries@).no_duplicates() {
            let names = entry_names(top@) + entry_names(pool@);
            assert forall|x: int, y: int|
                0 <= x < top@.len() && 0 <= y < top@.len() && x != y implies entry_names(top@)[x]
                != entry_names(top@)[y] by {
                assert(names[x] == entry_names(top@)[x]);
                assert(names[y] == entry_names(top@)[y]);
            }
        }
        assert forall|j: int, a: int|
            0 <= j < entries@.len() && 0 <= a < top@.len() implies top@.contains(
            #[trigger] entries@[j],
        ) || entries@[j].1 <= (#[trigger] top@[a]).1 by {
            if !top@.contains(entries@[j]) {
                let k = choose|k: int| 0 <= k < pool@.len() && pool@[k] == entries@[j];
                assert(top@[a].1 >= pool@[k].1);
            }
        }
    }
    top
}

} // verus!
