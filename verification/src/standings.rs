//! Per-team tallies: games played, goals for, goals against.

use vstd::prelude::*;
use crate::match_data::MatchView;
use crate::roll::{
    distinct_names, entry_names, find_slot, lemma_distinct_names_members,
    lemma_distinct_names_no_duplicates, lemma_distinct_names_push, lemma_occurrences_positive,
    occurrences,
};

verus! {

/// The sides of all fixtures in order: for each fixture its home team, then
/// its away team.
pub open spec fn team_sides(matches: Seq<MatchView>) -> Seq<Seq<char>>
    decreases matches.len(),
{
    if matches.len() == 0 {
        Seq::empty()
    } else {
        team_sides(matches.drop_last()).push(matches.last().home_team).push(
            matches.last().away_team,
        )
    }
}

/// A record after one more game with the given goals, where it `applies`.
pub open spec fn credited(record: (nat, nat, nat), applies: bool, scored: u8, conceded: u8) -> (
    nat,
    nat,
    nat,
) {
    if applies {
        (record.0 + 1, record.1 + scored as nat, record.2 + conceded as nat)
    } else {
        record
    }
}

/// Games played, goals for and goals against of `team` over `matches`. Each
/// fixture credits its home side and its away side, so a fixture of a team
/// against itself counts twice for it.
pub open spec fn team_record(matches: Seq<MatchView>, team: Seq<char>) -> (nat, nat, nat)
    decreases matches.len(),
{
    if matches.len() == 0 {
        (0, 0, 0)
    } else {
        let m = matches.last();
        let at_home = credited(
            team_record(matches.drop_last(), team),
            m.home_team == team,
            m.home_score,
            m.away_score,
        );
        credited(at_home, m.away_team == team, m.away_score, m.home_score)
    }
}

/// A stored record as mathematical numbers.
pub open spec fn record_value(record: (usize, usize, usize)) -> (nat, nat, nat) {
    (record.0 as nat, record.1 as nat, record.2 as nat)
}

/// The games played, summed over all entries of a table.
pub open spec fn games_total(entries: Seq<(String, (usize, usize, usize))>) -> nat
    decreases entries.len(),
{
    if entries.len() == 0 {
        0
    } else {
        games_total(entries.drop_last()) + entries.last().1.0 as nat
    }
}

/// Whether `entries` holds exactly the teams of `matches`, in order of first
/// appearance, each with its record.
pub open spec fn is_team_table(
    entries: Seq<(String, (usize, usize, usize))>,
    matches: Seq<MatchView>,
) -> bool {
    &&& entry_names(entries) == distinct_names(team_sides(matches))
    &&& forall|k: int|
        0 <= k < entries.len() ==> record_value(#[trigger] entries[k].1) == team_record(
            matches,
            entry_names(entries)[k],
        )
}

/// A record grows by at most two games and 510 goals either way per fixture.
pub proof fn lemma_team_record_bounded(matches: Seq<MatchView>, team: Seq<char>)
    ensures
        team_record(matches, team).0 <= 2 * matches.len(),
        team_record(matches, team).1 <= 510 * matches.len(),
        team_record(matches, team).2 <= 510 * matches.len(),
    decreases matches.len(),
{
    if matches.len() > 0 {
        lemma_team_record_bounded(matches.drop_last(), team);
    }
}

/// A team that is no side of any fixture has an all-zero record.
pub proof fn lemma_unlisted_team_has_empty_record(matches: Seq<MatchView>, team: Seq<char>)
    requires
        !team_sides(matches).contains(team),
    ensures
        team_record(matches, team) == (0nat, 0nat, 0nat),
    decreases matches.len(),
{
    if matches.len() > 0 {
        let rest = matches.drop_last();
        let sides = team_sides(matches);
        assert(sides[sides.len() - 1] == matches.last().away_team);
        assert(sides[sides.len() - 2] == matches.last().home_team);
        if team_sides(rest).contains(team) {
            let i = choose|i: int| 0 <= i < team_sides(rest).len() && team_sides(rest)[i] == team;
            assert(sides[i] == team);
        }
        lemma_unlisted_team_has_empty_record(rest, team);
    }
}

/// The games played by the teams `names` over `matches`, summed.
pub open spec fn games_of(matches: Seq<MatchView>, names: Seq<Seq<char>>) -> nat
    decreases names.len(),
{
    if names.len() == 0 {
        0
    } else {
        games_of(matches, names.drop_last()) + team_record(matches, names.last()).0
    }
}

/// A name that stands in a list without repetitions stands there once.
pub proof fn lemma_listed_once(names: Seq<Seq<char>>, name: Seq<char>)
    requires
        names.no_duplicates(),
        names.contains(name),
    ensures
        occurrences(names, name) == 1,
    decreases names.len(),
{
    let rest = names.drop_last();
    let i = choose|i: int| 0 <= i < names.len() && names[i] == name;
    lemma_occurrences_positive(rest, name);
    if names.last() == name {
        if rest.contains(name) {
            let j = choose|j: int| 0 <= j < rest.len() && rest[j] == name;
            assert(names[j] == names[names.len() - 1]);
        }
    } else {
        assert(rest[i] == name);
        lemma_listed_once(rest, name);
    }
}

/// One more fixture adds to the games of a list of teams one game for each
/// place where its home side stands, and one for each where its away side does.
pub proof fn lemma_games_of_next_fixture(matches: Seq<MatchView>, names: Seq<Seq<char>>)
    requires
        matches.len() > 0,
    ensures
        games_of(matches, names) == games_of(matches.drop_last(), names) + occurrences(
            names,
            matches.last().home_team,
        ) + occurrences(names, matches.last().away_team),
    decreases names.len(),
{
    if names.len() > 0 {
        lemma_games_of_next_fixture(matches, names.drop_last());
    }
}

/// Every fixture credits exactly two sides: over the distinct teams of the
/// fixtures, the games played add up to twice the number of fixtures.
pub proof fn lemma_games_of_all_teams(matches: Seq<MatchView>)
    ensures
        games_of(matches, distinct_names(team_sides(matches))) == 2 * matches.len(),
    decreases matches.len(),
{
    if matches.len() > 0 {
        let rest = matches.drop_last();
        let home = matches.last().home_team;
        let away = matches.last().away_team;
        let sides = team_sides(rest);
        let known = distinct_names(sides);
        let with_home = distinct_names(sides.push(home));
        let all = distinct_names(team_sides(matches));
        lemma_games_of_all_teams(rest);
        lemma_distinct_names_push(sides, home);
        lemma_distinct_names_push(sides.push(home), away);
        lemma_distinct_names_members(sides, home);
        lemma_distinct_names_members(sides.push(home), away);
        // Teams that are new with this fixture played no game before it.
        if !known.contains(home) {
            lemma_unlisted_team_has_empty_record(rest, home);
            assert(with_home.drop_last() =~= known);
        }
        assert(games_of(rest, with_home) == games_of(rest, known));
        if !with_home.contains(away) {
            if sides.contains(away) {
                let j = choose|j: int| 0 <= j < sides.len() && sides[j] == away;
                assert(sides.push(home)[j] == away);
            }
            lemma_unlisted_team_has_empty_record(rest, away);
            assert(all.drop_last() =~= with_home);
        }
        assert(games_of(rest, all) == games_of(rest, known));
        // Both sides of this fixture stand among the teams, once each.
        lemma_distinct_names_no_duplicates(team_sides(matches));
        lemma_distinct_names_members(team_sides(matches), home);
        lemma_distinct_names_members(team_sides(matches), away);
        assert(team_sides(matches)[team_sides(matches).len() - 2] == home);
        assert(team_sides(matches)[team_sides(matches).len() - 1] == away);
        lemma_listed_once(all, home);
        lemma_listed_once(all, away);
        lemma_games_of_next_fixture(matches, all);
    }
}

/// The games held by a table are the games played by the teams that key it.
pub proof fn lemma_games_total_is_games_of(
    entries: Seq<(String, (usize, usize, usize))>,
    matches: Seq<MatchView>,
)
    requires
        forall|k: int|
            0 <= k < entries.len() ==> record_value(#[trigger] entries[k].1) == team_record(
                matches,
                entry_names(entries)[k],
            ),
    ensures
        games_total(entries) == games_of(matches, entry_names(entries)),
    decreases entries.len(),
{
    if entries.len() > 0 {
        let rest = entries.drop_last();
        assert(entry_names(rest) =~= entry_names(entries).drop_last());
        assert forall|k: int| 0 <= k < rest.len() implies record_value(#[trigger] rest[k].1)
            == team_record(matches, entry_names(rest)[k]) by {
            assert(rest[k] == entries[k]);
            assert(entry_names(rest)[k] == entry_names(entries)[k]);
        }
        lemma_games_total_is_games_of(rest, matches);
        let last = entries.len() - 1;
        assert(record_value(entries[last].1) == team_record(matches, entry_names(entries)[last]));
    }
}

/// In the table of all teams, the games played add up to twice the number
/// of fixtures.
pub proof fn lemma_team_table_games(
    entries: Seq<(String, (usize, usize, usize))>,
    matches: Seq<MatchView>,
)
    requires
        is_team_table(entries, matches),
    ensures
        games_total(entries) == 2 * matches.len(),
{
    lemma_games_total_is_games_of(entries, matches);
    lemma_games_of_all_teams(matches);
}

/// Credits one game with the given goals to `team`, adding an entry for it
/// where the table has none.
pub fn credit_side(
    entries: &mut Vec<(String, (usize, usize, usize))>,
    team: &String,
    scored: u8,
    conceded: u8,
)
    requires
        entry_names(old(entries)@).no_duplicates(),
        forall|k: int|
            0 <= k < old(entries)@.len() ==> {
                &&& (#[trigger] old(entries)@[k]).1.0 < usize::MAX
                &&& old(entries)@[k].1.1 + 255 <= usize::MAX
                &&& old(entries)@[k].1.2 + 255 <= usize::MAX
            },
    ensures
        entry_names(final(entries)@).no_duplicates(),
        entry_names(final(entries)@) == if entry_names(old(entries)@).contains(team@) {
            entry_names(old(entries)@)
        } else {
            entry_names(old(entries)@).push(team@)
        },
        forall|k: int|
            0 <= k < final(entries)@.len() ==> record_value(#[trigger] final(entries)@[k].1)
                == credited(
                if k < old(entries)@.len() {
                    record_value(old(entries)@[k].1)
                } else {
                    (0nat, 0nat, 0nat)
                },
                entry_names(final(entries)@)[k] == team@,
                scored,
                conceded,
            ),
{
    match find_slot(entries, team) {
        Some(slot) => {
            let record = entries[slot].1;
            let name = entries[slot].0.clone();
            let entry = (name, (record.0 + 1, record.1 + scored as usize, record.2 + conceded as usize));
            entries.set(slot, entry);
            proof {
                assert(entry_names(entries@) =~= entry_names(old(entries)@));
                assert(entry_names(old(entries)@)[slot as int] == team@);
                assert forall|k: int| 0 <= k < entries@.len() && k != slot implies entry_names(
                    entries@,
                )[k] != team@ by {
                    assert(entry_names(old(entries)@)[k] != entry_names(old(entries)@)[slot as int]);
                }
            }
        },
        None => {
            let entry = (team.clone(), (1usize, scored as usize, conceded as usize));
            entries.push(entry);
            proof {
                assert(entry_names(entries@) =~= entry_names(old(entries)@).push(team@));
            }
        },
    }
}

} // verus!
