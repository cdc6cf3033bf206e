//! The aggregator: accumulates fixtures and answers queries over all of them.

use vstd::prelude::*;
use crate::match_data::{MatchData, MatchView};
use crate::roll::{
    distinct_names, entry_names, lemma_distinct_names_bounded, lemma_distinct_names_members,
    lemma_distinct_names_no_duplicates, lemma_distinct_names_push, lemma_occurrences_positive,
    occurrences,
};
use crate::scorers::{
    all_goals, count_goals, is_goal_table, leading, lemma_all_goals_prefix, lemma_goal_table_view,
    scorer_tallies, take_leading, tally_view,
};
use crate::standings::{
    credit_side, games_total, is_team_table, lemma_team_record_bounded, lemma_team_table_games,
    lemma_unlisted_team_has_empty_record, record_value, team_record, team_sides,
};

verus! {

/// An append-only collection of fixtures. Every query is recomputed from the
/// whole collection.
pub struct FootballAnalytics {
    matches: Vec<MatchData>,
}

impl View for FootballAnalytics {
    type V = Seq<MatchView>;

    closed spec fn view(&self) -> Seq<MatchView> {
        self.matches@.map_values(|m: MatchData| m@)
    }
}

/// Whether the fixture was played between `first` and `second`, in either order.
pub open spec fn played_between(m: MatchView, first: Seq<char>, second: Seq<char>) -> bool {
    (m.home_team == first && m.away_team == second) || (m.home_team == second && m.away_team
        == first)
}

/// Whether the fixture counts as a win for `first` in its record against `second`.
pub open spec fn won_by_first(m: MatchView, first: Seq<char>, second: Seq<char>) -> bool {
    played_between(m, first, second) && ((m.home_score > m.away_score && m.home_team == first) || (
    m.home_score < m.away_score && m.away_team == first))
}

/// Whether the fixture counts as a win for `second` in the record of `first`
/// against it: a decided fixture of the pair that `first` did not win.
pub open spec fn won_by_second(m: MatchView, first: Seq<char>, second: Seq<char>) -> bool {
    played_between(m, first, second) && m.home_score != m.away_score && !won_by_first(
        m,
        first,
        second,
    )
}

/// Whether the fixture is a draw between the two.
pub open spec fn drawn_between(m: MatchView, first: Seq<char>, second: Seq<char>) -> bool {
    played_between(m, first, second) && m.home_score == m.away_score
}

/// How many fixtures satisfy `pred`.
pub open spec fn count_where(matches: Seq<MatchView>, pred: spec_fn(MatchView) -> bool) -> nat
    decreases matches.len(),
{
    if matches.len() == 0 {
        0
    } else {
        count_where(matches.drop_last(), pred) + if pred(matches.last()) {
            1nat
        } else {
            0nat
        }
    }
}

/// The record of `first` against `second`: wins of `first`, wins of `second`, draws.
pub open spec fn head_to_head_record(
    matches: Seq<MatchView>,
    first: Seq<char>,
    second: Seq<char>,
) -> (nat, nat, nat) {
    (
        count_where(matches, |m: MatchView| won_by_first(m, first, second)),
        count_where(matches, |m: MatchView| won_by_second(m, first, second)),
        count_where(matches, |m: MatchView| drawn_between(m, first, second)),
    )
}

/// Whether `answer` is the head-to-head answer for `first` against `second`:
/// always present, and holding their record.
pub open spec fn is_head_to_head_answer(
    answer: Option<(usize, usize, usize)>,
    matches: Seq<MatchView>,
    first: Seq<char>,
    second: Seq<char>,
) -> bool {
    &&& answer.is_some()
    &&& answer.unwrap().0 == head_to_head_record(matches, first, second).0
    &&& answer.unwrap().1 == head_to_head_record(matches, first, second).1
    &&& answer.unwrap().2 == head_to_head_record(matches, first, second).2
}

/// No count exceeds the number of fixtures.
pub proof fn lemma_count_where_bounded(matches: Seq<MatchView>, pred: spec_fn(MatchView) -> bool)
    ensures
        count_where(matches, pred) <= matches.len(),
    decreases matches.len(),
{
    if matches.len() > 0 {
        lemma_count_where_bounded(matches.drop_last(), pred);
    }
}

/// Predicates that agree on every fixture give the same count.
pub proof fn lemma_count_where_agrees(
    matches: Seq<MatchView>,
    p: spec_fn(MatchView) -> bool,
    q: spec_fn(MatchView) -> bool,
)
    requires
        forall|i: int| 0 <= i < matches.len() ==> p(#[trigger] matches[i]) == q(matches[i]),
    ensures
        count_where(matches, p) == count_where(matches, q),
    decreases matches.len(),
{
    if matches.len() > 0 {
        let rest = matches.drop_last();
        assert forall|i: int| 0 <= i < rest.len() implies p(#[trigger] rest[i]) == q(rest[i]) by {
            assert(rest[i] == matches[i]);
        }
        lemma_count_where_agrees(rest, p, q);
    }
}

/// A predicate that holds of no fixture counts nothing.
pub proof fn lemma_count_where_none(matches: Seq<MatchView>, pred: spec_fn(MatchView) -> bool)
    requires
        forall|i: int| 0 <= i < matches.len() ==> !pred(#[trigger] matches[i]),
    ensures
        count_where(matches, pred) == 0,
    decreases matches.len(),
{
    if matches.len() > 0 {
        let rest = matches.drop_last();
        assert forall|i: int| 0 <= i < rest.len() implies !pred(#[trigger] rest[i]) by {
            assert(rest[i] == matches[i]);
        }
        lemma_count_where_none(rest, pred);
    }
}

/// Swapping the two teams swaps the two win counts and keeps the draws.
///
/// A team's record against itself is left out where it holds a win: every
/// decided fixture of a team against itself is counted for the first name,
/// whichever way round the names are given.
pub proof fn lemma_head_to_head_transposed(
    matches: Seq<MatchView>,
    first: Seq<char>,
    second: Seq<char>,
)
    requires
        first != second || head_to_head_record(matches, first, second).0 == 0,
    ensures
        head_to_head_record(matches, second, first).0 == head_to_head_record(
            matches,
            first,
            second,
        ).1,
        head_to_head_record(matches, second, first).1 == head_to_head_record(
            matches,
            first,
            second,
        ).0,
        head_to_head_record(matches, second, first).2 == head_to_head_record(
            matches,
            first,
            second,
        ).2,
{
    let won_fs = |m: MatchView| won_by_first(m, first, second);
    let lost_fs = |m: MatchView| won_by_second(m, first, second);
    let drawn_fs = |m: MatchView| drawn_between(m, first, second);
    let won_sf = |m: MatchView| won_by_first(m, second, first);
    let lost_sf = |m: MatchView| won_by_second(m, second, first);
    let drawn_sf = |m: MatchView| drawn_between(m, second, first);
    lemma_count_where_agrees(matches, drawn_sf, drawn_fs);
    if first != second {
        lemma_count_where_agrees(matches, won_sf, lost_fs);
        lemma_count_where_agrees(matches, lost_sf, won_fs);
    } else {
        assert forall|i: int| 0 <= i < matches.len() implies !lost_fs(#[trigger] matches[i]) by {}
        lemma_count_where_none(matches, lost_fs);
    }
}

/// Two teams that never met have an all-zero record.
pub proof fn lemma_head_to_head_never_met(
    matches: Seq<MatchView>,
    first: Seq<char>,
    second: Seq<char>,
)
    requires
        forall|i: int| 0 <= i < matches.len() ==> !played_between(#[trigger] matches[i], first, second),
    ensures
        head_to_head_record(matches, first, second) == (0nat, 0nat, 0nat),
{
    lemma_count_where_none(matches, |m: MatchView| won_by_first(m, first, second));
    lemma_count_where_none(matches, |m: MatchView| won_by_second(m, first, second));
    lemma_count_where_none(matches, |m: MatchView| drawn_between(m, first, second));
}

/// Two answers to the same head-to-head question over the same fixtures are
/// the same answer.
pub proof fn lemma_head_to_head_repeatable(
    matches: Seq<MatchView>,
    first: Seq<char>,
    second: Seq<char>,
    once: Option<(usize, usize, usize)>,
    again: Option<(usize, usize, usize)>,
)
    requires
        is_head_to_head_answer(once, matches, first, second),
        is_head_to_head_answer(again, matches, first, second),
    ensures
        once == again,
{
}

/// Two team tables computed over the same fixtures agree entry by entry.
pub proof fn lemma_team_stats_repeatable(
    matches: Seq<MatchView>,
    once: Seq<(String, (usize, usize, usize))>,
    again: Seq<(String, (usize, usize, usize))>,
)
    requires
        is_team_table(once, matches),
        is_team_table(again, matches),
    ensures
        once.len() == again.len(),
        forall|k: int|
            0 <= k < once.len() ==> (#[trigger] once[k]).0@ == again[k].0@ && once[k].1
                == again[k].1,
{
    assert(entry_names(once).len() == once.len());
    assert(entry_names(again).len() == again.len());
    assert forall|k: int| 0 <= k < once.len() implies (#[trigger] once[k]).0@ == again[k].0@
        && once[k].1 == again[k].1 by {
        assert(entry_names(once)[k] == once[k].0@);
        assert(entry_names(again)[k] == again[k].0@);
        assert(record_value(once[k].1) == record_value(again[k].1));
    }
}

/// Two rankings of the leading scorers over the same fixtures and for the
/// same limit agree entry by entry.
pub proof fn lemma_top_scorers_repeatable(
    matches: Seq<MatchView>,
    top_n: nat,
    once: Seq<(String, usize)>,
    again: Seq<(String, usize)>,
)
    requires
        tally_view(once) == leading(scorer_tallies(all_goals(matches)), top_n),
        tally_view(again) == leading(scorer_tallies(all_goals(matches)), top_n),
    ensures
        once.len() == again.len(),
        forall|k: int|
            0 <= k < once.len() ==> (#[trigger] once[k]).0@ == again[k].0@ && once[k].1
                == again[k].1,
{
    assert(tally_view(once).len() == once.len());
    assert(tally_view(again).len() == again.len());
    assert forall|k: int| 0 <= k < once.len() implies (#[trigger] once[k]).0@ == again[k].0@
        && once[k].1 == again[k].1 by {
        assert(tally_view(once)[k] == tally_view(again)[k]);
    }
}

impl FootballAnalytics {
    /// An aggregator with no fixtures.
    pub fn new() -> (analytics: Self)
        ensures
            analytics@ == Seq::<MatchView>::empty(),
    {
        let analytics = FootballAnalytics { matches: Vec::new() };
        assert(analytics@ =~= Seq::<MatchView>::empty());
        analytics
    }

    /// Appends a fixture; earlier fixtures are untouched.
    pub fn add_match(&mut self, match_data: MatchData)
        ensures
            final(self)@ == old(self)@.push(match_data@),
    {
        self.matches.push(match_data);
        assert(self@ =~= old(self)@.push(match_data@));
    }

    /// The `top_n` scorers with the most goals (all scorers, if there are
    /// fewer), each with its goals, most goals first. A goal is one entry of
    /// a scorer list; the scores are not consulted. Scorers with equal goals
    /// come in the order in which they first scored.
    pub fn get_top_scorers(&self, top_n: usize) -> (top: Vec<(String, usize)>)
        requires
            all_goals(self@).len() <= usize::MAX,
        ensures
            tally_view(top@) == leading(scorer_tallies(all_goals(self@)), top_n as nat),
            top@.len() == if top_n <= distinct_names(all_goals(self@)).len() {
                top_n as nat
            } else {
                distinct_names(all_goals(self@)).len()
            },
            top@.len() <= top_n,
            top@.len() <= distinct_names(all_goals(self@)).len() <= all_goals(self@).len(),
            forall|a: int, b: int| 0 <= a < b < top@.len() ==> top@[a].1 >= top@[b].1,
            forall|a: int|
                0 <= a < top@.len() ==> (#[trigger] top@[a]).1 == occurrences(
                    all_goals(self@),
                    top@[a].0@,
                ) && top@[a].1 >= 1,
            entry_names(top@).no_duplicates(),
            forall|name: Seq<char>, a: int|
                all_goals(self@).contains(name) && 0 <= a < top@.len() ==> entry_names(
                    top@,
                ).contains(name) || #[trigger] occurrences(all_goals(self@), name) <= (
                #[trigger] top@[a]).1,
    {
        let mut entries: Vec<(String, usize)> = Vec::new();
        let mut i: usize = 0;
        assert(entry_names(entries@) =~= distinct_names(all_goals(self@.take(0))));
        while i < self.matches.len()
            invariant
                i <= self.matches@.len(),
                self@.len() == self.matches@.len(),
                all_goals(self@).len() <= usize::MAX,
                is_goal_table(entries@, all_goals(self@.take(i as int))),
            decreases self.matches@.len() - i,
        {
            let m = &self.matches[i];
            let ghost seen = all_goals(self@.take(i as int));
            proof {
                let after = self@.take(i + 1);
                assert(after.drop_last() =~= self@.take(i as int));
                assert(after.last() == m@);
                lemma_all_goals_prefix(self@, i + 1);
                assert(all_goals(after) == seen + m@.home_scorers + m@.away_scorers);
            }
            count_goals(&mut entries, &m.home_scorers, Ghost(seen));
            count_goals(&mut entries, &m.away_scorers, Ghost(seen + m@.home_scorers));
            i += 1;
        }
        let ghost goals = all_goals(self@);
        let ghost table = entries@;
        proof {
            assert(self@.take(i as int) =~= self@);
            lemma_goal_table_view(table, goals);
            lemma_distinct_names_no_duplicates(goals);
            lemma_distinct_names_bounded(goals);
            assert(entry_names(table).len() == table.len());
        }
        let top = take_leading(entries, top_n);
        proof {
            assert forall|a: int| 0 <= a < top@.len() implies (#[trigger] top@[a]).1
                == occurrences(goals, top@[a].0@) && top@[a].1 >= 1 by {
                let j = choose|j: int| 0 <= j < table.len() && table[j] == top@[a];
                let name = entry_names(table)[j];
                assert(name == top@[a].0@);
                assert(distinct_names(goals)[j] == name);
                lemma_distinct_names_members(goals, name);
                lemma_occurrences_positive(goals, name);
            }
            assert forall|name: Seq<char>, a: int|
                goals.contains(name) && 0 <= a < top@.len() implies entry_names(top@).contains(
                name,
            ) || #[trigger] occurrences(goals, name) <= (#[trigger] top@[a]).1 by {
                lemma_distinct_names_members(goals, name);
                let j = choose|j: int|
                    0 <= j < entry_names(table).len() && entry_names(table)[j] == name;
                assert(table[j].1 == occurrences(goals, name));
                if top@.contains(table[j]) {
                    let b = choose|b: int| 0 <= b < top@.len() && top@[b] == table[j];
                    assert(entry_names(top@)[b] == name);
                }
            }
        }
        top
    }

    /// The tally of every team that is a side of some fixture: games played,
    /// goals for, goals against. Teams come in order of first appearance
    /// (home before away within a fixture), each once; a team of no fixture
    /// has no entry.
    pub fn get_team_stats(&self) -> (stats: Vec<(String, (usize, usize, usize))>)
        requires
            self@.len() <= usize::MAX / 510,
        ensures
            is_team_table(stats@, self@),
            entry_names(stats@) == distinct_names(team_sides(self@)),
            entry_names(stats@).no_duplicates(),
            forall|k: int|
                0 <= k < stats@.len() ==> record_value(#[trigger] stats@[k].1) == team_record(
                    self@,
                    entry_names(stats@)[k],
                ),
            games_total(stats@) == 2 * self@.len(),
    {
        let mut stats: Vec<(String, (usize, usize, usize))> = Vec::new();
        let mut i: usize = 0;
        assert(entry_names(stats@) =~= distinct_names(team_sides(self@.take(0))));
        while i < self.matches.len()
            invariant
                i <= self.matches@.len(),
                self@.len() == self.matches@.len(),
                self@.len() <= usize::MAX / 510,
                is_team_table(stats@, self@.take(i as int)),
            decreases self.matches@.len() - i,
        {
            let m = &self.matches[i];
            let ghost before = self@.take(i as int);
            let ghost after = self@.take(i + 1);
            let ghost names0 = entry_names(stats@);
            let ghost stats0 = stats@;
            proof {
                assert(after.drop_last() =~= before);
                assert(after.last() == m@);
                lemma_distinct_names_no_duplicates(team_sides(before));
                lemma_distinct_names_push(team_sides(before), m@.home_team);
                lemma_distinct_names_push(team_sides(before).push(m@.home_team), m@.away_team);
                assert forall|k: int| 0 <= k < stats@.len() implies {
                    &&& (#[trigger] stats@[k]).1.0 <= 2 * i
                    &&& stats@[k].1.1 <= 510 * i
                    &&& stats@[k].1.2 <= 510 * i
                } by {
                    lemma_team_record_bounded(before, entry_names(stats@)[k]);
                    assert(record_value(stats@[k].1) == team_record(before, entry_names(stats@)[k]));
                }
            }
            credit_side(&mut stats, &m.home_team, m.home_score, m.away_score);
            let ghost names1 = entry_names(stats@);
            let ghost stats1 = stats@;
            proof {
                assert forall|k: int| 0 <= k < stats1.len() implies {
                    &&& (#[trigger] stats1[k]).1.0 <= 2 * i + 1
                    &&& stats1[k].1.1 <= 510 * i + 255
                    &&& stats1[k].1.2 <= 510 * i + 255
                } by {
                    assert(record_value(stats1[k].1).0 == stats1[k].1.0);
                    if k < stats0.len() {
                        assert(record_value(stats0[k].1).0 == stats0[k].1.0);
                    }
                }
            }
            credit_side(&mut stats, &m.away_team, m.away_score, m.home_score);
            i += 1;
            proof {
                let names2 = entry_names(stats@);
                assert(names2 == distinct_names(team_sides(after)));
                assert forall|k: int| 0 <= k < stats@.len() implies record_value(
                    #[trigger] stats@[k].1,
                ) == team_record(after, names2[k]) by {
                    let team = names2[k];
                    if k < stats0.len() {
                        assert(names1[k] == names0[k]);
                        assert(names2[k] == names1[k]);
                        assert(record_value(stats0[k].1) == team_record(before, names0[k]));
                    } else if k < stats1.len() {
                        assert(names2[k] == names1[k]);
                        assert(team == m@.home_team);
                        lemma_distinct_names_members(team_sides(before), team);
                        lemma_unlisted_team_has_empty_record(before, team);
                    } else {
                        assert(team == m@.away_team);
                        let seen = team_sides(before).push(m@.home_team);
                        lemma_distinct_names_members(seen, team);
                        assert(seen[seen.len() - 1] == m@.home_team);
                        if team_sides(before).contains(team) {
                            let j = choose|j: int|
                                0 <= j < team_sides(before).len() && team_sides(before)[j] == team;
                            assert(seen[j] == team);
                        }
                        lemma_unlisted_team_has_empty_record(before, team);
                    }
                }
            }
        }
        proof {
            assert(self@.take(i as int) =~= self@);
            lemma_distinct_names_no_duplicates(team_sides(self@));
            lemma_team_table_games(stats@, self@);
        }
        stats
    }

    /// The number of fixtures held.
    pub fn match_count(&self) -> (count: usize)
        ensures
            count == self@.len(),
    {
        self.matches.len()
    }

    /// The number of scorer entries over all fixtures, where it fits the
    /// machine word; `None` where it does not.
    pub fn goal_count(&self) -> (count: Option<usize>)
        ensures
            match count {
                Some(goals) => goals == all_goals(self@).len(),
                None => all_goals(self@).len() > usize::MAX,
            },
    {
        let mut goals: usize = 0;
        let mut i: usize = 0;
        while i < self.matches.len()
            invariant
                i <= self.matches@.len(),
                self@.len() == self.matches@.len(),
                goals == all_goals(self@.take(i as int)).len(),
            decreases self.matches@.len() - i,
        {
            let m = &self.matches[i];
            proof {
                let after = self@.take(i + 1);
                assert(after.drop_last() =~= self@.take(i as int));
                assert(after.last() == m@);
                lemma_all_goals_prefix(self@, i + 1);
            }
            let with_home = match goals.checked_add(m.home_scorers.len()) {
                Some(sum) => sum,
                None => {
                    return None;
                },
            };
            goals = match with_home.checked_add(m.away_scorers.len()) {
                Some(sum) => sum,
                None => {
                    return None;
                },
            };
            i += 1;
        }
        assert(self@.take(i as int) =~= self@);
        Some(goals)
    }

    /// The record of `team1` against `team2` over all fixtures between the
    /// two: wins of `team1`, wins of `team2`, draws. Always present, all zero
    /// where the two never met.
    pub fn head_to_head(&self, team1: &str, team2: &str) -> (record: Option<(usize, usize, usize)>)
        ensures
            is_head_to_head_answer(record, self@, team1@, team2@),
    {
        let first = team1.to_owned();
        let second = team2.to_owned();
        let mut team1_wins: usize = 0;
        let mut team2_wins: usize = 0;
        let mut draws: usize = 0;
        let ghost won = |m: MatchView| won_by_first(m, team1@, team2@);
        let ghost lost = |m: MatchView| won_by_second(m, team1@, team2@);
        let ghost drawn = |m: MatchView| drawn_between(m, team1@, team2@);
        let mut i: usize = 0;
        while i < self.matches.len()
            invariant
                i <= self.matches@.len(),
                first@ == team1@,
                second@ == team2@,
                won == |m: MatchView| won_by_first(m, team1@, team2@),
                lost == |m: MatchView| won_by_second(m, team1@, team2@),
                drawn == |m: MatchView| drawn_between(m, team1@, team2@),
                team1_wins == count_where(self@.take(i as int), won),
                team2_wins == count_where(self@.take(i as int), lost),
                draws == count_where(self@.take(i as int), drawn),
            decreases self.matches@.len() - i,
        {
            let m = &self.matches[i];
            proof {
                let next = self@.take(i + 1);
                assert(next.drop_last() =~= self@.take(i as int));
                assert(next.last() == m@);
                lemma_count_where_bounded(next, won);
                lemma_count_where_bounded(next, lost);
                lemma_count_where_bounded(next, drawn);
            }
            if (m.home_team == first && m.away_team == second) || (m.home_team == second
                && m.away_team == first) {
                if m.home_score > m.away_score {
                    if m.home_team == first {
                        team1_wins += 1;
                    } else {
                        team2_wins += 1;
                    }
                } else if m.home_score < m.away_score {
                    if m.away_team == first {
                        team1_wins += 1;
                    } else {
                        team2_wins += 1;
                    }
                } else {
                    draws += 1;
                }
            }
            i += 1;
        }
        assert(self@.take(i as int) =~= self@);
        Some((team1_wins, team2_wins, draws))
    }
}

} // verus!
