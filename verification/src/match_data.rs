//! The record of one fixture.

use vstd::prelude::*;
use vstd::string::StringExecFns;
use crate::text::{decimal_digits, decimal_string};

verus! {

/// The outcome of one fixture. Teams and scorers are plain names; the scorer
/// lists need not agree in length with the scores.
#[derive(Debug, Clone)]
pub struct MatchData {
    pub home_team: String,
    pub away_team: String,
    pub home_score: u8,
    pub away_score: u8,
    /// One entry per goal credited to the home side; a name may repeat.
    pub home_scorers: Vec<String>,
    /// One entry per goal credited to the away side; a name may repeat.
    pub away_scorers: Vec<String>,
}

/// The mathematical content of a fixture.
pub struct MatchView {
    pub home_team: Seq<char>,
    pub away_team: Seq<char>,
    pub home_score: u8,
    pub away_score: u8,
    pub home_scorers: Seq<Seq<char>>,
    pub away_scorers: Seq<Seq<char>>,
}

/// The texts held by a sequence of strings.
pub open spec fn texts(names: Seq<String>) -> Seq<Seq<char>> {
    names.map_values(|name: String| name@)
}

impl View for MatchData {
    type V = MatchView;

    open spec fn view(&self) -> MatchView {
        MatchView {
            home_team: self.home_team@,
            away_team: self.away_team@,
            home_score: self.home_score,
            away_score: self.away_score,
            home_scorers: texts(self.home_scorers@),
            away_scorers: texts(self.away_scorers@),
        }
    }
}

impl MatchView {
    /// The name of the side with more goals, if there is one.
    pub open spec fn winner(self) -> Option<Seq<char>> {
        if self.home_score > self.away_score {
            Some(self.home_team)
        } else if self.away_score > self.home_score {
            Some(self.away_team)
        } else {
            None
        }
    }

    /// Home scorers followed by away scorers.
    pub open spec fn all_scorers(self) -> Seq<Seq<char>> {
        self.home_scorers + self.away_scorers
    }

    /// The text `<home> <home score> - <away score> <away>`.
    pub open spec fn summary(self) -> Seq<char> {
        self.home_team + " "@ + decimal_digits(self.home_score as nat) + " - "@ + decimal_digits(
            self.away_score as nat,
        ) + " "@ + self.away_team
    }
}

impl MatchData {
    /// Builds a fixture from its six attributes, verbatim.
    pub fn new(
        home_team: String,
        away_team: String,
        home_score: u8,
        away_score: u8,
        home_scorers: Vec<String>,
        away_scorers: Vec<String>,
    ) -> (m: Self)
        ensures
            m.home_team == home_team,
            m.away_team == away_team,
            m.home_score == home_score,
            m.away_score == away_score,
            m.home_scorers == home_scorers,
            m.away_scorers == away_scorers,
    {
        MatchData { home_team, away_team, home_score, away_score, home_scorers, away_scorers }
    }

    /// The name of the winning side, or `None` for a draw.
    pub fn get_winner(&self) -> (winner: Option<String>)
        ensures
            winner.is_some() == (self.home_score != self.away_score),
            self.home_score > self.away_score ==> winner == Some(self.home_team),
            self.away_score > self.home_score ==> winner == Some(self.away_team),
            match winner {
                Some(name) => self@.winner() == Some(name@),
                None => self@.winner().is_none(),
            },
    {
        if self.home_score > self.away_score {
            Some(self.home_team.clone())
        } else if self.away_score > self.home_score {
            Some(self.away_team.clone())
        } else {
            None
        }
    }

    /// Whether both sides scored equally.
    pub fn is_draw(&self) -> (draw: bool)
        ensures
            draw == (self.home_score == self.away_score),
    {
        self.home_score == self.away_score
    }

    /// The goals of both sides together.
    pub fn total_goals(&self) -> (total: u8)
        requires
            self.home_score + self.away_score <= u8::MAX,
        ensures
            total == self.home_score + self.away_score,
    {
        self.home_score + self.away_score
    }

    /// Every scorer entry of the fixture: the home side's, then the away side's.
    pub fn get_all_scorers(&self) -> (all: Vec<String>)
        ensures
            all@ == self.home_scorers@ + self.away_scorers@,
            texts(all@) == self@.all_scorers(),
    {
        let mut all: Vec<String> = Vec::new();
        let mut i: usize = 0;
        while i < self.home_scorers.len()
            invariant
                i <= self.home_scorers@.len(),
                all@ == self.home_scorers@.take(i as int),
            decreases self.home_scorers@.len() - i,
        {
            all.push(self.home_scorers[i].clone());
            i += 1;
            assert(all@ =~= self.home_scorers@.take(i as int));
        }
        assert(self.home_scorers@.take(i as int) =~= self.home_scorers@);
        let mut j: usize = 0;
        while j < self.away_scorers.len()
            invariant
                j <= self.away_scorers@.len(),
                all@ == self.home_scorers@ + self.away_scorers@.take(j as int),
            decreases self.away_scorers@.len() - j,
        {
            all.push(self.away_scorers[j].clone());
            j += 1;
            assert(all@ =~= self.home_scorers@ + self.away_scorers@.take(j as int));
        }
        assert(self.away_scorers@.take(j as int) =~= self.away_scorers@);
        assert(texts(all@) =~= self@.all_scorers());
        all
    }

    /// The score line of the fixture.
    pub fn match_summary(&self) -> (text: String)
        ensures
            text@ == self@.summary(),
    {
        let home = decimal_string(self.home_score);
        let away = decimal_string(self.away_score);
        let text = self.home_team.clone();
        let text = text.concat(" ");
        let text = text.concat(home.as_str());
        let text = text.concat(" - ");
        let text = text.concat(away.as_str());
        let text = text.concat(" ");
        let text = text.concat(self.away_team.as_str());
        text
    }
}

} // verus!
