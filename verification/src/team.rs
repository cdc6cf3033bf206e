//! A team and its roster.

use vstd::prelude::*;
use crate::player::{player_description, Player, Position};

verus! {

/// A named team with its roster, in order of insertion. Jersey numbers are
/// meant to be unique within a roster, but nothing enforces it.
#[derive(Debug)]
pub struct Team {
    pub name: String,
    pub city: String,
    pub players: Vec<Player>,
}

/// Whether `i` is the place of the first player who wears `number`.
pub open spec fn is_first_wearing(players: Seq<Player>, number: u8, i: int) -> bool {
    &&& 0 <= i < players.len()
    &&& players[i].jersey_number == number
    &&& forall|j: int| 0 <= j < i ==> (#[trigger] players[j]).jersey_number != number
}

/// Whether some player wears `number`.
pub open spec fn is_worn(players: Seq<Player>, number: u8) -> bool {
    exists|i: int| 0 <= i < players.len() && (#[trigger] players[i]).jersey_number == number
}

/// The place of the first player who wears `number`, where one does.
pub open spec fn first_wearing(players: Seq<Player>, number: u8) -> int {
    choose|i: int| is_first_wearing(players, number, i)
}

/// The players at `position`, in roster order.
pub open spec fn with_position(players: Seq<Player>, position: Position) -> Seq<Player>
    decreases players.len(),
{
    if players.len() == 0 {
        Seq::empty()
    } else if players.last().position == position {
        with_position(players.drop_last(), position).push(players.last())
    } else {
        with_position(players.drop_last(), position)
    }
}

/// The sum of all ratings.
pub open spec fn rating_sum(players: Seq<Player>) -> nat
    decreases players.len(),
{
    if players.len() == 0 {
        0
    } else {
        rating_sum(players.drop_last()) + players.last().rating as nat
    }
}

/// Whether `lines` holds the description of every player, in roster order.
pub open spec fn is_squad_list(lines: Seq<String>, players: Seq<Player>) -> bool {
    &&& lines.len() == players.len()
    &&& forall|i: int|
        0 <= i < lines.len() ==> (#[trigger] lines[i])@ == player_description(players[i])
}

/// The first player wearing a number is the only one that is first.
pub proof fn lemma_first_wearing_unique(players: Seq<Player>, number: u8, i: int)
    requires
        is_first_wearing(players, number, i),
    ensures
        first_wearing(players, number) == i,
        is_worn(players, number),
{
    let k = first_wearing(players, number);
    assert(is_first_wearing(players, number, k));
    if k < i {
        assert(players[k].jersey_number != number);
    } else if i < k {
        assert(players[i].jersey_number != number);
    }
}

/// The four position counts of a roster add up to its size.
pub proof fn lemma_formation_covers_squad(players: Seq<Player>)
    ensures
        with_position(players, Position::Goalkeeper).len() + with_position(
            players,
            Position::Defender,
        ).len() + with_position(players, Position::Midfielder).len() + with_position(
            players,
            Position::Forward,
        ).len() == players.len(),
    decreases players.len(),
{
    if players.len() > 0 {
        lemma_formation_covers_squad(players.drop_last());
    }
}

/// The ratings of the first `i` players sum to no more than those of all.
pub proof fn lemma_rating_sum_prefix(players: Seq<Player>, i: int)
    requires
        0 <= i <= players.len(),
    ensures
        rating_sum(players.take(i)) <= rating_sum(players),
    decreases players.len(),
{
    if i == players.len() {
        assert(players.take(i) =~= players);
    } else {
        assert(players.drop_last().take(i) =~= players.take(i));
        lemma_rating_sum_prefix(players.drop_last(), i);
    }
}

/// Two answers to the same roster question over the same roster agree:
/// the selections by position player by player, the squad lists line by line.
pub proof fn lemma_roster_answers_repeatable(
    players: Seq<Player>,
    position: Position,
    found_once: Seq<&Player>,
    found_again: Seq<&Player>,
    lines_once: Seq<String>,
    lines_again: Seq<String>,
)
    requires
        found_once.map_values(|player: &Player| *player) == with_position(players, position),
        found_again.map_values(|player: &Player| *player) == with_position(players, position),
        is_squad_list(lines_once, players),
        is_squad_list(lines_again, players),
    ensures
        found_once.len() == found_again.len(),
        forall|k: int| 0 <= k < found_once.len() ==> *(#[trigger] found_once[k]) == *found_again[k],
        lines_once.len() == lines_again.len(),
        forall|k: int| 0 <= k < lines_once.len() ==> (#[trigger] lines_once[k])@ == lines_again[k]@,
{
    let once = found_once.map_values(|player: &Player| *player);
    let again = found_again.map_values(|player: &Player| *player);
    assert(once.len() == found_once.len());
    assert(again.len() == found_again.len());
    assert forall|k: int| 0 <= k < found_once.len() implies *(#[trigger] found_once[k])
        == *found_again[k] by {
        assert(once[k] == again[k]);
    }
}

impl Team {
    /// A team with an empty roster.
    pub fn new(name: String, city: String) -> (team: Self)
        ensures
            team.name == name,
            team.city == city,
            team.players@ == Seq::<Player>::empty(),
    {
        Team { name, city, players: Vec::new() }
    }

    /// Appends a player to the roster. Duplicate jersey numbers are accepted.
    pub fn add_player(&mut self, player: Player)
        ensures
            final(self).players@ == old(self).players@.push(player),
            final(self).name == old(self).name,
            final(self).city == old(self).city,
    {
        self.players.push(player);
    }

    /// Removes and returns the first player who wears `jersey_number`;
    /// `None`, and no change, where nobody does.
    pub fn remove_player(&mut self, jersey_number: u8) -> (removed: Option<Player>)
        ensures
            final(self).name == old(self).name,
            final(self).city == old(self).city,
            removed.is_some() == is_worn(old(self).players@, jersey_number),
            match removed {
                Some(player) => {
                    let i = first_wearing(old(self).players@, jersey_number);
                    &&& is_first_wearing(old(self).players@, jersey_number, i)
                    &&& player == old(self).players@[i]
                    &&& final(self).players@ == old(self).players@.remove(i)
                },
                None => final(self).players@ == old(self).players@,
            },
    {
        let mut i: usize = 0;
        while i < self.players.len()
            invariant
                i <= self.players@.len(),
                *self == *old(self),
                forall|j: int| 0 <= j < i ==> (#[trigger] self.players@[j]).jersey_number != jersey_number,
            decreases self.players@.len() - i,
        {
            if self.players[i].jersey_number == jersey_number {
                proof {
                    lemma_first_wearing_unique(self.players@, jersey_number, i as int);
                }
                let player = self.players.remove(i);
                return Some(player);
            }
            i += 1;
        }
        None
    }

    /// The first player who wears `jersey_number`, if anybody does.
    pub fn get_player_by_number(&self, jersey_number: u8) -> (found: Option<&Player>)
        ensures
            found.is_some() == is_worn(self.players@, jersey_number),
            match found {
                Some(player) => {
                    let i = first_wearing(self.players@, jersey_number);
                    &&& is_first_wearing(self.players@, jersey_number, i)
                    &&& *player == self.players@[i]
                },
                None => true,
            },
    {
        let mut i: usize = 0;
        while i < self.players.len()
            invariant
                i <= self.players@.len(),
                forall|j: int| 0 <= j < i ==> (#[trigger] self.players@[j]).jersey_number != jersey_number,
            decreases self.players@.len() - i,
        {
            if self.players[i].jersey_number == jersey_number {
                proof {
                    lemma_first_wearing_unique(self.players@, jersey_number, i as int);
                }
                return Some(&self.players[i]);
            }
            i += 1;
        }
        None
    }

    /// The players at `position`, in roster order.
    pub fn get_players_by_position(&self, position: Position) -> (found: Vec<&Player>)
        ensures
            found@.map_values(|player: &Player| *player) == with_position(self.players@, position),
    {
        let mut found: Vec<&Player> = Vec::new();
        let mut i: usize = 0;
        assert(found@.map_values(|player: &Player| *player) =~= with_position(
            self.players@.take(0),
            position,
        ));
        while i < self.players.len()
            invariant
                i <= self.players@.len(),
                found@.map_values(|player: &Player| *player) == with_position(
                    self.players@.take(i as int),
                    position,
                ),
            decreases self.players@.len() - i,
        {
            let ghost before = found@;
            assert(self.players@.take(i + 1).drop_last() =~= self.players@.take(i as int));
            if self.players[i].position == position {
                found.push(&self.players[i]);
                assert(found@.map_values(|player: &Player| *player) =~= before.map_values(
                    |player: &Player| *player,
                ).push(self.players@[i as int]));
            }
            i += 1;
        }
        assert(self.players@.take(i as int) =~= self.players@);
        found
    }

    /// The number of players on the roster.
    pub fn squad_size(&self) -> (size: usize)
        ensures
            size == self.players@.len(),
    {
        self.players.len()
    }

    /// The sum of the ratings of all players: the numerator of the average
    /// rating, whose denominator is the squad size.
    pub fn rating_total(&self) -> (total: u32)
        requires
            rating_sum(self.players@) <= u32::MAX,
        ensures
            total == rating_sum(self.players@),
    {
        let mut total: u32 = 0;
        let mut i: usize = 0;
        while i < self.players.len()
            invariant
                i <= self.players@.len(),
                rating_sum(self.players@) <= u32::MAX,
                total == rating_sum(self.players@.take(i as int)),
            decreases self.players@.len() - i,
        {
            proof {
                assert(self.players@.take(i + 1).drop_last() =~= self.players@.take(i as int));
                lemma_rating_sum_prefix(self.players@, i + 1);
            }
            total = total + self.players[i].rating as u32;
            i += 1;
        }
        assert(self.players@.take(i as int) =~= self.players@);
        total
    }

    /// The numbers of goalkeepers, defenders, midfielders and forwards, in
    /// this order. Every player counts in exactly one of the four.
    pub fn get_formation_strength(&self) -> (strength: (usize, usize, usize, usize))
        ensures
            strength.0 == with_position(self.players@, Position::Goalkeeper).len(),
            strength.1 == with_position(self.players@, Position::Defender).len(),
            strength.2 == with_position(self.players@, Position::Midfielder).len(),
            strength.3 == with_position(self.players@, Position::Forward).len(),
            strength.0 + strength.1 + strength.2 + strength.3 == self.players@.len(),
    {
        let mut gk: usize = 0;
        let mut def: usize = 0;
        let mut mid: usize = 0;
        let mut fwd: usize = 0;
        let mut i: usize = 0;
        while i < self.players.len()
            invariant
                i <= self.players@.len(),
                gk == with_position(self.players@.take(i as int), Position::Goalkeeper).len(),
                def == with_position(self.players@.take(i as int), Position::Defender).len(),
                mid == with_position(self.players@.take(i as int), Position::Midfielder).len(),
                fwd == with_position(self.players@.take(i as int), Position::Forward).len(),
                gk + def + mid + fwd == i,
            decreases self.players@.len() - i,
        {
            assert(self.players@.take(i + 1).drop_last() =~= self.players@.take(i as int));
            match self.players[i].position {
                Position::Goalkeeper => {
                    gk += 1;
                },
                Position::Defender => {
                    def += 1;
                },
                Position::Midfielder => {
                    mid += 1;
                },
                Position::Forward => {
                    fwd += 1;
                },
            }
            i += 1;
        }
        assert(self.players@.take(i as int) =~= self.players@);
        (gk, def, mid, fwd)
    }

    /// The description of every player, in roster order.
    pub fn list_squad(&self) -> (lines: Vec<String>)
        ensures
            is_squad_list(lines@, self.players@),
    {
        let mut lines: Vec<String> = Vec::new();
        let mut i: usize = 0;
        while i < self.players.len()
            invariant
                i <= self.players@.len(),
                lines@.len() == i,
                forall|j: int|
                    0 <= j < i ==> (#[trigger] lines@[j])@ == player_description(self.players@[j]),
            decreases self.players@.len() - i,
        {
            lines.push(self.players[i].display_info());
            i += 1;
        }
        lines
    }
}

} // verus!
