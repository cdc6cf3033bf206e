//! Roster entries and their positions.

use vstd::prelude::*;
use vstd::string::StringExecFns;
use crate::text::{decimal_digits, decimal_string};

verus! {

/// Where a player lines up.
#[derive(Debug, Clone, Copy, PartialEq, Eq, Structural)]
pub enum Position {
    Goalkeeper,
    Defender,
    Midfielder,
    Forward,
}

/// A roster entry. All fields are fixed at construction; nothing is validated.
#[derive(Debug, Clone)]
pub struct Player {
    pub name: String,
    pub jersey_number: u8,
    pub position: Position,
    /// Overall rating, intended to lie in 0..=100 (not enforced).
    pub rating: u8,
}

/// The full name of a position.
pub open spec fn position_name(position: Position) -> Seq<char> {
    match position {
        Position::Goalkeeper => "Goalkeeper"@,
        Position::Defender => "Defender"@,
        Position::Midfielder => "Midfielder"@,
        Position::Forward => "Forward"@,
    }
}

/// The short tag of a position.
pub open spec fn position_tag(position: Position) -> Seq<char> {
    match position {
        Position::Goalkeeper => "GK"@,
        Position::Defender => "DEF"@,
        Position::Midfielder => "MID"@,
        Position::Forward => "FWD"@,
    }
}

/// The one-line description of a player:
/// `<name> (#<jersey>) - <position> - Rating: <rating>`.
pub open spec fn player_description(player: Player) -> Seq<char> {
    player.name@ + " (#"@ + decimal_digits(player.jersey_number as nat) + ") - "@
        + position_name(player.position) + " - Rating: "@ + decimal_digits(player.rating as nat)
}

impl Position {
    /// The full name of the position, as text.
    pub fn name(&self) -> (text: String)
        ensures
            text@ == position_name(*self),
    {
        match self {
            Position::Goalkeeper => "Goalkeeper".to_owned(),
            Position::Defender => "Defender".to_owned(),
            Position::Midfielder => "Midfielder".to_owned(),
            Position::Forward => "Forward".to_owned(),
        }
    }

    /// The short tag of the position (`GK`, `DEF`, `MID`, `FWD`), as text.
    pub fn to_string(&self) -> (text: String)
        ensures
            text@ == position_tag(*self),
    {
        match self {
            Position::Goalkeeper => "GK".to_owned(),
            Position::Defender => "DEF".to_owned(),
            Position::Midfielder => "MID".to_owned(),
            Position::Forward => "FWD".to_owned(),
        }
    }
}

impl Player {
    /// Builds a player from its four attributes, verbatim.
    pub fn new(name: String, jersey_number: u8, position: Position, rating: u8) -> (player: Self)
        ensures
            player.name == name,
            player.jersey_number == jersey_number,
            player.position == position,
            player.rating == rating,
    {
        Player { name, jersey_number, position, rating }
    }

    /// Describes the player on one line.
    pub fn display_info(&self) -> (text: String)
        ensures
            text@ == player_description(*self),
    {
        let number = decimal_string(self.jersey_number);
        let rating = decimal_string(self.rating);
        let position = self.position.name();
        let text = self.name.clone();
        let text = text.concat(" (#");
        let text = text.concat(number.as_str());
        let text = text.concat(") - ");
        let text = text.concat(position.as_str());
        let text = text.concat(" - Rating: ");
        let text = text.concat(rating.as_str());
        text
    }

    /// Whether the player lines up as a forward or a midfielder.
    pub fn is_attacker(&self) -> (attacker: bool)
        ensures
            attacker == (self.position == Position::Forward || self.position
                == Position::Midfielder),
    {
        matches!(self.position, Position::Forward | Position::Midfielder)
    }

    /// Whether the player lines up as a defender or a goalkeeper.
    pub fn is_defender(&self) -> (defender: bool)
        ensures
            defender == (self.position == Position::Defender || self.position
                == Position::Goalkeeper),
    {
        matches!(self.position, Position::Defender | Position::Goalkeeper)
    }
}

} // verus!
