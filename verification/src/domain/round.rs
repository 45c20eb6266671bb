use vstd::prelude::*;
use crate::domain::ids::{new_id, is_uuid_text};
use crate::domain::match_model::BracketType;
use crate::text::copy_string;

verus! {

/// A round within a tournament bracket (e.g., Quarter Final, Semi Final, Final).
#[derive(Debug)]
pub struct Round {
    pub id: String,
    pub tournament_id: String,
    pub round_number: i32,
    pub name: String,
    pub bracket_type: BracketType,
}

impl Clone for Round {
    fn clone(&self) -> (r: Self)
        ensures
            r == *self,
    {
        Round {
            id: copy_string(&self.id),
            tournament_id: copy_string(&self.tournament_id),
            round_number: self.round_number,
            name: copy_string(&self.name),
            bracket_type: self.bracket_type,
        }
    }
}

impl Round {
    /// A new round under a fresh identifier.
    pub fn new(tournament_id: String, round_number: i32, name: String, bracket_type: BracketType) -> (r: Self)
        ensures
            is_uuid_text(r.id@),
            r.tournament_id == tournament_id,
            r.round_number == round_number,
            r.name == name,
            r.bracket_type == bracket_type,
    {
        Round { id: new_id(), tournament_id, round_number, name, bracket_type }
    }
}

} // verus!
