use vstd::prelude::*;
use crate::domain::ids::{new_id, is_uuid_text};
use crate::text::copy_string;

verus! {

/// A participant (player/team) in a tournament.
#[derive(Debug)]
pub struct Participant {
    pub id: String,
    pub tournament_id: String,
    pub name: String,
    pub seed: i32,
    /// Whether this participant has a logo stored in the database.
    pub has_logo: bool,
}

impl Clone for Participant {
    fn clone(&self) -> (r: Self)
        ensures
            r == *self,
    {
        Participant {
            id: copy_string(&self.id),
            tournament_id: copy_string(&self.tournament_id),
            name: copy_string(&self.name),
            seed: self.seed,
            has_logo: self.has_logo,
        }
    }
}

impl Participant {
    /// A new participant without a logo, under a fresh identifier.
    pub fn new(tournament_id: String, name: String, seed: i32) -> (p: Self)
        ensures
            is_uuid_text(p.id@),
            p.tournament_id == tournament_id,
            p.name == name,
            p.seed == seed,
            !p.has_logo,
    {
        Participant { id: new_id(), tournament_id, name, seed, has_logo: false }
    }
}

} // verus!
