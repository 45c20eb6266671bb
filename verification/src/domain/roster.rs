use vstd::prelude::*;
use crate::domain::ids::{new_id, is_uuid_text};

verus! {

/// A team registered once in the global roster and reusable across
/// tournaments.
#[derive(Debug, Clone)]
pub struct Roster {
    pub id: String,
    pub name: String,
    pub game: String,
    pub logo_data: Option<Vec<u8>>,
}

impl Roster {
    /// A new roster team under a fresh identifier.
    pub fn new(name: String, game: String, logo_data: Option<Vec<u8>>) -> (r: Self)
        ensures
            is_uuid_text(r.id@),
            r.name == name,
            r.game == game,
            r.logo_data == logo_data,
    {
        Roster { id: new_id(), name, game, logo_data }
    }
}

/// A member of a roster team.
#[derive(Debug, Clone)]
pub struct RosterMember {
    pub id: String,
    pub roster_id: String,
    pub name: String,
    pub profile_picture: Option<Vec<u8>>,
}

impl RosterMember {
    /// A new roster member under a fresh identifier.
    pub fn new(roster_id: String, name: String, profile_picture: Option<Vec<u8>>) -> (m: Self)
        ensures
            is_uuid_text(m.id@),
            m.roster_id == roster_id,
            m.name == name,
            m.profile_picture == profile_picture,
    {
        RosterMember { id: new_id(), roster_id, name, profile_picture }
    }
}

/// A game that tournaments and roster teams can be filed under.
#[derive(Debug, Clone)]
pub struct Game {
    pub id: String,
    pub name: String,
}

} // verus!
