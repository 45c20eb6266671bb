use vstd::prelude::*;
use crate::domain::match_model::Match;
use crate::domain::participant::Participant;
use crate::domain::round::Round;
use crate::domain::tournament::Tournament;

verus! {

/// Everything that belongs to one tournament, as it is exported and imported.
#[derive(Debug, Clone)]
pub struct TournamentExport {
    pub tournament: Tournament,
    pub participants: Vec<Participant>,
    pub rounds: Vec<Round>,
    pub matches: Vec<Match>,
}

} // verus!
