use vstd::prelude::*;
use crate::services::bracket_generator::BracketGeneratorService;
use crate::services::match_service::MatchService;
use crate::services::tournament_service::TournamentService;

verus! {

/// The screen the application shows.
#[derive(Debug, Clone, Copy, PartialEq, Eq, Structural)]
pub enum View {
    Dashboard,
    TournamentForm,
    TournamentDetail,
    GlobalRoster,
}

/// The tab shown within a tournament.
#[derive(Debug, Clone, Copy, PartialEq, Eq, Structural)]
pub enum TournamentTab {
    Overview,
    Participants,
    Bracket,
    Standings,
}

/// The services the application works with.
pub struct AppServices {
    pub tournament: TournamentService,
    pub match_service: MatchService,
    pub bracket_generator: BracketGeneratorService,
}

impl AppServices {
    pub fn new() -> (s: Self) {
        AppServices {
            tournament: TournamentService::new(),
            match_service: MatchService::new(),
            bracket_generator: BracketGeneratorService::new(),
        }
    }
}

} // verus!
