use vstd::prelude::*;
use vstd::string::*;
use crate::domain::ids::{local_timestamp, new_id, is_uuid_text};
use crate::text::{copy_string, str_eq};

verus! {

/// Represents the type of tournament bracket structure.
#[derive(Debug, Clone, Copy, PartialEq, Eq, Structural)]
pub enum TournamentType {
    SingleElimination,
    DoubleElimination,
    RoundRobin,
}

/// The stored name of a tournament type.
pub open spec fn tournament_type_text(t: TournamentType) -> Seq<char> {
    match t {
        TournamentType::SingleElimination => "Single Elimination"@,
        TournamentType::DoubleElimination => "Double Elimination"@,
        TournamentType::RoundRobin => "Round Robin"@,
    }
}

/// The tournament type a stored name stands for; any unknown name is read
/// as single elimination.
pub open spec fn tournament_type_of(s: Seq<char>) -> TournamentType {
    if s == "Double Elimination"@ {
        TournamentType::DoubleElimination
    } else if s == "Round Robin"@ {
        TournamentType::RoundRobin
    } else {
        TournamentType::SingleElimination
    }
}

impl TournamentType {
    pub fn as_str(&self) -> (s: &str)
        ensures
            s@ == tournament_type_text(*self),
    {
        match self {
            TournamentType::SingleElimination => "Single Elimination",
            TournamentType::DoubleElimination => "Double Elimination",
            TournamentType::RoundRobin => "Round Robin",
        }
    }

    pub fn from_str(s: &str) -> (t: Self)
        ensures
            t == tournament_type_of(s@),
    {
        if str_eq(s, "Double Elimination") {
            TournamentType::DoubleElimination
        } else if str_eq(s, "Round Robin") {
            TournamentType::RoundRobin
        } else {
            TournamentType::SingleElimination
        }
    }
}

/// Current status of a tournament.
#[derive(Debug, Clone, Copy, PartialEq, Eq, Structural)]
pub enum TournamentStatus {
    /// Tournament created but bracket not yet generated.
    Draft,
    /// Bracket generated and matches are being played.
    InProgress,
    /// All matches completed, champion determined.
    Completed,
}

/// The stored name of a tournament status.
pub open spec fn tournament_status_text(t: TournamentStatus) -> Seq<char> {
    match t {
        TournamentStatus::Draft => "Draft"@,
        TournamentStatus::InProgress => "In Progress"@,
        TournamentStatus::Completed => "Completed"@,
    }
}

/// The status a stored name stands for; any unknown name is read as draft.
pub open spec fn tournament_status_of(s: Seq<char>) -> TournamentStatus {
    if s == "In Progress"@ {
        TournamentStatus::InProgress
    } else if s == "Completed"@ {
        TournamentStatus::Completed
    } else {
        TournamentStatus::Draft
    }
}

impl TournamentStatus {
    pub fn as_str(&self) -> (s: &str)
        ensures
            s@ == tournament_status_text(*self),
    {
        match self {
            TournamentStatus::Draft => "Draft",
            TournamentStatus::InProgress => "In Progress",
            TournamentStatus::Completed => "Completed",
        }
    }

    pub fn from_str(s: &str) -> (t: Self)
        ensures
            t == tournament_status_of(s@),
    {
        if str_eq(s, "In Progress") {
            TournamentStatus::InProgress
        } else if str_eq(s, "Completed") {
            TournamentStatus::Completed
        } else {
            TournamentStatus::Draft
        }
    }
}

/// Core tournament entity.
#[derive(Debug)]
pub struct Tournament {
    pub id: String,
    pub name: String,
    pub tournament_type: TournamentType,
    pub participant_count: usize,
    pub status: TournamentStatus,
    pub created_at: String,
    pub description: String,
    pub game_name: String,
}

impl Clone for Tournament {
    fn clone(&self) -> (r: Self)
        ensures
            r == *self,
    {
        Tournament {
            id: copy_string(&self.id),
            name: copy_string(&self.name),
            tournament_type: self.tournament_type,
            participant_count: self.participant_count,
            status: self.status,
            created_at: copy_string(&self.created_at),
            description: copy_string(&self.description),
            game_name: copy_string(&self.game_name),
        }
    }
}

impl Tournament {
    /// A new draft tournament with no participants, a fresh identifier and
    /// the current local time as its creation time.
    pub fn new(name: String, tournament_type: TournamentType, description: String, game_name: String) -> (t: Self)
        ensures
            is_uuid_text(t.id@),
            t.name == name,
            t.tournament_type == tournament_type,
            t.participant_count == 0,
            t.status == TournamentStatus::Draft,
            t.description == description,
            t.game_name == game_name,
    {
        Tournament {
            id: new_id(),
            name,
            tournament_type,
            participant_count: 0,
            status: TournamentStatus::Draft,
            created_at: local_timestamp(),
            description,
            game_name,
        }
    }
}

} // verus!
