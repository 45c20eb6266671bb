use vstd::prelude::*;
use crate::domain::ids::{new_id, is_uuid_text};
use crate::text::{copy_opt_string, copy_string, str_eq};

verus! {

/// Status of an individual match within a bracket.
#[derive(Debug, Clone, Copy, PartialEq, Eq, Structural)]
pub enum MatchStatus {
    /// Waiting for both players to be determined.
    Pending,
    /// Both players assigned, ready to play or in play.
    InProgress,
    /// Match completed and result locked.
    Completed,
    /// One player advances automatically (opponent slot empty).
    Bye,
}

/// The stored name of a match status.
pub open spec fn match_status_text(s: MatchStatus) -> Seq<char> {
    match s {
        MatchStatus::Pending => "Pending"@,
        MatchStatus::InProgress => "In Progress"@,
        MatchStatus::Completed => "Completed"@,
        MatchStatus::Bye => "Bye"@,
    }
}

/// The match status a stored name stands for; any unknown name is read as
/// pending.
pub open spec fn match_status_of(s: Seq<char>) -> MatchStatus {
    if s == "In Progress"@ {
        MatchStatus::InProgress
    } else if s == "Completed"@ {
        MatchStatus::Completed
    } else if s == "Bye"@ {
        MatchStatus::Bye
    } else {
        MatchStatus::Pending
    }
}

impl MatchStatus {
    pub fn as_str(&self) -> (s: &str)
        ensures
            s@ == match_status_text(*self),
    {
        match self {
            MatchStatus::Pending => "Pending",
            MatchStatus::InProgress => "In Progress",
            MatchStatus::Completed => "Completed",
            MatchStatus::Bye => "Bye",
        }
    }

    pub fn from_str(s: &str) -> (r: Self)
        ensures
            r == match_status_of(s@),
    {
        if str_eq(s, "In Progress") {
            MatchStatus::InProgress
        } else if str_eq(s, "Completed") {
            MatchStatus::Completed
        } else if str_eq(s, "Bye") {
            MatchStatus::Bye
        } else {
            MatchStatus::Pending
        }
    }
}

/// The part of a tournament a round or match belongs to.
#[derive(Debug, Clone, Copy, PartialEq, Eq, Structural)]
pub enum BracketType {
    /// The winners' bracket (and the only bracket of single elimination).
    Upper,
    /// The losers' bracket of double elimination.
    Lower,
    /// The match between the upper and lower bracket winners.
    GrandFinal,
    /// A match for third place.
    ThirdPlace,
}

/// The stored name of a bracket type.
pub open spec fn bracket_type_text(b: BracketType) -> Seq<char> {
    match b {
        BracketType::Upper => "Upper"@,
        BracketType::Lower => "Lower"@,
        BracketType::GrandFinal => "Grand Final"@,
        BracketType::ThirdPlace => "Third Place"@,
    }
}

/// The bracket type a stored name stands for; any unknown name is read as
/// the upper bracket.
pub open spec fn bracket_type_of(s: Seq<char>) -> BracketType {
    if s == "Lower"@ {
        BracketType::Lower
    } else if s == "Grand Final"@ {
        BracketType::GrandFinal
    } else if s == "Third Place"@ {
        BracketType::ThirdPlace
    } else {
        BracketType::Upper
    }
}

impl BracketType {
    pub fn as_str(&self) -> (s: &str)
        ensures
            s@ == bracket_type_text(*self),
    {
        match self {
            BracketType::Upper => "Upper",
            BracketType::Lower => "Lower",
            BracketType::GrandFinal => "Grand Final",
            BracketType::ThirdPlace => "Third Place",
        }
    }

    pub fn from_str(s: &str) -> (r: Self)
        ensures
            r == bracket_type_of(s@),
    {
        if str_eq(s, "Lower") {
            BracketType::Lower
        } else if str_eq(s, "Grand Final") {
            BracketType::GrandFinal
        } else if str_eq(s, "Third Place") {
            BracketType::ThirdPlace
        } else {
            BracketType::Upper
        }
    }
}

/// A single match within a tournament round.
///
/// Each match tracks two player slots, their scores, the winner, a link to
/// the next match in the bracket and, in double elimination, a link to the
/// match the loser drops into.
#[derive(Debug)]
pub struct Match {
    pub id: String,
    pub tournament_id: String,
    pub round_id: String,
    pub match_order: i32,
    pub player1_id: Option<String>,
    pub player2_id: Option<String>,
    pub player1_name: String,
    pub player2_name: String,
    pub score1: i32,
    pub score2: i32,
    pub winner_id: Option<String>,
    pub status: MatchStatus,
    pub next_match_id: Option<String>,
    /// 1 or 2: which slot of the next match the winner takes.
    pub next_match_slot: i32,
    pub loser_next_match_id: Option<String>,
    /// 1 or 2: which slot of the loser's next match the loser takes.
    pub loser_next_match_slot: i32,
    pub bracket_type: BracketType,
}

impl Clone for Match {
    fn clone(&self) -> (r: Self)
        ensures
            r == *self,
    {
        Match {
            id: copy_string(&self.id),
            tournament_id: copy_string(&self.tournament_id),
            round_id: copy_string(&self.round_id),
            match_order: self.match_order,
            player1_id: copy_opt_string(&self.player1_id),
            player2_id: copy_opt_string(&self.player2_id),
            player1_name: copy_string(&self.player1_name),
            player2_name: copy_string(&self.player2_name),
            score1: self.score1,
            score2: self.score2,
            winner_id: copy_opt_string(&self.winner_id),
            status: self.status,
            next_match_id: copy_opt_string(&self.next_match_id),
            next_match_slot: self.next_match_slot,
            loser_next_match_id: copy_opt_string(&self.loser_next_match_id),
            loser_next_match_slot: self.loser_next_match_slot,
            bracket_type: self.bracket_type,
        }
    }
}

impl Match {
    /// A new pending match with empty player slots, no scores, no winner and
    /// no loser link, under a fresh identifier.
    pub fn new(
        tournament_id: String,
        round_id: String,
        match_order: i32,
        next_match_id: Option<String>,
        next_match_slot: i32,
        bracket_type: BracketType,
    ) -> (m: Self)
        ensures
            is_uuid_text(m.id@),
            m.tournament_id == tournament_id,
            m.round_id == round_id,
            m.match_order == match_order,
            m.player1_id is None,
            m.player2_id is None,
            m.player1_name@ == Seq::<char>::empty(),
            m.player2_name@ == Seq::<char>::empty(),
            m.score1 == 0,
            m.score2 == 0,
            m.winner_id is None,
            m.status == MatchStatus::Pending,
            m.next_match_id == next_match_id,
            m.next_match_slot == next_match_slot,
            m.loser_next_match_id is None,
            m.loser_next_match_slot == 0,
            m.bracket_type == bracket_type,
    {
        Match {
            id: new_id(),
            tournament_id,
            round_id,
            match_order,
            player1_id: None,
            player2_id: None,
            player1_name: String::new(),
            player2_name: String::new(),
            score1: 0,
            score2: 0,
            winner_id: None,
            status: MatchStatus::Pending,
            next_match_id,
            next_match_slot,
            loser_next_match_id: None,
            loser_next_match_slot: 0,
            bracket_type,
        }
    }
}

} // verus!
