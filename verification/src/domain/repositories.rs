use vstd::prelude::*;
use crate::domain::match_model::{Match, MatchStatus};
use crate::domain::participant::Participant;
use crate::domain::round::Round;
use crate::domain::tournament::{Tournament, TournamentStatus};
use crate::store::{
    TournamentStore, foreign_key_violation, has_match, has_participant, has_round, has_tournament, match_with_id,
    participant_count_in, participant_named, round_of_tournament, tournament_matches_in, tournament_participants_in,
    tournament_rounds_in, tournament_with_id, tournaments_newest_first, update_match_rows, update_participant_rows,
    update_tournament_rows, with_player, with_score,
};
use crate::text::is_err_with;

verus! {

/// Storage of tournaments.
pub trait TournamentRepository {
    /// The storage is in a usable state.
    spec fn ready(&self) -> bool;

    fn create_tournament(&mut self, t: &Tournament) -> (r: Result<(), String>)
        requires
            old(self).ready(),
        ensures
            final(self).ready(),
    ;

    fn get_tournament(&self, id: &str) -> (r: Result<Option<Tournament>, String>)
        requires
            self.ready(),
    ;

    fn get_all_tournaments(&self) -> (r: Result<Vec<Tournament>, String>)
        requires
            self.ready(),
    ;

    fn update_tournament_status(&mut self, id: &str, status: &TournamentStatus) -> (r: Result<(), String>)
        requires
            old(self).ready(),
        ensures
            final(self).ready(),
    ;

    fn update_tournament_participant_count(&mut self, id: &str, count: usize) -> (r: Result<(), String>)
        requires
            old(self).ready(),
        ensures
            final(self).ready(),
    ;

    fn delete_tournament(&mut self, id: &str) -> (r: Result<(), String>)
        requires
            old(self).ready(),
        ensures
            final(self).ready(),
    ;
}

/// Storage of participants.
pub trait ParticipantRepository {
    /// The storage is in a usable state.
    spec fn ready(&self) -> bool;

    fn create_participant(&mut self, p: &Participant) -> (r: Result<(), String>)
        requires
            old(self).ready(),
        ensures
            final(self).ready(),
    ;

    fn get_participants_by_tournament(&self, tournament_id: &str) -> (r: Result<Vec<Participant>, String>)
        requires
            self.ready(),
    ;

    fn participant_exists(&self, tournament_id: &str, name: &str) -> (r: Result<bool, String>)
        requires
            self.ready(),
    ;

    fn update_participant(&mut self, id: &str, name: &str, seed: i32) -> (r: Result<(), String>)
        requires
            old(self).ready(),
        ensures
            final(self).ready(),
    ;

    fn delete_participant(&mut self, id: &str) -> (r: Result<(), String>)
        requires
            old(self).ready(),
        ensures
            final(self).ready(),
    ;

    fn delete_all_participants(&mut self, tournament_id: &str) -> (r: Result<(), String>)
        requires
            old(self).ready(),
        ensures
            final(self).ready(),
    ;

    fn get_participant_count(&self, tournament_id: &str) -> (r: Result<usize, String>)
        requires
            self.ready(),
    ;
}

/// Storage of rounds.
pub trait RoundRepository {
    /// The storage is in a usable state.
    spec fn ready(&self) -> bool;

    fn create_round(&mut self, r: &Round) -> (res: Result<(), String>)
        requires
            old(self).ready(),
        ensures
            final(self).ready(),
    ;

    fn get_rounds_by_tournament(&self, tournament_id: &str) -> (r: Result<Vec<Round>, String>)
        requires
            self.ready(),
    ;

    fn delete_all_rounds(&mut self, tournament_id: &str) -> (r: Result<(), String>)
        requires
            old(self).ready(),
        ensures
            final(self).ready(),
    ;
}

/// Storage of matches.
pub trait MatchRepository {
    /// The storage is in a usable state.
    spec fn ready(&self) -> bool;

    fn create_match(&mut self, m: &Match) -> (r: Result<(), String>)
        requires
            old(self).ready(),
        ensures
            final(self).ready(),
    ;

    fn get_matches_by_tournament(&self, tournament_id: &str) -> (r: Result<Vec<Match>, String>)
        requires
            self.ready(),
    ;

    fn get_match_by_id(&self, match_id: &str) -> (r: Result<Option<Match>, String>)
        requires
            self.ready(),
    ;

    fn update_match_score(&mut self, id: &str, score1: i32, score2: i32, status: &MatchStatus, winner_id: Option<&str>) -> (r: Result<
        (),
        String,
    >)
        requires
            old(self).ready(),
        ensures
            final(self).ready(),
    ;

    fn set_match_player(&mut self, id: &str, slot: i32, player_id: &str, player_name: &str) -> (r: Result<(), String>)
        requires
            old(self).ready(),
        ensures
            final(self).ready(),
    ;

    fn delete_all_matches(&mut self, tournament_id: &str) -> (r: Result<(), String>)
        requires
            old(self).ready(),
        ensures
            final(self).ready(),
    ;
}

/// The text of an optional string, taken by its characters.
pub open spec fn opt_string_text(o: Option<String>) -> Option<Seq<char>> {
    match o {
        Some(s) => Some(s@),
        None => None,
    }
}

/// The text of an optional string slice, taken by its characters.
pub open spec fn opt_str_text(o: Option<&str>) -> Option<Seq<char>> {
    match o {
        Some(s) => Some(s@),
        None => None,
    }
}

impl TournamentRepository for TournamentStore {
    open spec fn ready(&self) -> bool {
        self.wf()
    }

    fn create_tournament(&mut self, t: &Tournament) -> (r: Result<(), String>)
        ensures
            has_tournament(old(self).tournament_rows(), t.id@) ==> is_err_with(r, "UNIQUE constraint failed: tournaments.id"@)
                && final(self).same_rows(old(self)),
            !has_tournament(old(self).tournament_rows(), t.id@) ==> r is Ok
                && final(self).tournament_rows() == old(self).tournament_rows().push(*t)
                && final(self).same_but_tournaments(old(self)),
    {
        TournamentStore::create_tournament(self, t)
    }

    fn get_tournament(&self, id: &str) -> (r: Result<Option<Tournament>, String>)
        ensures
            r == Ok::<Option<Tournament>, String>(tournament_with_id(self.tournament_rows(), id@)),
    {
        TournamentStore::get_tournament(self, id)
    }

    fn get_all_tournaments(&self) -> (r: Result<Vec<Tournament>, String>)
        ensures
            r matches Ok(v) && v@ == tournaments_newest_first(self.tournament_rows()),
    {
        TournamentStore::get_all_tournaments(self)
    }

    fn update_tournament_status(&mut self, id: &str, status: &TournamentStatus) -> (r: Result<(), String>)
        ensures
            r is Ok,
            final(self).tournament_rows() == update_tournament_rows(old(self).tournament_rows(), id@,
                |t: Tournament| Tournament { status: *status, ..t }),
            final(self).same_but_tournaments(old(self)),
    {
        TournamentStore::put_tournament_status(self, id, *status)
    }

    fn update_tournament_participant_count(&mut self, id: &str, count: usize) -> (r: Result<(), String>)
        ensures
            r is Ok,
            final(self).tournament_rows() == update_tournament_rows(old(self).tournament_rows(), id@,
                |t: Tournament| Tournament { participant_count: count, ..t }),
            final(self).same_but_tournaments(old(self)),
    {
        TournamentStore::update_tournament_participant_count(self, id, count)
    }

    fn delete_tournament(&mut self, id: &str) -> (r: Result<(), String>)
        ensures
            r is Ok,
            final(self).tournament_rows() == old(self).tournament_rows().filter(|t: Tournament| t.id@ != id@),
            final(self).participant_rows() == old(self).participant_rows().filter(|p: Participant| p.tournament_id@ != id@),
            final(self).round_rows() == old(self).round_rows().filter(|x: Round| x.tournament_id@ != id@),
            final(self).match_rows() == old(self).match_rows().filter(|m: Match| m.tournament_id@ != id@).filter(
                |m: Match| !round_of_tournament(old(self).round_rows(), m.round_id@, id@)),
    {
        TournamentStore::delete_tournament(self, id)
    }
}

impl ParticipantRepository for TournamentStore {
    open spec fn ready(&self) -> bool {
        self.wf()
    }

    fn create_participant(&mut self, p: &Participant) -> (r: Result<(), String>)
        ensures
            has_participant(old(self).participant_rows(), p.id@) ==> is_err_with(r, "UNIQUE constraint failed: participants.id"@)
                && final(self).same_rows(old(self)),
            !has_participant(old(self).participant_rows(), p.id@) && !has_tournament(old(self).tournament_rows(), p.tournament_id@)
                ==> is_err_with(r, foreign_key_violation()) && final(self).same_rows(old(self)),
            !has_participant(old(self).participant_rows(), p.id@) && has_tournament(old(self).tournament_rows(), p.tournament_id@)
                ==> r is Ok
                && final(self).participant_rows() == old(self).participant_rows().push(Participant { has_logo: false, ..*p })
                && final(self).same_but_participants(old(self)),
    {
        TournamentStore::create_participant(self, p)
    }

    fn get_participants_by_tournament(&self, tournament_id: &str) -> (r: Result<Vec<Participant>, String>)
        ensures
            r matches Ok(v) && v@ == tournament_participants_in(self.participant_rows(), tournament_id@),
    {
        TournamentStore::get_participants_by_tournament(self, tournament_id)
    }

    fn participant_exists(&self, tournament_id: &str, name: &str) -> (r: Result<bool, String>)
        ensures
            r == Ok::<bool, String>(participant_named(self.participant_rows(), tournament_id@, name@)),
    {
        TournamentStore::participant_exists(self, tournament_id, name)
    }

    fn update_participant(&mut self, id: &str, name: &str, seed: i32) -> (r: Result<(), String>)
        ensures
            r is Ok,
            exists|s: String| #[trigger] s@ == name@ && final(self).participant_rows() == update_participant_rows(
                old(self).participant_rows(), id@, |p: Participant| Participant { name: s, seed, ..p }),
            final(self).same_but_participants(old(self)),
    {
        let s = String::from_str(name);
        let r = TournamentStore::put_participant(self, id, &s, seed);
        assert(s@ == name@);
        r
    }

    fn delete_participant(&mut self, id: &str) -> (r: Result<(), String>)
        ensures
            r is Ok,
            final(self).participant_rows() == old(self).participant_rows().filter(|p: Participant| p.id@ != id@),
            final(self).same_but_participants(old(self)),
    {
        TournamentStore::delete_participant(self, id)
    }

    fn delete_all_participants(&mut self, tournament_id: &str) -> (r: Result<(), String>)
        ensures
            r is Ok,
            final(self).participant_rows() == old(self).participant_rows().filter(
                |p: Participant| p.tournament_id@ != tournament_id@),
            final(self).same_but_participants(old(self)),
    {
        TournamentStore::delete_all_participants(self, tournament_id)
    }

    fn get_participant_count(&self, tournament_id: &str) -> (r: Result<usize, String>)
        ensures
            r matches Ok(c) && c == participant_count_in(self.participant_rows(), tournament_id@),
    {
        TournamentStore::get_participant_count(self, tournament_id)
    }
}

impl RoundRepository for TournamentStore {
    open spec fn ready(&self) -> bool {
        self.wf()
    }

    fn create_round(&mut self, r: &Round) -> (res: Result<(), String>)
        ensures
            has_round(old(self).round_rows(), r.id@) ==> is_err_with(res, "UNIQUE constraint failed: rounds.id"@)
                && final(self).same_rows(old(self)),
            !has_round(old(self).round_rows(), r.id@) && !has_tournament(old(self).tournament_rows(), r.tournament_id@)
                ==> is_err_with(res, foreign_key_violation()) && final(self).same_rows(old(self)),
            !has_round(old(self).round_rows(), r.id@) && has_tournament(old(self).tournament_rows(), r.tournament_id@)
                ==> res is Ok
                && final(self).round_rows() == old(self).round_rows().push(*r)
                && final(self).tournament_rows() == old(self).tournament_rows()
                && final(self).participant_rows() == old(self).participant_rows()
                && final(self).match_rows() == old(self).match_rows(),
    {
        TournamentStore::create_round(self, r)
    }

    fn get_rounds_by_tournament(&self, tournament_id: &str) -> (r: Result<Vec<Round>, String>)
        ensures
            r matches Ok(v) && v@ == tournament_rounds_in(self.round_rows(), tournament_id@),
    {
        TournamentStore::get_rounds_by_tournament(self, tournament_id)
    }

    fn delete_all_rounds(&mut self, tournament_id: &str) -> (r: Result<(), String>)
        ensures
            r is Ok,
            final(self).round_rows() == old(self).round_rows().filter(|x: Round| x.tournament_id@ != tournament_id@),
            final(self).match_rows() == old(self).match_rows().filter(
                |m: Match| !round_of_tournament(old(self).round_rows(), m.round_id@, tournament_id@)),
            final(self).tournament_rows() == old(self).tournament_rows(),
            final(self).participant_rows() == old(self).participant_rows(),
    {
        TournamentStore::delete_all_rounds(self, tournament_id)
    }
}

impl MatchRepository for TournamentStore {
    open spec fn ready(&self) -> bool {
        self.wf()
    }

    fn create_match(&mut self, m: &Match) -> (r: Result<(), String>)
        ensures
            has_match(old(self).match_rows(), m.id@) ==> is_err_with(r, "UNIQUE constraint failed: matches.id"@)
                && final(self).same_rows(old(self)),
            !has_match(old(self).match_rows(), m.id@) && !(has_tournament(old(self).tournament_rows(), m.tournament_id@)
                && has_round(old(self).round_rows(), m.round_id@)) ==> is_err_with(r, foreign_key_violation())
                && final(self).same_rows(old(self)),
            !has_match(old(self).match_rows(), m.id@) && has_tournament(old(self).tournament_rows(), m.tournament_id@)
                && has_round(old(self).round_rows(), m.round_id@) ==> r is Ok
                && final(self).match_rows() == old(self).match_rows().push(*m)
                && final(self).same_but_matches(old(self)),
    {
        TournamentStore::create_match(self, m)
    }

    fn get_matches_by_tournament(&self, tournament_id: &str) -> (r: Result<Vec<Match>, String>)
        ensures
            r matches Ok(v) && v@ == tournament_matches_in(self.round_rows(), self.match_rows(), tournament_id@),
    {
        TournamentStore::get_matches_by_tournament(self, tournament_id)
    }

    fn get_match_by_id(&self, match_id: &str) -> (r: Result<Option<Match>, String>)
        ensures
            r == Ok::<Option<Match>, String>(match_with_id(self.match_rows(), match_id@)),
    {
        TournamentStore::get_match_by_id(self, match_id)
    }

    fn update_match_score(&mut self, id: &str, score1: i32, score2: i32, status: &MatchStatus, winner_id: Option<&str>) -> (r: Result<
        (),
        String,
    >)
        ensures
            r is Ok,
            exists|w: Option<String>| #[trigger] opt_string_text(w) == opt_str_text(winner_id)
                && final(self).match_rows() == update_match_rows(old(self).match_rows(), id@,
                |m: Match| with_score(m, score1, score2, *status, w)),
            final(self).same_but_matches(old(self)),
    {
        let winner = match winner_id {
            Some(w) => Some(String::from_str(w)),
            None => None,
        };
        assert(opt_string_text(winner) == opt_str_text(winner_id));
        TournamentStore::put_match_score(self, id, score1, score2, *status, &winner)
    }

    fn set_match_player(&mut self, id: &str, slot: i32, player_id: &str, player_name: &str) -> (r: Result<(), String>)
        ensures
            r is Ok,
            exists|pid: String, pname: String| #[trigger] pid@ == player_id@ && #[trigger] pname@ == player_name@
                && final(self).match_rows() == update_match_rows(old(self).match_rows(), id@,
                |m: Match| with_player(m, slot, pid, pname)),
            final(self).same_but_matches(old(self)),
    {
        let pid = String::from_str(player_id);
        let pname = String::from_str(player_name);
        assert(pid@ == player_id@ && pname@ == player_name@);
        TournamentStore::put_match_player(self, id, slot, &pid, &pname)
    }

    fn delete_all_matches(&mut self, tournament_id: &str) -> (r: Result<(), String>)
        ensures
            r is Ok,
            final(self).match_rows() == old(self).match_rows().filter(|m: Match| m.tournament_id@ != tournament_id@),
            final(self).same_but_matches(old(self)),
    {
        TournamentStore::delete_all_matches(self, tournament_id)
    }
}

} // verus!
