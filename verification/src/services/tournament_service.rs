use vstd::prelude::*;
use vstd::string::*;
use crate::domain::export_model::TournamentExport;
use crate::domain::ids::is_uuid_text;
use crate::domain::match_model::Match;
use crate::domain::participant::Participant;
use crate::domain::round::Round;
use crate::domain::tournament::{Tournament, TournamentStatus, TournamentType};
use crate::services::bracket_generator::{cleared_matches, cleared_rounds, starts_with};
use crate::store::{
    has_tournament, matches_insertable, participants_insertable, rounds_insertable, stored_participants, tournament_matches_in,
    tournament_participants_in, tournament_rounds_in, tournament_with_id, tournaments_newest_first, update_tournament_rows,
    round_of_tournament, TournamentStore,
};
use crate::text::{is_err_with, prefixed, trim, trim_text};

verus! {

/// Creates, lists, removes, resets, exports and imports tournaments.
pub struct TournamentService {}

impl TournamentService {
    pub fn new() -> (s: Self) {
        TournamentService {}
    }

    /// Creates a draft tournament named `name` (trimmed; an empty name is
    /// refused) with the trimmed description and game, a fresh identifier
    /// and the current time.
    pub fn create_tournament(
        &self,
        store: &mut TournamentStore,
        name: &str,
        t_type: TournamentType,
        description: &str,
        game_name: &str,
    ) -> (r: Result<Tournament, String>)
        requires
            old(store).wf(),
        ensures
            final(store).wf(),
            trim_text(name@).len() == 0 ==> is_err_with(r, "Tournament name cannot be empty."@) && final(store).same_rows(old(store)),
            trim_text(name@).len() > 0 ==> match r {
                Ok(t) => {
                    &&& t.name@ == trim_text(name@)
                    &&& t.tournament_type == t_type
                    &&& t.description@ == trim_text(description@)
                    &&& t.game_name@ == trim_text(game_name@)
                    &&& t.participant_count == 0
                    &&& t.status == TournamentStatus::Draft
                    &&& is_uuid_text(t.id@)
                    &&& !has_tournament(old(store).tournament_rows(), t.id@)
                    &&& final(store).tournament_rows() == old(store).tournament_rows().push(t)
                    &&& final(store).same_but_tournaments(old(store))
                },
                Err(e) => e@ == "Database error: UNIQUE constraint failed: tournaments.id"@ && final(store).same_rows(old(store)),
            },
    {
        let trimmed = trim(name);
        if trimmed.as_str().unicode_len() == 0 {
            return Err(String::from_str("Tournament name cannot be empty."));
        }
        let tournament = Tournament::new(trimmed, t_type, trim(description), trim(game_name));
        match store.create_tournament(&tournament) {
            Ok(()) => {},
            Err(e) => {
                proof {
                    reveal_strlit("Database error: ");
                    reveal_strlit("UNIQUE constraint failed: tournaments.id");
                    reveal_strlit("Database error: UNIQUE constraint failed: tournaments.id");
                    assert("Database error: "@ + e@ =~= "Database error: UNIQUE constraint failed: tournaments.id"@);
                }
                return Err(prefixed("Database error: ", e));
            },
        }
        Ok(tournament)
    }

    /// All tournaments, newest first.
    pub fn load_all_tournaments(&self, store: &TournamentStore) -> (r: Result<Vec<Tournament>, String>)
        requires
            store.wf(),
        ensures
            r matches Ok(v) && v@ == tournaments_newest_first(store.tournament_rows()),
    {
        match store.get_all_tournaments() {
            Ok(v) => Ok(v),
            Err(e) => Err(prefixed("Failed to load tournaments: ", e)),
        }
    }

    /// Deletes tournament `tournament_id` with everything that belongs to
    /// it.
    pub fn delete_tournament(&self, store: &mut TournamentStore, tournament_id: &str) -> (r: Result<(), String>)
        requires
            old(store).wf(),
        ensures
            final(store).wf(),
            r is Ok,
            final(store).tournament_rows() == old(store).tournament_rows().filter(|t: Tournament| t.id@ != tournament_id@),
            final(store).participant_rows() == old(store).participant_rows().filter(|p: Participant| p.tournament_id@ != tournament_id@),
            final(store).round_rows() == cleared_rounds(old(store).round_rows(), tournament_id@),
            final(store).match_rows() == cleared_matches(old(store).round_rows(), old(store).match_rows(), tournament_id@),
    {
        match store.delete_tournament(tournament_id) {
            Ok(()) => Ok(()),
            Err(e) => Err(prefixed("Failed to delete tournament: ", e)),
        }
    }

    /// Sets the status of tournament `tournament_id`.
    pub fn update_status(&self, store: &mut TournamentStore, tournament_id: &str, status: TournamentStatus) -> (r: Result<(), String>)
        requires
            old(store).wf(),
        ensures
            final(store).wf(),
            r is Ok,
            final(store).tournament_rows() == update_tournament_rows(old(store).tournament_rows(), tournament_id@,
                |t: Tournament| Tournament { status, ..t }),
            final(store).same_but_tournaments(old(store)),
    {
        match store.put_tournament_status(tournament_id, status) {
            Ok(()) => Ok(()),
            Err(e) => Err(prefixed("Failed to update status: ", e)),
        }
    }

    /// Removes the bracket of tournament `tournament_id` and puts it back
    /// to draft.
    pub fn reset_bracket(&self, store: &mut TournamentStore, tournament_id: &str) -> (r: Result<(), String>)
        requires
            old(store).wf(),
        ensures
            final(store).wf(),
            r is Ok,
            final(store).round_rows() == cleared_rounds(old(store).round_rows(), tournament_id@),
            final(store).match_rows() == cleared_matches(old(store).round_rows(), old(store).match_rows(), tournament_id@),
            final(store).participant_rows() == old(store).participant_rows(),
            final(store).tournament_rows() == update_tournament_rows(old(store).tournament_rows(), tournament_id@,
                |t: Tournament| Tournament { status: TournamentStatus::Draft, ..t }),
    {
        match store.delete_all_matches(tournament_id) {
            Ok(()) => {},
            Err(e) => {
                return Err(prefixed("Failed to clear matches: ", e));
            },
        }
        match store.delete_all_rounds(tournament_id) {
            Ok(()) => {},
            Err(e) => {
                return Err(prefixed("Failed to clear rounds: ", e));
            },
        }
        match store.put_tournament_status(tournament_id, TournamentStatus::Draft) {
            Ok(()) => {},
            Err(e) => {
                return Err(prefixed("Failed to reset status: ", e));
            },
        }
        Ok(())
    }

    /// Everything that belongs to tournament `tournament_id`: the
    /// tournament, its participants by seed, its rounds by number and its
    /// matches in bracket order.
    pub fn export_tournament_data(&self, store: &TournamentStore, tournament_id: &str) -> (r: Result<TournamentExport, String>)
        requires
            store.wf(),
        ensures
            tournament_with_id(store.tournament_rows(), tournament_id@) is None ==> is_err_with(r, "Tournament not found"@),
            tournament_with_id(store.tournament_rows(), tournament_id@) matches Some(t) ==> r matches Ok(d) && {
                &&& d.tournament == t
                &&& d.participants@ == tournament_participants_in(store.participant_rows(), tournament_id@)
                &&& d.rounds@ == tournament_rounds_in(store.round_rows(), tournament_id@)
                &&& d.matches@ == tournament_matches_in(store.round_rows(), store.match_rows(), tournament_id@)
            },
    {
        let tournament = match store.get_tournament(tournament_id) {
            Ok(Some(t)) => t,
            Ok(None) => {
                return Err(String::from_str("Tournament not found"));
            },
            Err(e) => {
                return Err(prefixed("DB error: ", e));
            },
        };
        let participants = match store.get_participants_by_tournament(tournament_id) {
            Ok(v) => v,
            Err(e) => {
                return Err(prefixed("DB error: ", e));
            },
        };
        let rounds = match store.get_rounds_by_tournament(tournament_id) {
            Ok(v) => v,
            Err(e) => {
                return Err(prefixed("DB error: ", e));
            },
        };
        let matches = match store.get_matches_by_tournament(tournament_id) {
            Ok(v) => v,
            Err(e) => {
                return Err(prefixed("DB error: ", e));
            },
        };
        Ok(TournamentExport { tournament, participants, rounds, matches })
    }

    /// Imports an exported tournament: refused when its identifier is
    /// taken; otherwise the tournament, then its participants, rounds and
    /// matches are inserted in order, stopping at the first refusal.
    /// Returns the tournament's identifier.
    pub fn import_tournament_data(&self, store: &mut TournamentStore, data: &TournamentExport) -> (r: Result<String, String>)
        requires
            old(store).wf(),
        ensures
            final(store).wf(),
            has_tournament(old(store).tournament_rows(), data.tournament.id@) ==> is_err_with(
                r,
                "Tournament with this ID already exists. Cannot import."@,
            ) && final(store).same_rows(old(store)),
            !has_tournament(old(store).tournament_rows(), data.tournament.id@) ==> {
                let ts = old(store).tournament_rows().push(data.tournament);
                &&& final(store).tournament_rows() == ts
                &&& (r is Ok <==> participants_insertable(old(store).participant_rows(), ts, data.participants@)
                    && rounds_insertable(old(store).round_rows(), ts, data.rounds@)
                    && matches_insertable(old(store).match_rows(), old(store).round_rows() + data.rounds@, ts, data.matches@))
                &&& r matches Ok(id) ==> id@ == data.tournament.id@
                    && final(store).participant_rows() == old(store).participant_rows() + stored_participants(data.participants@)
                    && final(store).round_rows() == old(store).round_rows() + data.rounds@
                    && final(store).match_rows() == old(store).match_rows() + data.matches@
                &&& r matches Err(e) ==> starts_with(e@, "Failed to insert "@)
            },
    {
        let ghost pre = *store;
        let t = &data.tournament;
        let existing = match store.get_tournament(t.id.as_str()) {
            Ok(v) => v,
            Err(e) => {
                return Err(e);
            },
        };
        if existing.is_some() {
            return Err(String::from_str("Tournament with this ID already exists. Cannot import."));
        }
        proof {
            reveal_strlit("Failed to insert ");
            reveal_strlit("Failed to insert tournament: ");
            reveal_strlit("Failed to insert participant: ");
            reveal_strlit("Failed to insert round: ");
            reveal_strlit("Failed to insert match: ");
            assert("Failed to insert participant: "@.subrange(0, 17) =~= "Failed to insert "@);
            assert("Failed to insert round: "@.subrange(0, 17) =~= "Failed to insert "@);
            assert("Failed to insert match: "@.subrange(0, 17) =~= "Failed to insert "@);
        }
        match store.create_tournament(t) {
            Ok(()) => {},
            Err(e) => {
                return Err(prefixed("Failed to insert tournament: ", e));
            },
        }
        let ghost ts = pre.tournament_rows().push(data.tournament);
        match store.create_participants(&data.participants, 0, data.participants.len()) {
            Ok(()) => {},
            Err(e) => {
                proof {
                    assert(data.participants@.subrange(0, data.participants@.len() as int) =~= data.participants@);
                    assert(("Failed to insert participant: "@ + e@).subrange(0, 17) =~= "Failed to insert "@);
                }
                return Err(prefixed("Failed to insert participant: ", e));
            },
        }
        proof {
            assert(data.participants@.subrange(0, data.participants@.len() as int) =~= data.participants@);
        }
        match store.create_rounds(&data.rounds, 0, data.rounds.len()) {
            Ok(()) => {},
            Err(e) => {
                proof {
                    assert(data.rounds@.subrange(0, data.rounds@.len() as int) =~= data.rounds@);
                    assert(("Failed to insert round: "@ + e@).subrange(0, 17) =~= "Failed to insert "@);
                }
                return Err(prefixed("Failed to insert round: ", e));
            },
        }
        proof {
            assert(data.rounds@.subrange(0, data.rounds@.len() as int) =~= data.rounds@);
        }
        match store.create_matches(&data.matches, 0, data.matches.len()) {
            Ok(()) => {},
            Err(e) => {
                proof {
                    assert(data.matches@.subrange(0, data.matches@.len() as int) =~= data.matches@);
                    assert(("Failed to insert match: "@ + e@).subrange(0, 17) =~= "Failed to insert "@);
                }
                return Err(prefixed("Failed to insert match: ", e));
            },
        }
        proof {
            assert(data.matches@.subrange(0, data.matches@.len() as int) =~= data.matches@);
        }
        Ok(t.id.clone())
    }
}

} // verus!
