use vstd::prelude::*;
use crate::domain::match_model::Match;
use crate::domain::participant::Participant;
use crate::domain::round::Round;
use crate::domain::tournament::Tournament;
use crate::sorting::{is_sorted_selection, lemma_sorted_selection_exists, lemma_sorted_selection_in_order, sorted_selection, stable_before};
use crate::store::{
    has_match, has_participant, has_round, has_tournament, match_keep, match_keys, matches_insertable, participant_keep,
    participant_keys, participants_insertable, round_keep, round_keys, round_number_in, round_of_tournament, rounds_insertable,
    stored_participants, tournament_matches_in, tournament_participants_in, tournament_rounds_in, tournament_with_id, TournamentStore,
};

verus! {

/// Every match of tournament `tid` whose round exists lies in a round of
/// that same tournament.
pub open spec fn matches_in_own_rounds(rs: Seq<Round>, ms: Seq<Match>, tid: Seq<char>) -> bool {
    forall|k: int| 0 <= k < ms.len() && #[trigger] ms[k].tournament_id@ == tid && has_round(rs, ms[k].round_id@)
        ==> round_of_tournament(rs, ms[k].round_id@, tid)
}

/// The participants of a tournament, as exported: distinct rows of that
/// tournament, in stable seed order.
proof fn lemma_exported_participants(ps: Seq<Participant>, tid: Seq<char>)
    requires
        forall|i: int, j: int| 0 <= i < j < ps.len() ==> #[trigger] ps[i].id@ != #[trigger] ps[j].id@,
    ensures
        ({
            let out = tournament_participants_in(ps, tid);
            let sp = stored_participants(out);
            &&& forall|i: int| 0 <= i < out.len() ==> (#[trigger] out[i]).tournament_id@ == tid
            &&& forall|i: int, j: int| 0 <= i < j < out.len() ==> #[trigger] out[i].id@ != #[trigger] out[j].id@
            &&& forall|i: int, j: int| 0 <= i < j < sp.len() ==> stable_before(participant_keys(sp), i, j)
        }),
{
    lemma_sorted_selection_exists(participant_keys(ps), participant_keep(ps, tid));
    let q = sorted_selection(participant_keys(ps), participant_keep(ps, tid));
    let out = tournament_participants_in(ps, tid);
    let sp = stored_participants(out);
    assert forall|i: int| 0 <= i < out.len() implies (#[trigger] out[i]).tournament_id@ == tid by {
        assert(participant_keep(ps, tid)[q[i]]);
    }
    assert forall|i: int, j: int| 0 <= i < j < out.len() implies #[trigger] out[i].id@ != #[trigger] out[j].id@ by {
        assert(stable_before(participant_keys(ps), q[i], q[j]));
        assert(q[i] != q[j]);
        if q[i] < q[j] {
            assert(ps[q[i]].id@ != ps[q[j]].id@);
        } else {
            assert(ps[q[j]].id@ != ps[q[i]].id@);
        }
    }
    assert forall|i: int, j: int| 0 <= i < j < sp.len() implies stable_before(participant_keys(sp), i, j) by {
        assert(stable_before(participant_keys(ps), q[i], q[j]));
    }
}

/// The rounds of a tournament, as exported: distinct rows of that
/// tournament, in stable round-number order, covering all its rounds.
proof fn lemma_exported_rounds(rs: Seq<Round>, tid: Seq<char>)
    requires
        forall|i: int, j: int| 0 <= i < j < rs.len() ==> #[trigger] rs[i].id@ != #[trigger] rs[j].id@,
    ensures
        ({
            let out = tournament_rounds_in(rs, tid);
            &&& forall|i: int| 0 <= i < out.len() ==> (#[trigger] out[i]).tournament_id@ == tid
            &&& forall|i: int, j: int| 0 <= i < j < out.len() ==> #[trigger] out[i].id@ != #[trigger] out[j].id@
            &&& forall|i: int, j: int| 0 <= i < j < out.len() ==> stable_before(round_keys(out), i, j)
            &&& forall|id: Seq<char>| #[trigger] round_of_tournament(rs, id, tid) ==> has_round(out, id)
            &&& forall|id: Seq<char>| #[trigger] has_round(out, id) ==> round_number_in(out, id) == round_number_in(rs, id)
        }),
{
    lemma_sorted_selection_exists(round_keys(rs), round_keep(rs, tid));
    let q = sorted_selection(round_keys(rs), round_keep(rs, tid));
    let out = tournament_rounds_in(rs, tid);
    assert forall|i: int| 0 <= i < out.len() implies (#[trigger] out[i]).tournament_id@ == tid && out[i] == rs[q[i]] by {
        assert(round_keep(rs, tid)[q[i]]);
    }
    assert forall|i: int, j: int| 0 <= i < j < out.len() implies #[trigger] out[i].id@ != #[trigger] out[j].id@ by {
        assert(stable_before(round_keys(rs), q[i], q[j]));
        if q[i] < q[j] {
            assert(rs[q[i]].id@ != rs[q[j]].id@);
        } else {
            assert(rs[q[j]].id@ != rs[q[i]].id@);
        }
    }
    assert forall|i: int, j: int| 0 <= i < j < out.len() implies stable_before(round_keys(out), i, j) by {
        assert(stable_before(round_keys(rs), q[i], q[j]));
    }
    assert forall|id: Seq<char>| #[trigger] round_of_tournament(rs, id, tid) implies has_round(out, id) by {
        let k = choose|k: int| 0 <= k < rs.len() && #[trigger] rs[k].id@ == id && rs[k].tournament_id@ == tid;
        assert(round_keep(rs, tid)[k]);
        let c = choose|c: int| 0 <= c < q.len() && #[trigger] q[c] == k;
        assert(out[c].id@ == id);
    }
    assert forall|id: Seq<char>| #[trigger] has_round(out, id) implies round_number_in(out, id) == round_number_in(rs, id) by {
        let c = choose|i: int| 0 <= i < out.len() && #[trigger] out[i].id@ == id;
        assert(out[c] == rs[q[c]]);
        assert(has_round(rs, id));
        let c2 = choose|i: int| 0 <= i < rs.len() && #[trigger] rs[i].id@ == id;
        if q[c] < c2 {
            assert(rs[q[c]].id@ != rs[c2].id@);
        } else if c2 < q[c] {
            assert(rs[c2].id@ != rs[q[c]].id@);
        }
    }
}

/// Exporting a tournament and importing the export into an empty store
/// brings it back: the import is accepted (every row goes in), and reading
/// the tournament from the new store gives the exported tournament, its
/// participants (without logos), its rounds and its matches, in the same
/// order. (Stated for tournaments whose matches lie in their own rounds.)
pub proof fn lemma_export_import_round_trip(a: TournamentStore, tid: Seq<char>)
    requires
        a.wf(),
        tournament_with_id(a.tournament_rows(), tid) is Some,
        matches_in_own_rounds(a.round_rows(), a.match_rows(), tid),
    ensures
        ({
            let t = tournament_with_id(a.tournament_rows(), tid)->Some_0;
            let ps = tournament_participants_in(a.participant_rows(), tid);
            let rs = tournament_rounds_in(a.round_rows(), tid);
            let ms = tournament_matches_in(a.round_rows(), a.match_rows(), tid);
            &&& t.id@ == tid
            &&& participants_insertable(Seq::empty(), seq![t], ps)
            &&& rounds_insertable(Seq::empty(), seq![t], rs)
            &&& matches_insertable(Seq::empty(), rs, seq![t], ms)
            &&& tournament_with_id(seq![t], tid) == Some(t)
            &&& tournament_participants_in(stored_participants(ps), tid) == stored_participants(ps)
            &&& tournament_rounds_in(rs, tid) == rs
            &&& tournament_matches_in(rs, ms, tid) == ms
        }),
{
    let t = tournament_with_id(a.tournament_rows(), tid)->Some_0;
    let ps = tournament_participants_in(a.participant_rows(), tid);
    let rs = tournament_rounds_in(a.round_rows(), tid);
    let ms = tournament_matches_in(a.round_rows(), a.match_rows(), tid);
    let ts = seq![t];
    a.lemma_participant_ids_distinct();
    a.lemma_round_ids_distinct();
    a.lemma_match_ids_distinct();
    assert(ts[0].id@ == tid);
    // The tournament.
    let c = choose|i: int| 0 <= i < ts.len() && #[trigger] ts[i].id@ == tid;
    assert(c == 0);
    // Participants.
    lemma_exported_participants(a.participant_rows(), tid);
    assert forall|i: int| 0 <= i < ps.len() implies has_tournament(ts, #[trigger] ps[i].tournament_id@)
        && !has_participant(Seq::empty(), ps[i].id@) by {
        assert(ts[0].id@ == ps[i].tournament_id@);
    }
    let sp = stored_participants(ps);
    assert forall|i: int| 0 <= i < sp.len() implies #[trigger] participant_keep(sp, tid)[i] by {
        assert(sp[i].tournament_id@ == ps[i].tournament_id@);
    }
    lemma_sorted_selection_in_order(participant_keys(sp), participant_keep(sp, tid));
    assert(tournament_participants_in(sp, tid) =~= sp);
    // Rounds.
    lemma_exported_rounds(a.round_rows(), tid);
    assert forall|i: int| 0 <= i < rs.len() implies has_tournament(ts, #[trigger] rs[i].tournament_id@)
        && !has_round(Seq::empty(), rs[i].id@) by {
        assert(ts[0].id@ == rs[i].tournament_id@);
    }
    assert forall|i: int| 0 <= i < rs.len() implies #[trigger] round_keep(rs, tid)[i] by {
        assert(rs[i].tournament_id@ == tid);
    }
    lemma_sorted_selection_in_order(round_keys(rs), round_keep(rs, tid));
    assert(tournament_rounds_in(rs, tid) =~= rs);
    // Matches.
    let arows = a.match_rows();
    let ars = a.round_rows();
    lemma_sorted_selection_exists(match_keys(ars, arows), match_keep(ars, arows, tid));
    let qm = sorted_selection(match_keys(ars, arows), match_keep(ars, arows, tid));
    assert forall|i: int| 0 <= i < ms.len() implies ms[i] == arows[qm[i]] && (#[trigger] ms[i]).tournament_id@ == tid
        && has_round(rs, ms[i].round_id@) by {
        assert(match_keep(ars, arows, tid)[qm[i]]);
        assert(arows[qm[i]].tournament_id@ == tid && has_round(ars, arows[qm[i]].round_id@));
        assert(round_of_tournament(ars, arows[qm[i]].round_id@, tid));
    }
    assert forall|i: int| 0 <= i < ms.len() implies has_tournament(ts, #[trigger] ms[i].tournament_id@)
        && has_round(rs, ms[i].round_id@) && !has_match(Seq::empty(), ms[i].id@) by {
        assert(ts[0].id@ == ms[i].tournament_id@);
    }
    assert forall|i: int, j: int| 0 <= i < j < ms.len() implies #[trigger] ms[i].id@ != #[trigger] ms[j].id@ by {
        assert(stable_before(match_keys(ars, arows), qm[i], qm[j]));
        if qm[i] < qm[j] {
            assert(arows[qm[i]].id@ != arows[qm[j]].id@);
        } else {
            assert(arows[qm[j]].id@ != arows[qm[i]].id@);
        }
    }
    assert forall|i: int| 0 <= i < ms.len() implies #[trigger] match_keep(rs, ms, tid)[i] by {
        assert(ms[i].tournament_id@ == tid);
    }
    assert forall|i: int| 0 <= i < ms.len() implies #[trigger] match_keys(rs, ms)[i] == match_keys(ars, arows)[qm[i]] by {
        assert(has_round(rs, ms[i].round_id@));
        assert(round_number_in(rs, ms[i].round_id@) == round_number_in(ars, ms[i].round_id@));
    }
    assert forall|i: int, j: int| 0 <= i < j < ms.len() implies stable_before(match_keys(rs, ms), i, j) by {
        assert(stable_before(match_keys(ars, arows), qm[i], qm[j]));
        assert(match_keys(rs, ms)[i] == match_keys(ars, arows)[qm[i]]);
        assert(match_keys(rs, ms)[j] == match_keys(ars, arows)[qm[j]]);
    }
    lemma_sorted_selection_in_order(match_keys(rs, ms), match_keep(rs, ms, tid));
    assert(tournament_matches_in(rs, ms, tid) =~= ms);
}

} // verus!
