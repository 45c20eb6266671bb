use vstd::prelude::*;
use vstd::string::*;
use crate::domain::match_model::{BracketType, Match, MatchStatus};
use crate::domain::participant::Participant;
use crate::domain::tournament::{Tournament, TournamentType};
use crate::services::standings::{
    compute_record, is_id, holds_id, ranked_standings, record, round_numbers_bounded, standing_fits, standings_ranked,
    ParticipantStanding,
};
use crate::store::{
    TournamentStore, match_keep, match_keys, match_with_id, tournament_matches_in, tournament_participants_in, tournament_rounds_in,
    tournament_with_id, update_match_rows, with_player, with_score, has_tournament,
};
use crate::sorting::{is_sorted_selection, sorted_selection};
use crate::text::{copy_opt_string, copy_string, is_err_with, prefixed, str_eq, texts};

verus! {

// ─── BYE resolution ──────────────────────────────────────────────────────

/// Slot 1 holds a player: an identifier and a non-empty name.
pub open spec fn slot1_filled(m: Match) -> bool {
    m.player1_id is Some && m.player1_name@.len() > 0
}

/// Slot 2 holds a player: an identifier and a non-empty name.
pub open spec fn slot2_filled(m: Match) -> bool {
    m.player2_id is Some && m.player2_name@.len() > 0
}

/// Slot 1 holds the BYE placeholder (by name or by identifier).
pub open spec fn slot1_bye(m: Match) -> bool {
    m.player1_name@ == "BYE"@ || (m.player1_id matches Some(s) && s@ == "BYE_ID"@)
}

/// Slot 2 holds the BYE placeholder (by name or by identifier).
pub open spec fn slot2_bye(m: Match) -> bool {
    m.player2_name@ == "BYE"@ || (m.player2_id matches Some(s) && s@ == "BYE_ID"@)
}

/// The match is open, both slots are filled, at least one of them with the
/// BYE placeholder, and it has not been resolved in this sweep yet.
pub open spec fn resolves_as_bye(m: Match, done: Seq<Seq<char>>) -> bool {
    &&& m.status != MatchStatus::Completed
    &&& slot1_filled(m)
    &&& slot2_filled(m)
    &&& slot1_bye(m) || slot2_bye(m)
    &&& !done.contains(m.id@)
}

/// Who advances from a BYE match: the real player, or the BYE placeholder
/// when both slots hold it.
pub open spec fn bye_winner(m: Match, bye_id: String, bye_name: String) -> (Option<String>, String) {
    if slot1_bye(m) && slot2_bye(m) {
        (Some(bye_id), bye_name)
    } else if slot1_bye(m) {
        (m.player2_id, m.player2_name)
    } else {
        (m.player1_id, m.player1_name)
    }
}

/// The rows after resolving `m` as a BYE: it is marked Bye with no score and
/// its winner, the winner moves on to the next match, and the BYE
/// placeholder drops into the loser's next match.
pub open spec fn resolve_bye(rows: Seq<Match>, m: Match, bye_id: String, bye_name: String) -> Seq<Match> {
    let w = bye_winner(m, bye_id, bye_name);
    let r1 = update_match_rows(rows, m.id@, |x: Match| with_score(x, 0, 0, MatchStatus::Bye, w.0));
    let r2 = match (w.0, m.next_match_id) {
        (Some(wid), Some(nid)) => update_match_rows(r1, nid@, |x: Match| with_player(x, m.next_match_slot, wid, w.1)),
        _ => r1,
    };
    match m.loser_next_match_id {
        Some(lid) => update_match_rows(r2, lid@, |x: Match| with_player(x, m.loser_next_match_slot, bye_id, bye_name)),
        None => r2,
    }
}

/// One pass over a snapshot of the matches: every snapshot entry that
/// resolves as a BYE is resolved, in order, and its identifier recorded.
pub open spec fn sweep_pass(rows: Seq<Match>, snap: Seq<Match>, done: Seq<Seq<char>>, bye_id: String, bye_name: String) -> (Seq<Match>, Seq<Seq<char>>)
    decreases snap.len(),
{
    if snap.len() == 0 {
        (rows, done)
    } else {
        let prev = sweep_pass(rows, snap.drop_last(), done, bye_id, bye_name);
        let m = snap.last();
        if resolves_as_bye(m, prev.1) {
            (resolve_bye(prev.0, m, bye_id, bye_name), prev.1.push(m.id@))
        } else {
            prev
        }
    }
}

/// Passes over fresh snapshots of the tournament's matches, as long as a
/// pass resolves something (at most `fuel` passes).
pub open spec fn sweep_from(rounds: Seq<crate::domain::round::Round>, rows: Seq<Match>, tid: Seq<char>, done: Seq<Seq<char>>, bye_id: String, bye_name: String, fuel: nat) -> Seq<Match>
    decreases fuel,
{
    if fuel == 0 {
        rows
    } else {
        let pass = sweep_pass(rows, tournament_matches_in(rounds, rows, tid), done, bye_id, bye_name);
        if pass.1.len() > done.len() {
            sweep_from(rounds, pass.0, tid, pass.1, bye_id, bye_name, (fuel - 1) as nat)
        } else {
            pass.0
        }
    }
}

/// The match rows after every BYE of tournament `tid` has been resolved and
/// propagated, each match at most once.
pub open spec fn swept(rounds: Seq<crate::domain::round::Round>, rows: Seq<Match>, tid: Seq<char>, bye_id: String, bye_name: String) -> Seq<Match> {
    sweep_from(rounds, rows, tid, Seq::empty(), bye_id, bye_name, (rows.len() + 1) as nat)
}

proof fn lemma_update_keeps_ids(rows: Seq<Match>, id: Seq<char>, f: spec_fn(Match) -> Match)
    requires
        forall|x: Match| #[trigger] f(x).id == x.id,
    ensures
        update_match_rows(rows, id, f).len() == rows.len(),
        forall|k: int| 0 <= k < rows.len() ==> #[trigger] update_match_rows(rows, id, f)[k].id == rows[k].id,
{
}

proof fn lemma_resolve_keeps_ids(rows: Seq<Match>, m: Match, bye_id: String, bye_name: String)
    ensures
        resolve_bye(rows, m, bye_id, bye_name).len() == rows.len(),
        forall|k: int| 0 <= k < rows.len() ==> #[trigger] resolve_bye(rows, m, bye_id, bye_name)[k].id == rows[k].id,
{
    let w = bye_winner(m, bye_id, bye_name);
    let f1 = |x: Match| with_score(x, 0, 0, MatchStatus::Bye, w.0);
    lemma_update_keeps_ids(rows, m.id@, f1);
    let r1 = update_match_rows(rows, m.id@, f1);
    let r2 = match (w.0, m.next_match_id) {
        (Some(wid), Some(nid)) => {
            let f2 = |x: Match| with_player(x, m.next_match_slot, wid, w.1);
            lemma_update_keeps_ids(r1, nid@, f2);
            update_match_rows(r1, nid@, f2)
        },
        _ => r1,
    };
    match m.loser_next_match_id {
        Some(lid) => {
            let f3 = |x: Match| with_player(x, m.loser_next_match_slot, bye_id, bye_name);
            lemma_update_keeps_ids(r2, lid@, f3);
        },
        None => {},
    }
}

fn contains_id(done: &Vec<String>, id: &String) -> (r: bool)
    ensures
        r == done@.map_values(|s: String| s@).contains(id@),
{
    let ghost dv = done@.map_values(|s: String| s@);
    let mut i: usize = 0;
    while i < done.len()
        invariant
            dv == done@.map_values(|s: String| s@),
            i <= done@.len(),
            forall|k: int| 0 <= k < i ==> dv[k] != id@,
        decreases done@.len() - i,
    {
        if str_eq(done[i].as_str(), id.as_str()) {
            assert(dv[i as int] == id@);
            return true;
        }
        i = i + 1;
    }
    false
}

/// The identifiers of the match rows, in storage order.
pub open spec fn match_id_texts(rows: Seq<Match>) -> Seq<Seq<char>> {
    rows.map_values(|m: Match| m.id@)
}

/// Distinct identifiers drawn from a list are no more than its length.
proof fn lemma_done_bounded(done: Seq<Seq<char>>, ids: Seq<Seq<char>>)
    requires
        done.no_duplicates(),
        forall|x: Seq<char>| done.contains(x) ==> ids.contains(x),
    ensures
        done.len() <= ids.len(),
{
    done.unique_seq_to_set();
    ids.lemma_cardinality_of_set();
    assert(done.to_set().subset_of(ids.to_set()));
    vstd::set_lib::lemma_len_subset(done.to_set(), ids.to_set());
}

/// Resolves every match of tournament `tid` that pits a player against the
/// BYE placeholder (or the placeholder against itself): the match becomes a
/// Bye won by the real player, the winner advances along the bracket, and
/// the placeholder drops into the loser's next match. Sweeps repeat until a
/// pass resolves nothing; no match is resolved twice.
pub fn sweep_byes(store: &mut TournamentStore, tid: &str)
    requires
        old(store).wf(),
    ensures
        final(store).wf(),
        final(store).same_but_matches(old(store)),
        exists|bye_id: String, bye_name: String| bye_id@ == "BYE_ID"@ && bye_name@ == "BYE"@
            && final(store).match_rows() == swept(old(store).round_rows(), old(store).match_rows(), tid@, bye_id, bye_name),
{
    let bye_id = String::from_str("BYE_ID");
    let bye_name = String::from_str("BYE");
    let ghost rounds = store.round_rows();
    let ghost rows0 = store.match_rows();
    let ghost ids0 = match_id_texts(rows0);
    let ghost n = rows0.len();
    let ghost target = swept(rounds, rows0, tid@, bye_id, bye_name);
    let ghost start = *store;
    let mut done: Vec<String> = Vec::new();
    let mut changes_made = true;
    let ghost mut fuel: nat = (n + 1) as nat;
    assert(texts(done@) =~= Seq::<Seq<char>>::empty());
    while changes_made
        invariant
            store.wf(),
            store.same_but_matches(&start),
            store.round_rows() == rounds,
            ids0 == match_id_texts(rows0),
            n == rows0.len(),
            match_id_texts(store.match_rows()) == ids0,
            bye_id@ == "BYE_ID"@,
            bye_name@ == "BYE"@,
            target == swept(rounds, rows0, tid@, bye_id, bye_name),
            texts(done@).no_duplicates(),
            forall|x: Seq<char>| texts(done@).contains(x) ==> ids0.contains(x),
            changes_made ==> fuel + done@.len() >= n + 1,
            changes_made ==> target == sweep_from(rounds, store.match_rows(), tid@, texts(done@), bye_id, bye_name, fuel),
            !changes_made ==> target == store.match_rows(),
        decreases fuel,
    {
        proof {
            lemma_done_bounded(texts(done@), ids0);
        }
        changes_made = false;
        let ghost rows_start = store.match_rows();
        let ghost done_start = texts(done@);
        let current = match store.get_matches_by_tournament(tid) {
            Ok(v) => v,
            Err(_) => Vec::new(),
        };
        let ghost snap = current@;
        let ghost q = sorted_selection(match_keys(rounds, rows_start), match_keep(rounds, rows_start, tid@));
        assert(sweep_pass(rows_start, snap.take(0), done_start, bye_id, bye_name) == (rows_start, done_start)) by {
            assert(snap.take(0) =~= Seq::<Match>::empty());
        }
        let mut k: usize = 0;
        while k < current.len()
            invariant
                store.wf(),
                store.same_but_matches(&start),
                store.round_rows() == rounds,
                snap == current@,
                snap == tournament_matches_in(rounds, rows_start, tid@),
                is_sorted_selection(match_keys(rounds, rows_start), match_keep(rounds, rows_start, tid@), q),
                q == sorted_selection(match_keys(rounds, rows_start), match_keep(rounds, rows_start, tid@)),
                match_id_texts(rows_start) == ids0,
                k <= snap.len(),
                bye_id@ == "BYE_ID"@,
                bye_name@ == "BYE"@,
                (store.match_rows(), texts(done@)) == sweep_pass(rows_start, snap.take(k as int), done_start, bye_id, bye_name),
                changes_made == (done@.len() > done_start.len()),
                done_start.len() <= done@.len(),
                match_id_texts(store.match_rows()) == ids0,
                texts(done@).no_duplicates(),
                forall|x: Seq<char>| texts(done@).contains(x) ==> ids0.contains(x),
            decreases snap.len() - k,
        {
            let ghost rows_k = store.match_rows();
            let ghost done_k = texts(done@);
            proof {
                assert(snap.take(k + 1).drop_last() =~= snap.take(k as int));
                assert(snap.take(k + 1).last() == snap[k as int]);
                assert(0 <= q[k as int] < rows_start.len());
                assert(snap[k as int] == rows_start[q[k as int]]);
                assert(ids0[q[k as int]] == snap[k as int].id@);
            }
            let m = &current[k];
            let has_p1 = m.player1_id.is_some() && !m.player1_name.as_str().is_empty();
            let has_p2 = m.player2_id.is_some() && !m.player2_name.as_str().is_empty();
            let p1_bye = str_eq(m.player1_name.as_str(), "BYE") || match &m.player1_id {
                Some(s) => str_eq(s.as_str(), "BYE_ID"),
                None => false,
            };
            let p2_bye = str_eq(m.player2_name.as_str(), "BYE") || match &m.player2_id {
                Some(s) => str_eq(s.as_str(), "BYE_ID"),
                None => false,
            };
            let open = m.status == MatchStatus::Pending || m.status == MatchStatus::Bye || m.status == MatchStatus::InProgress;
            if open && has_p1 && has_p2 && (p1_bye || p2_bye) && !contains_id(&done, &m.id) {
                let winner: (Option<String>, String) = if p1_bye && p2_bye {
                    (Some(bye_id.clone()), bye_name.clone())
                } else if p1_bye {
                    (copy_opt_string(&m.player2_id), copy_string(&m.player2_name))
                } else {
                    (copy_opt_string(&m.player1_id), copy_string(&m.player1_name))
                };
                assert(winner == bye_winner(*m, bye_id, bye_name));
                let ghost w = winner;
                let ghost mv: Match = *m;
                let _ = store.put_match_score(m.id.as_str(), 0, 0, MatchStatus::Bye, &winner.0);
                let ghost r1 = store.match_rows();
                assert(r1 =~= update_match_rows(rows_k, m.id@, |x: Match| with_score(x, 0, 0, MatchStatus::Bye, w.0)));
                match (&winner.0, &m.next_match_id) {
                    (Some(wid), Some(nid)) => {
                        let _ = store.put_match_player(nid.as_str(), m.next_match_slot, wid, &winner.1);
                    },
                    _ => {},
                }
                let ghost r2 = store.match_rows();
                proof {
                    match (w.0, mv.next_match_id) {
                        (Some(wid), Some(nid)) => {
                            assert(r2 =~= update_match_rows(r1, nid@, |x: Match| with_player(x, mv.next_match_slot, wid, w.1)));
                        },
                        _ => {
                            assert(r2 == r1);
                        },
                    }
                }
                match &m.loser_next_match_id {
                    Some(lid) => {
                        let _ = store.put_match_player(lid.as_str(), m.loser_next_match_slot, &bye_id, &bye_name);
                    },
                    None => {},
                }
                proof {
                    match mv.loser_next_match_id {
                        Some(lid) => {
                            assert(store.match_rows() =~= update_match_rows(r2, lid@, |x: Match| with_player(x, mv.loser_next_match_slot, bye_id, bye_name)));
                        },
                        None => {},
                    }
                    assert(store.match_rows() == resolve_bye(rows_k, mv, bye_id, bye_name));
                    lemma_resolve_keeps_ids(rows_k, mv, bye_id, bye_name);
                    assert(match_id_texts(store.match_rows()) =~= match_id_texts(rows_k));
                }
                done.push(m.id.clone());
                changes_made = true;
                proof {
                    assert(texts(done@) =~= done_k.push(mv.id@));
                    assert forall|x: Seq<char>| texts(done@).contains(x) implies ids0.contains(x) by {
                        if x != mv.id@ {
                            let i = choose|i: int| 0 <= i < texts(done@).len() && texts(done@)[i] == x;
                            assert(done_k[i] == x);
                        }
                    }
                    assert(resolves_as_bye(mv, done_k));
                }
            } else {
                proof {
                    assert(!resolves_as_bye(*m, done_k));
                }
            }
            k = k + 1;
        }
        proof {
            assert(snap.take(snap.len() as int) =~= snap);
            fuel = (fuel - 1) as nat;
        }
    }
}

// ─── Results ────────────────────────────────────────────────────────────

/// Every match is completed or a BYE.
pub open spec fn all_settled(ms: Seq<Match>) -> bool {
    forall|i: int| 0 <= i < ms.len() ==> #[trigger] ms[i].status == MatchStatus::Completed || ms[i].status == MatchStatus::Bye
}

/// `r` is what asking for the champion of tournament `tid` in `store`
/// answers: nothing while a match is unsettled; otherwise the tournament
/// must exist, and the champion is the round-robin leader or the winner of
/// the final match.
pub open spec fn champion_ok(store: TournamentStore, tid: Seq<char>, r: Result<Option<String>, String>) -> bool {
    let ms = tournament_matches_in(store.round_rows(), store.match_rows(), tid);
    let ps = tournament_participants_in(store.participant_rows(), tid);
    let t = tournament_with_id(store.tournament_rows(), tid);
    &&& !all_settled(ms) ==> r == Ok::<Option<String>, String>(None)
    &&& all_settled(ms) && t is None ==> is_err_with(r, "Tournament not found"@)
    &&& all_settled(ms) && t is Some && t->Some_0.tournament_type == TournamentType::RoundRobin
        ==> r == Ok::<Option<String>, String>(match rr_leader(ps, ms) {
            Some(k) => Some(ps[k].name),
            None => None,
        })
    &&& all_settled(ms) && t is Some && t->Some_0.tournament_type != TournamentType::RoundRobin
        ==> r == Ok::<Option<String>, String>(elimination_champion(ms))
}

/// `p` won at least as many matches as `q`, and when they won as many, its
/// game difference (games won minus games lost) is at least as large.
pub open spec fn at_least_as_good(ms: Seq<Match>, p: Participant, q: Participant) -> bool {
    &&& record(ms, p.id@).0 >= record(ms, q.id@).0
    &&& record(ms, p.id@).0 == record(ms, q.id@).0 ==> record(ms, p.id@).3 - record(ms, p.id@).4 >= record(ms, q.id@).3 - record(ms, q.id@).4
}

/// Entrant `k` of `ps` is at least as good as every entrant.
pub open spec fn leads_round_robin(ps: Seq<Participant>, ms: Seq<Match>, k: int) -> bool {
    &&& 0 <= k < ps.len()
    &&& forall|j: int| 0 <= j < ps.len() ==> #[trigger] at_least_as_good(ms, ps[k], ps[j])
}

proof fn lemma_rr_leader_leads(ps: Seq<Participant>, ms: Seq<Match>)
    ensures
        ps.len() > 0 ==> (rr_leader(ps, ms) matches Some(k) && leads_round_robin(ps, ms, k)),
        ps.len() == 0 ==> rr_leader(ps, ms) is None,
    decreases ps.len(),
{
    if ps.len() > 0 {
        let n = ps.len() - 1;
        let prev = ps.drop_last();
        lemma_rr_leader_leads(prev, ms);
        match rr_leader(prev, ms) {
            None => {
                assert forall|j: int| 0 <= j < ps.len() implies #[trigger] at_least_as_good(ms, ps[n], ps[j]) by {
                    assert(j == n);
                }
            },
            Some(b) => {
                let k = rr_leader(ps, ms)->Some_0;
                assert(prev[b] == ps[b]);
                assert forall|j: int| 0 <= j < ps.len() implies #[trigger] at_least_as_good(ms, ps[k], ps[j]) by {
                    if j < n {
                        assert(prev[j] == ps[j]);
                        assert(at_least_as_good(ms, prev[b], prev[j]));
                    }
                }
            },
        }
    }
}

/// The round-robin champion has as many wins as anyone, and among the
/// entrants with that many wins as large a game difference; there is one
/// as soon as there is an entrant.
pub proof fn lemma_rr_champion_leads(store: TournamentStore, tid: Seq<char>, r: Result<Option<String>, String>)
    requires
        champion_ok(store, tid, r),
        all_settled(tournament_matches_in(store.round_rows(), store.match_rows(), tid)),
        tournament_with_id(store.tournament_rows(), tid) matches Some(t) && t.tournament_type == TournamentType::RoundRobin,
    ensures
        ({
            let ps = tournament_participants_in(store.participant_rows(), tid);
            let ms = tournament_matches_in(store.round_rows(), store.match_rows(), tid);
            &&& ps.len() > 0 ==> exists|k: int| #[trigger] leads_round_robin(ps, ms, k) && r == Ok::<Option<String>, String>(Some(ps[k].name))
            &&& ps.len() == 0 ==> r == Ok::<Option<String>, String>(None)
        }),
{
    let ps = tournament_participants_in(store.participant_rows(), tid);
    let ms = tournament_matches_in(store.round_rows(), store.match_rows(), tid);
    lemma_rr_leader_leads(ps, ms);
    if ps.len() > 0 {
        let k = rr_leader(ps, ms)->Some_0;
        assert(leads_round_robin(ps, ms, k));
    }
}

/// Some match is still pending or in progress.
pub open spec fn has_open_match(ms: Seq<Match>) -> bool {
    exists|i: int| 0 <= i < ms.len() && (#[trigger] ms[i].status == MatchStatus::Pending || ms[i].status == MatchStatus::InProgress)
}

/// A champion is named only for a complete tournament: when asking for the
/// champion names one, asking whether the tournament is complete answers
/// yes; and while some match of the tournament is pending or in progress,
/// no champion is named.
pub proof fn lemma_champion_only_when_complete(
    store: TournamentStore,
    tid: Seq<char>,
    champion: Result<Option<String>, String>,
    complete: Result<bool, String>,
)
    requires
        champion_ok(store, tid, champion),
        complete == Ok::<bool, String>(all_settled(tournament_matches_in(store.round_rows(), store.match_rows(), tid))),
    ensures
        champion matches Ok(Some(_)) ==> complete == Ok::<bool, String>(true),
        has_open_match(tournament_matches_in(store.round_rows(), store.match_rows(), tid)) ==> champion == Ok::<Option<String>, String>(None),
{
    let ms = tournament_matches_in(store.round_rows(), store.match_rows(), tid);
    if has_open_match(ms) {
        let i = choose|i: int| 0 <= i < ms.len() && (#[trigger] ms[i].status == MatchStatus::Pending || ms[i].status == MatchStatus::InProgress);
        assert(!(ms[i].status == MatchStatus::Completed || ms[i].status == MatchStatus::Bye));
    }
}

/// Participant `p` did better than `q`: more wins, or as many and a better
/// game difference.
pub open spec fn rr_better(ms: Seq<Match>, p: Participant, q: Participant) -> bool {
    let a = record(ms, p.id@);
    let b = record(ms, q.id@);
    a.0 > b.0 || (a.0 == b.0 && a.3 - a.4 > b.3 - b.4)
}

/// The position of the round-robin leader among `ps`: the first entrant
/// nobody did better than.
pub open spec fn rr_leader(ps: Seq<Participant>, ms: Seq<Match>) -> Option<int>
    decreases ps.len(),
{
    if ps.len() == 0 {
        None
    } else {
        let k = ps.len() - 1;
        match rr_leader(ps.drop_last(), ms) {
            None => Some(k),
            Some(b) => if rr_better(ms, ps[k], ps[b]) { Some(k) } else { Some(b) },
        }
    }
}

/// A match that leads nowhere and is no third-place match.
pub open spec fn is_final_match(m: Match) -> bool {
    m.next_match_id is None && m.bracket_type != BracketType::ThirdPlace
}

/// The position of the first final match.
pub open spec fn first_final(ms: Seq<Match>) -> Option<int> {
    if exists|i: int| 0 <= i < ms.len() && #[trigger] is_final_match(ms[i]) {
        Some(choose|i: int| 0 <= i < ms.len() && #[trigger] is_final_match(ms[i]) && forall|j: int| 0 <= j < i ==> !is_final_match(ms[j]))
    } else {
        None
    }
}

/// The elimination champion: the name in the winner's slot of the first
/// final match, once it is completed with a winner.
pub open spec fn elimination_champion(ms: Seq<Match>) -> Option<String> {
    match first_final(ms) {
        Some(i) => {
            let fm = ms[i];
            if fm.status == MatchStatus::Completed && fm.winner_id is Some {
                if is_id(fm.player1_id, fm.winner_id->Some_0@) {
                    Some(fm.player1_name)
                } else {
                    Some(fm.player2_name)
                }
            } else {
                None
            }
        },
        None => None,
    }
}

/// The number of matches with status `st`.
pub open spec fn count_status(ms: Seq<Match>, st: MatchStatus) -> nat
    decreases ms.len(),
{
    if ms.len() == 0 {
        0
    } else {
        count_status(ms.drop_last(), st) + if ms.last().status == st { 1nat } else { 0nat }
    }
}

fn count_with_status(ms: &Vec<Match>, st: MatchStatus) -> (c: usize)
    ensures
        c == count_status(ms@, st),
{
    let mut c: usize = 0;
    let mut k: usize = 0;
    while k < ms.len()
        invariant
            k <= ms@.len(),
            c == count_status(ms@.take(k as int), st),
            c <= k,
        decreases ms@.len() - k,
    {
        proof {
            assert(ms@.take(k + 1).drop_last() =~= ms@.take(k as int));
        }
        if ms[k].status == st {
            c = c + 1;
        }
        k = k + 1;
    }
    proof {
        assert(ms@.take(ms@.len() as int) =~= ms@);
    }
    c
}

/// Why a score `s1`:`s2` for match `mid` is refused, if it is.
pub open spec fn score_refusal(ms: Seq<Match>, ts: Seq<Tournament>, mid: Seq<char>, s1: i32, s2: i32) -> Option<Seq<char>> {
    if s1 < 0 || s2 < 0 {
        Some("Scores cannot be negative."@)
    } else {
        match match_with_id(ms, mid) {
            None => Some("Match not found."@),
            Some(m) => if m.status == MatchStatus::Completed {
                Some("This match is already completed and locked."@)
            } else if m.status == MatchStatus::Bye {
                Some("Cannot submit score for a BYE match."@)
            } else if m.player1_id is None || m.player2_id is None {
                Some("Both players must be assigned before submitting a score."@)
            } else {
                match tournament_with_id(ts, m.tournament_id@) {
                    None => Some("Tournament not found."@),
                    Some(t) => if s1 == s2 && t.tournament_type != TournamentType::RoundRobin {
                        Some("Ties are not allowed in elimination brackets. Please enter a decisive score."@)
                    } else {
                        None
                    },
                }
            },
        }
    }
}

/// The match rows once match `m` (identifier `mid`) is scored `s1`:`s2`:
/// completed with its winner (none on a tie); after a decisive score the
/// winner takes its slot in the next match and the loser drops into the
/// loser's match.
pub open spec fn scored(ms: Seq<Match>, mid: Seq<char>, m: Match, s1: i32, s2: i32) -> Seq<Match> {
    let winner: Option<String> = if s1 > s2 { m.player1_id } else if s2 > s1 { m.player2_id } else { None };
    let r1 = update_match_rows(ms, mid, |x: Match| with_score(x, s1, s2, MatchStatus::Completed, winner));
    if s1 == s2 {
        r1
    } else {
        let wid = if s1 > s2 { m.player1_id->Some_0 } else { m.player2_id->Some_0 };
        let wname = if s1 > s2 { m.player1_name } else { m.player2_name };
        let lid = if s1 > s2 { m.player2_id->Some_0 } else { m.player1_id->Some_0 };
        let lname = if s1 > s2 { m.player2_name } else { m.player1_name };
        let r2 = match m.next_match_id {
            Some(n) => update_match_rows(r1, n@, |x: Match| with_player(x, m.next_match_slot, wid, wname)),
            None => r1,
        };
        match m.loser_next_match_id {
            Some(l) => update_match_rows(r2, l@, |x: Match| with_player(x, m.loser_next_match_slot, lid, lname)),
            None => r2,
        }
    }
}

/// Match counts by status, and the ranked standings.
#[derive(Debug)]
pub struct TournamentStats {
    pub total_matches: usize,
    pub completed_matches: usize,
    pub pending_matches: usize,
    pub in_progress_matches: usize,
    pub bye_matches: usize,
    pub standings: Vec<ParticipantStanding>,
}

/// `st` holds the match counts by status of `ms` and the standings of the
/// entrants `ps`, ranked.
pub open spec fn stats_ok(st: TournamentStats, ms: Seq<Match>, ps: Seq<Participant>, rs: Seq<crate::domain::round::Round>, tt: TournamentType) -> bool {
    &&& st.total_matches == ms.len()
    &&& st.completed_matches == count_status(ms, MatchStatus::Completed)
    &&& st.pending_matches == count_status(ms, MatchStatus::Pending)
    &&& st.in_progress_matches == count_status(ms, MatchStatus::InProgress)
    &&& st.bye_matches == count_status(ms, MatchStatus::Bye)
    &&& exists|order: Seq<int>| standings_ranked(st.standings@, ps, ms, rs, tt, order)
}

/// The numbers of tournament `tid` fit the statistics' fields: fewer than
/// 2^31 matches, round numbers whose bracket scores fit an `i32`, and every
/// participant's game totals within an `i32`.
pub open spec fn stats_limits_hold(store: TournamentStore, tid: Seq<char>) -> bool {
    let ms = tournament_matches_in(store.round_rows(), store.match_rows(), tid);
    let ps = tournament_participants_in(store.participant_rows(), tid);
    let rs = tournament_rounds_in(store.round_rows(), tid);
    let t = tournament_with_id(store.tournament_rows(), tid);
    t is Some ==> {
        &&& ms.len() <= 0x7fff_ffff
        &&& round_numbers_bounded(rs)
        &&& forall|i: int| 0 <= i < ps.len() ==> standing_fits(ms, rs, #[trigger] ps[i].id@, t->Some_0.tournament_type)
    }
}

/// Whether the statistics of tournament `tid` can be computed: exactly when
/// its numbers fit the statistics' fields.
pub fn stats_within_limits(store: &TournamentStore, tid: &str) -> (b: bool)
    requires
        store.wf(),
    ensures
        b == stats_limits_hold(*store, tid@),
{
    let t = match store.get_tournament(tid) {
        Ok(Some(t)) => t,
        _ => {
            return true;
        },
    };
    let ms = match store.get_matches_by_tournament(tid) {
        Ok(v) => v,
        Err(_) => {
            return false;
        },
    };
    if ms.len() > 0x7fff_ffff {
        return false;
    }
    let rs = match store.get_rounds_by_tournament(tid) {
        Ok(v) => v,
        Err(_) => {
            return false;
        },
    };
    let mut k: usize = 0;
    while k < rs.len()
        invariant
            tournament_with_id(store.tournament_rows(), tid@) == Some(t),
            ms@ == tournament_matches_in(store.round_rows(), store.match_rows(), tid@),
            rs@ == tournament_rounds_in(store.round_rows(), tid@),
            ms@.len() <= 0x7fff_ffff,
            k <= rs@.len(),
            forall|j: int| 0 <= j < k ==> -2_147_483 <= #[trigger] rs@[j].round_number <= 2_147_433,
        decreases rs@.len() - k,
    {
        if rs[k].round_number < -2_147_483 || rs[k].round_number > 2_147_433 {
            assert(!round_numbers_bounded(rs@)) by {
                assert(!(-2_147_483 <= rs@[k as int].round_number <= 2_147_433));
            }
            return false;
        }
        k = k + 1;
    }
    let ps = match store.get_participants_by_tournament(tid) {
        Ok(v) => v,
        Err(_) => {
            return false;
        },
    };
    let mut i: usize = 0;
    while i < ps.len()
        invariant
            tournament_with_id(store.tournament_rows(), tid@) == Some(t),
            ms@ == tournament_matches_in(store.round_rows(), store.match_rows(), tid@),
            rs@ == tournament_rounds_in(store.round_rows(), tid@),
            ps@ == tournament_participants_in(store.participant_rows(), tid@),
            round_numbers_bounded(rs@),
            i <= ps@.len(),
            ms@.len() <= 0x7fff_ffff,
            forall|j: int| 0 <= j < i ==> standing_fits(ms@, rs@, #[trigger] ps@[j].id@, t.tournament_type),
        decreases ps@.len() - i,
    {
        let rec = compute_record(&ms, &ps[i].id);
        if rec.3 > 0x7fff_ffff || rec.3 < -0x8000_0000 || rec.4 > 0x7fff_ffff || rec.4 < -0x8000_0000 {
            assert(!standing_fits(ms@, rs@, ps@[i as int].id@, t.tournament_type));
            return false;
        }
        i = i + 1;
    }
    true
}

/// `a` may stand before `b` in ranked standings: a bracket score at least
/// as high; when level, at least as many games won; when level again, a
/// game difference at least as large; when level again, at least as many
/// matches won.
pub open spec fn stands_not_below(a: ParticipantStanding, b: ParticipantStanding) -> bool {
    &&& a.bracket_score >= b.bracket_score
    &&& a.bracket_score == b.bracket_score ==> a.games_won >= b.games_won
    &&& a.bracket_score == b.bracket_score && a.games_won == b.games_won
        ==> a.games_won - a.games_lost >= b.games_won - b.games_lost
    &&& a.bracket_score == b.bracket_score && a.games_won == b.games_won && a.games_lost == b.games_lost
        ==> a.matches_won >= b.matches_won
}

/// Ranked standings descend: nobody stands after an entrant with a lower
/// bracket score, and among equal bracket scores the order follows games
/// won, then game difference, then matches won.
pub proof fn lemma_standings_descend(st: TournamentStats, ms: Seq<Match>, ps: Seq<Participant>, rs: Seq<crate::domain::round::Round>, tt: TournamentType)
    requires
        stats_ok(st, ms, ps, rs, tt),
    ensures
        forall|i: int, j: int| 0 <= i < j < st.standings@.len()
            ==> #[trigger] stands_not_below(st.standings@[i], st.standings@[j]),
{
    let order = choose|order: Seq<int>| standings_ranked(st.standings@, ps, ms, rs, tt, order);
    assert forall|i: int, j: int| 0 <= i < j < st.standings@.len()
        implies #[trigger] stands_not_below(st.standings@[i], st.standings@[j]) by {
        assert(!crate::services::standings::ranks_above(st.standings@[j], st.standings@[i]));
    }
}

/// Scores matches, settles brackets and reports results.
pub struct MatchService {}

impl MatchService {
    pub fn new() -> (s: Self) {
        MatchService {}
    }

    /// Records the score of match `match_id`: refuses negative scores,
    /// unknown, locked or BYE matches, matches missing a player, and ties
    /// outside round robin; otherwise completes the match, advances the
    /// winner, drops the loser, and resolves the BYEs this uncovers.
    pub fn submit_score(&self, store: &mut TournamentStore, match_id: &str, score1: i32, score2: i32) -> (r: Result<(), String>)
        requires
            old(store).wf(),
        ensures
            final(store).wf(),
            score_refusal(old(store).match_rows(), old(store).tournament_rows(), match_id@, score1, score2) matches Some(msg)
                ==> is_err_with(r, msg) && final(store).same_rows(old(store)),
            score_refusal(old(store).match_rows(), old(store).tournament_rows(), match_id@, score1, score2) is None ==> {
                let m = match_with_id(old(store).match_rows(), match_id@)->Some_0;
                &&& r is Ok
                &&& final(store).same_but_matches(old(store))
                &&& exists|bye_id: String, bye_name: String| bye_id@ == "BYE_ID"@ && bye_name@ == "BYE"@
                    && final(store).match_rows() == swept(old(store).round_rows(),
                        scored(old(store).match_rows(), match_id@, m, score1, score2), m.tournament_id@, bye_id, bye_name)
            },
    {
        let ghost pre = *store;
        if score1 < 0 || score2 < 0 {
            return Err(String::from_str("Scores cannot be negative."));
        }
        let found = match store.get_match_by_id(match_id) {
            Ok(v) => v,
            Err(e) => {
                return Err(prefixed("Database error: ", e));
            },
        };
        let m = match found {
            Some(m) => m,
            None => {
                return Err(String::from_str("Match not found."));
            },
        };
        if m.status == MatchStatus::Completed {
            return Err(String::from_str("This match is already completed and locked."));
        }
        if m.status == MatchStatus::Bye {
            return Err(String::from_str("Cannot submit score for a BYE match."));
        }
        if m.player1_id.is_none() || m.player2_id.is_none() {
            return Err(String::from_str("Both players must be assigned before submitting a score."));
        }
        let is_tie = score1 == score2;
        let tournament = match store.get_tournament(m.tournament_id.as_str()) {
            Ok(Some(t)) => t,
            Ok(None) => {
                return Err(String::from_str("Tournament not found."));
            },
            Err(e) => {
                return Err(prefixed("Database error: ", e));
            },
        };
        let is_round_robin = tournament.tournament_type == TournamentType::RoundRobin;
        if is_tie && !is_round_robin {
            return Err(String::from_str("Ties are not allowed in elimination brackets. Please enter a decisive score."));
        }
        let p1 = copy_opt_string(&m.player1_id);
        let p2 = copy_opt_string(&m.player2_id);
        let winner_id: Option<String> = if score1 > score2 {
            copy_opt_string(&m.player1_id)
        } else if score2 > score1 {
            copy_opt_string(&m.player2_id)
        } else {
            None
        };
        let ghost r0 = store.match_rows();
        match store.put_match_score(match_id, score1, score2, MatchStatus::Completed, &winner_id) {
            Ok(()) => {},
            Err(e) => {
                return Err(prefixed("Failed to update score: ", e));
            },
        }
        if !is_tie {
            let (wid, wname, lid, lname) = match (p1, p2) {
                (Some(a), Some(b)) => if score1 > score2 {
                    (a, copy_string(&m.player1_name), b, copy_string(&m.player2_name))
                } else {
                    (b, copy_string(&m.player2_name), a, copy_string(&m.player1_name))
                },
                _ => {
                    return Err(String::from_str("Both players must be assigned before submitting a score."));
                },
            };
            match &m.next_match_id {
                Some(next_id) => {
                    match store.put_match_player(next_id.as_str(), m.next_match_slot, &wid, &wname) {
                        Ok(()) => {},
                        Err(e) => {
                            return Err(prefixed("Failed to advance winner: ", e));
                        },
                    }
                },
                None => {},
            }
            match &m.loser_next_match_id {
                Some(loser_id) => {
                    match store.put_match_player(loser_id.as_str(), m.loser_next_match_slot, &lid, &lname) {
                        Ok(()) => {},
                        Err(e) => {
                            return Err(prefixed("Failed to drop loser: ", e));
                        },
                    }
                },
                None => {},
            }
        }
        proof {
            assert(store.match_rows() =~= scored(pre.match_rows(), match_id@, m, score1, score2));
        }
        sweep_byes(store, m.tournament_id.as_str());
        Ok(())
    }

    /// Whether every match of tournament `tournament_id` is completed or a
    /// BYE.
    pub fn is_tournament_complete(&self, store: &TournamentStore, tournament_id: &str) -> (r: Result<bool, String>)
        requires
            store.wf(),
        ensures
            r == Ok::<bool, String>(all_settled(tournament_matches_in(store.round_rows(), store.match_rows(), tournament_id@))),
    {
        let matches = match store.get_matches_by_tournament(tournament_id) {
            Ok(v) => v,
            Err(e) => {
                return Err(prefixed("Database error: ", e));
            },
        };
        all_matches_settled(&matches)
    }

    /// The champion of tournament `tournament_id`, once every match is
    /// completed or a BYE: in a round robin the first entrant with the most
    /// wins, ties broken by game difference; otherwise the winner of the
    /// final match.
    pub fn get_champion(&self, store: &TournamentStore, tournament_id: &str) -> (r: Result<Option<String>, String>)
        requires
            store.wf(),
        ensures
            champion_ok(*store, tournament_id@, r),
    {
        let matches = match store.get_matches_by_tournament(tournament_id) {
            Ok(v) => v,
            Err(e) => {
                return Err(prefixed("Database error: ", e));
            },
        };
        match all_matches_settled(&matches) {
            Ok(true) => {},
            _ => {
                return Ok(None);
            },
        }
        let tournament = match store.get_tournament(tournament_id) {
            Ok(Some(t)) => t,
            Ok(None) => {
                return Err(String::from_str("Tournament not found"));
            },
            Err(e) => {
                return Err(prefixed("Database error: ", e));
            },
        };
        if tournament.tournament_type == TournamentType::RoundRobin {
            let participants = match store.get_participants_by_tournament(tournament_id) {
                Ok(v) => v,
                Err(e) => {
                    return Err(prefixed("Database error: ", e));
                },
            };
            return Ok(rr_champion(&participants, &matches));
        }
        Ok(final_winner(&matches))
    }

    /// Match counts by status and the ranked standings of tournament
    /// `tournament_id`.
    pub fn get_tournament_stats(&self, store: &TournamentStore, tournament_id: &str) -> (r: Result<TournamentStats, String>)
        requires
            store.wf(),
            stats_limits_hold(*store, tournament_id@),
        ensures
            ({
                let ms = tournament_matches_in(store.round_rows(), store.match_rows(), tournament_id@);
                let ps = tournament_participants_in(store.participant_rows(), tournament_id@);
                let rs = tournament_rounds_in(store.round_rows(), tournament_id@);
                let t = tournament_with_id(store.tournament_rows(), tournament_id@);
                &&& t is None ==> is_err_with(r, "Tournament not found"@)
                &&& t is Some ==> (r matches Ok(st) && stats_ok(st, ms, ps, rs, t->Some_0.tournament_type))
            }),
    {
        let matches = match store.get_matches_by_tournament(tournament_id) {
            Ok(v) => v,
            Err(e) => {
                return Err(prefixed("Database error: ", e));
            },
        };
        let participants = match store.get_participants_by_tournament(tournament_id) {
            Ok(v) => v,
            Err(e) => {
                return Err(prefixed("Database error: ", e));
            },
        };
        let tournament = match store.get_tournament(tournament_id) {
            Ok(Some(t)) => t,
            Ok(None) => {
                return Err(String::from_str("Tournament not found"));
            },
            Err(e) => {
                return Err(prefixed("Database error: ", e));
            },
        };
        let rounds = match store.get_rounds_by_tournament(tournament_id) {
            Ok(v) => v,
            Err(e) => {
                return Err(prefixed("Database error: ", e));
            },
        };
        let total_matches = matches.len();
        let completed_matches = count_with_status(&matches, MatchStatus::Completed);
        let pending_matches = count_with_status(&matches, MatchStatus::Pending);
        let in_progress_matches = count_with_status(&matches, MatchStatus::InProgress);
        let bye_matches = count_with_status(&matches, MatchStatus::Bye);
        let standings = ranked_standings(&participants, &matches, &rounds, tournament.tournament_type);
        let ghost order = choose|order: Seq<int>| standings_ranked(standings@, participants@, matches@, rounds@, tournament.tournament_type, order);
        let stats = TournamentStats { total_matches, completed_matches, pending_matches, in_progress_matches, bye_matches, standings };
        proof {
            assert(standings_ranked(stats.standings@, participants@, matches@, rounds@, tournament.tournament_type, order));
            assert(tournament_with_id(store.tournament_rows(), tournament_id@) == Some(tournament));
            assert(stats_ok(stats, matches@, participants@, rounds@, tournament.tournament_type));
        }
        Ok(stats)
    }
}

fn all_matches_settled(ms: &Vec<Match>) -> (r: Result<bool, String>)
    ensures
        r == Ok::<bool, String>(all_settled(ms@)),
{
    let mut k: usize = 0;
    while k < ms.len()
        invariant
            k <= ms@.len(),
            forall|i: int| 0 <= i < k ==> #[trigger] ms@[i].status == MatchStatus::Completed || ms@[i].status == MatchStatus::Bye,
        decreases ms@.len() - k,
    {
        if !(ms[k].status == MatchStatus::Completed || ms[k].status == MatchStatus::Bye) {
            return Ok(false);
        }
        k = k + 1;
    }
    Ok(true)
}

/// The name of the round-robin leader among `ps`.
fn rr_champion(ps: &Vec<Participant>, ms: &Vec<Match>) -> (r: Option<String>)
    ensures
        r == match rr_leader(ps@, ms@) {
            Some(k) => Some(ps@[k].name),
            None => None,
        },
{
    let mut best: Option<usize> = None;
    let mut best_wins: i128 = -1;
    let mut best_diff: i128 = 0;
    let n = ms.len();
    let mut k: usize = 0;
    while k < ps.len()
        invariant
            k <= ps@.len(),
            n == ms@.len(),
            match best {
                Some(b) => rr_leader(ps@.take(k as int), ms@) == Some(b as int) && b < k
                    && best_wins == record(ms@, ps@[b as int].id@).0
                    && best_diff == record(ms@, ps@[b as int].id@).3 - record(ms@, ps@[b as int].id@).4,
                None => k == 0 && rr_leader(ps@.take(k as int), ms@) is None,
            },
        decreases ps@.len() - k,
    {
        proof {
            assert(ps@.take(k + 1).drop_last() =~= ps@.take(k as int));
            assert(ps@.take(k + 1)[k as int] == ps@[k as int]);
            crate::services::standings::lemma_record_bounds(ms@, ps@[k as int].id@);
            assert(0x7fff_ffff * ms@.len() <= 0x8000_0000_0000_0000_0000_0000) by (nonlinear_arith)
                requires
                    ms@.len() <= 0xffff_ffff_ffff_ffff,
            ;
            assert(-0x8000_0000 * ms@.len() >= -0x8000_0000_0000_0000_0000_0000) by (nonlinear_arith)
                requires
                    ms@.len() <= 0xffff_ffff_ffff_ffff,
            ;
        }
        let rec = compute_record(ms, &ps[k].id);
        let wins = rec.0;
        let diff = rec.3 - rec.4;
        let take = match best {
            None => true,
            Some(_) => wins > best_wins || (wins == best_wins && diff > best_diff),
        };
        if take {
            best = Some(k);
            best_wins = wins;
            best_diff = diff;
        }
        k = k + 1;
    }
    proof {
        assert(ps@.take(ps@.len() as int) =~= ps@);
    }
    match best {
        Some(b) => Some(copy_string(&ps[b].name)),
        None => None,
    }
}

/// The champion from the first final match.
fn final_winner(ms: &Vec<Match>) -> (r: Option<String>)
    ensures
        r == elimination_champion(ms@),
{
    let mut k: usize = 0;
    while k < ms.len()
        invariant
            k <= ms@.len(),
            forall|j: int| 0 <= j < k ==> !is_final_match(#[trigger] ms@[j]),
        decreases ms@.len() - k,
    {
        if ms[k].next_match_id.is_none() && ms[k].bracket_type != BracketType::ThirdPlace {
            proof {
                assert(is_final_match(ms@[k as int]));
                let c = choose|i: int| 0 <= i < ms@.len() && #[trigger] is_final_match(ms@[i]) && forall|j: int| 0 <= j < i ==> !is_final_match(ms@[j]);
                if c < k {
                } else if c > k {
                    assert(!is_final_match(ms@[k as int]));
                }
                assert(first_final(ms@) == Some(k as int));
            }
            let fm = &ms[k];
            if fm.status == MatchStatus::Completed {
                match &fm.winner_id {
                    Some(w) => {
                        if holds_id(&fm.player1_id, w) {
                            return Some(copy_string(&fm.player1_name));
                        } else {
                            return Some(copy_string(&fm.player2_name));
                        }
                    },
                    None => {
                        return None;
                    },
                }
            }
            return None;
        }
        k = k + 1;
    }
    None
}

} // verus!
