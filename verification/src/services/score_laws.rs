use vstd::prelude::*;
use crate::domain::match_model::{Match, MatchStatus};
use crate::domain::round::Round;
use crate::domain::tournament::Tournament;
use crate::services::match_service::{
    resolve_bye, resolves_as_bye, score_refusal, scored, slot1_bye, slot2_bye, sweep_from, sweep_pass, swept,
};
use crate::actions::rows_after_score;
use crate::sorting::lemma_sorted_selection_exists;
use crate::store::{match_keep, match_keys, match_with_id, has_match, tournament_matches_in, update_match_rows, with_player, with_score};

verus! {

/// No slot of any match holds the BYE placeholder.
pub open spec fn no_bye_slots(ms: Seq<Match>) -> bool {
    forall|k: int| 0 <= k < ms.len() ==> !slot1_bye(#[trigger] ms[k]) && !slot2_bye(ms[k])
}

/// The player (identifier and name) in slot `slot` of `m` (slot 1, or else
/// slot 2).
pub open spec fn slot_player(m: Match, slot: i32) -> (Option<String>, String) {
    if slot == 1 {
        (m.player1_id, m.player1_name)
    } else {
        (m.player2_id, m.player2_name)
    }
}

/// The winner of a decisive score `s1`:`s2` in `m`.
pub open spec fn score_winner(m: Match, s1: i32, s2: i32) -> (Option<String>, String) {
    if s1 > s2 {
        (m.player1_id, m.player1_name)
    } else {
        (m.player2_id, m.player2_name)
    }
}

/// The loser of a decisive score `s1`:`s2` in `m`.
pub open spec fn score_loser(m: Match, s1: i32, s2: i32) -> (Option<String>, String) {
    if s1 > s2 {
        (m.player2_id, m.player2_name)
    } else {
        (m.player1_id, m.player1_name)
    }
}

proof fn lemma_pass_idle(rows: Seq<Match>, snap: Seq<Match>, done: Seq<Seq<char>>, bye_id: String, bye_name: String)
    requires
        no_bye_slots(snap),
    ensures
        sweep_pass(rows, snap, done, bye_id, bye_name) == (rows, done),
    decreases snap.len(),
{
    if snap.len() > 0 {
        assert(no_bye_slots(snap.drop_last())) by {
            assert forall|k: int| 0 <= k < snap.drop_last().len() implies !slot1_bye(#[trigger] snap.drop_last()[k])
                && !slot2_bye(snap.drop_last()[k]) by {
                assert(snap.drop_last()[k] == snap[k]);
            }
        }
        lemma_pass_idle(rows, snap.drop_last(), done, bye_id, bye_name);
        assert(!slot1_bye(snap[snap.len() - 1]));
        assert(!resolves_as_bye(snap.last(), done));
    }
}

/// `x` is one of the rows `ms`.
pub open spec fn is_row(ms: Seq<Match>, x: Match) -> bool {
    exists|k: int| 0 <= k < ms.len() && ms[k] == x
}

/// The matches of a tournament are rows of the match table.
proof fn lemma_tournament_matches_are_rows(rs: Seq<Round>, ms: Seq<Match>, tid: Seq<char>)
    ensures
        forall|i: int| 0 <= i < tournament_matches_in(rs, ms, tid).len() ==> is_row(ms, #[trigger] tournament_matches_in(rs, ms, tid)[i]),
{
    lemma_sorted_selection_exists(match_keys(rs, ms), match_keep(rs, ms, tid));
    let q = crate::sorting::sorted_selection(match_keys(rs, ms), match_keep(rs, ms, tid));
    let tm = tournament_matches_in(rs, ms, tid);
    assert forall|i: int| 0 <= i < tm.len() implies is_row(ms, #[trigger] tm[i]) by {
        assert(0 <= q[i] < ms.len());
        assert(tm[i] == ms[q[i]]);
    }
}

/// Without BYE placeholders the sweep resolves nothing.
proof fn lemma_sweep_idle(rs: Seq<Round>, rows: Seq<Match>, tid: Seq<char>, bye_id: String, bye_name: String)
    requires
        no_bye_slots(rows),
    ensures
        swept(rs, rows, tid, bye_id, bye_name) == rows,
{
    let snap = tournament_matches_in(rs, rows, tid);
    lemma_tournament_matches_are_rows(rs, rows, tid);
    assert forall|i: int| 0 <= i < snap.len() implies !slot1_bye(#[trigger] snap[i]) && !slot2_bye(snap[i]) by {
        assert(is_row(rows, snap[i]));
        let k = choose|k: int| 0 <= k < rows.len() && rows[k] == snap[i];
        assert(!slot1_bye(rows[k]));
    }
    lemma_pass_idle(rows, snap, Seq::empty(), bye_id, bye_name);
    let fuel = (rows.len() + 1) as nat;
    assert(sweep_from(rs, rows, tid, Seq::empty(), bye_id, bye_name, fuel) == rows);
}

/// The match `match_with_id` finds is a row with that identifier.
proof fn lemma_found_is_row(ms: Seq<Match>, mid: Seq<char>)
    requires
        match_with_id(ms, mid) is Some,
    ensures
        is_row(ms, match_with_id(ms, mid)->Some_0),
        match_with_id(ms, mid)->Some_0.id@ == mid,
{
}

/// Scoring a match without BYE placeholders brings in none.
proof fn lemma_scored_no_byes(ms: Seq<Match>, mid: Seq<char>, s1: i32, s2: i32)
    requires
        no_bye_slots(ms),
        match_with_id(ms, mid) matches Some(m) && m.player1_id is Some && m.player2_id is Some,
    ensures
        no_bye_slots(scored(ms, mid, match_with_id(ms, mid)->Some_0, s1, s2)),
{
    let m = match_with_id(ms, mid)->Some_0;
    lemma_found_is_row(ms, mid);
    let k0 = choose|k: int| 0 <= k < ms.len() && ms[k] == m;
    assert(!slot1_bye(ms[k0]) && !slot2_bye(ms[k0]));
    let rows = scored(ms, mid, m, s1, s2);
    assert forall|k: int| 0 <= k < rows.len() implies !slot1_bye(#[trigger] rows[k]) && !slot2_bye(rows[k]) by {
        assert(!slot1_bye(ms[k]) && !slot2_bye(ms[k]));
    }
}

/// Every row with identifier `mid` is completed, and there is one.
pub open spec fn locked_in(ms: Seq<Match>, mid: Seq<char>) -> bool {
    &&& has_match(ms, mid)
    &&& forall|k: int| 0 <= k < ms.len() && #[trigger] ms[k].id@ == mid ==> ms[k].status == MatchStatus::Completed
}

/// The rows `b` stand where the rows `a` stand, with the same identifiers,
/// and the rows with identifier `mid` keep their status, scores and winner.
pub open spec fn result_kept(a: Seq<Match>, b: Seq<Match>, mid: Seq<char>) -> bool {
    &&& a.len() == b.len()
    &&& forall|k: int| 0 <= k < a.len() ==> #[trigger] b[k].id == a[k].id
    &&& forall|k: int| 0 <= k < a.len() && #[trigger] a[k].id@ == mid ==> b[k].status == a[k].status
        && b[k].score1 == a[k].score1 && b[k].score2 == a[k].score2 && b[k].winner_id == a[k].winner_id
}

/// A completed match refuses every further score.
proof fn lemma_locked_refuses(ms: Seq<Match>, ts: Seq<Tournament>, mid: Seq<char>, a: i32, b: i32)
    requires
        locked_in(ms, mid),
        a >= 0,
        b >= 0,
    ensures
        score_refusal(ms, ts, mid, a, b) == Some("This match is already completed and locked."@),
{
    lemma_found_is_row(ms, mid);
    let k = choose|k: int| 0 <= k < ms.len() && #[trigger] ms[k].id@ == mid;
    assert(ms[k].status == MatchStatus::Completed);
}

/// Keeping a result twice keeps it.
proof fn lemma_kept_trans(a: Seq<Match>, b: Seq<Match>, c: Seq<Match>, mid: Seq<char>)
    requires
        result_kept(a, b, mid),
        result_kept(b, c, mid),
    ensures
        result_kept(a, c, mid),
{
    assert forall|k: int| 0 <= k < a.len() && #[trigger] a[k].id@ == mid implies c[k].status == a[k].status
        && c[k].score1 == a[k].score1 && c[k].score2 == a[k].score2 && c[k].winner_id == a[k].winner_id by {
        assert(b[k].id == a[k].id);
    }
    assert forall|k: int| 0 <= k < a.len() implies #[trigger] c[k].id == a[k].id by {
        assert(b[k].id == a[k].id);
    }
}

/// Rows that keep the result of a locked match keep it locked.
proof fn lemma_kept_locked(a: Seq<Match>, b: Seq<Match>, mid: Seq<char>)
    requires
        locked_in(a, mid),
        result_kept(a, b, mid),
    ensures
        locked_in(b, mid),
{
    let k0 = choose|k: int| 0 <= k < a.len() && #[trigger] a[k].id@ == mid;
    assert(b[k0].id == a[k0].id);
    assert(b[k0].id@ == mid);
    assert forall|k: int| 0 <= k < b.len() && #[trigger] b[k].id@ == mid implies b[k].status == MatchStatus::Completed by {
        assert(b[k].id == a[k].id);
        assert(a[k].id@ == mid);
    }
}

/// Changing rows, keeping identifiers, and keeping the status and result
/// of a completed match wherever it touches match `mid`, keeps the result
/// of the locked match `mid`.
proof fn lemma_update_kept(rows: Seq<Match>, id: Seq<char>, f: spec_fn(Match) -> Match, mid: Seq<char>)
    requires
        forall|x: Match| #[trigger] f(x).id == x.id,
        forall|x: Match| id == mid && x.status == MatchStatus::Completed ==> #[trigger] f(x).status == x.status
            && f(x).score1 == x.score1 && f(x).score2 == x.score2 && f(x).winner_id == x.winner_id,
        locked_in(rows, mid),
    ensures
        result_kept(rows, update_match_rows(rows, id, f), mid),
        locked_in(update_match_rows(rows, id, f), mid),
{
    let up = update_match_rows(rows, id, f);
    assert forall|k: int| 0 <= k < rows.len() implies #[trigger] up[k].id == rows[k].id by {
        if rows[k].id@ == id {
            assert(f(rows[k]).id == rows[k].id);
        }
    }
    assert forall|k: int| 0 <= k < rows.len() && #[trigger] rows[k].id@ == mid implies up[k].status == rows[k].status
        && up[k].score1 == rows[k].score1 && up[k].score2 == rows[k].score2 && up[k].winner_id == rows[k].winner_id by {
        if rows[k].id@ == id {
            assert(rows[k].status == MatchStatus::Completed);
            assert(f(rows[k]).status == rows[k].status);
        }
    }
    lemma_kept_locked(rows, up, mid);
}

/// Writing a player never touches the status or result of a completed match.
proof fn lemma_with_player_keeps(slot: i32, pid: String, pname: String)
    ensures
        forall|x: Match| x.status == MatchStatus::Completed ==> #[trigger] with_player(x, slot, pid, pname).status == x.status
            && with_player(x, slot, pid, pname).score1 == x.score1 && with_player(x, slot, pid, pname).score2 == x.score2
            && with_player(x, slot, pid, pname).winner_id == x.winner_id,
        forall|x: Match| #[trigger] with_player(x, slot, pid, pname).id == x.id,
{
}

/// Resolving a BYE match other than `mid` keeps the result of the locked
/// match `mid`.
proof fn lemma_resolve_kept(rows: Seq<Match>, m: Match, bye_id: String, bye_name: String, mid: Seq<char>)
    requires
        m.id@ != mid,
        locked_in(rows, mid),
    ensures
        result_kept(rows, resolve_bye(rows, m, bye_id, bye_name), mid),
        locked_in(resolve_bye(rows, m, bye_id, bye_name), mid),
{
    let w = crate::services::match_service::bye_winner(m, bye_id, bye_name);
    let f1 = |x: Match| with_score(x, 0, 0, MatchStatus::Bye, w.0);
    lemma_update_kept(rows, m.id@, f1, mid);
    let r1 = update_match_rows(rows, m.id@, f1);
    let r2 = match (w.0, m.next_match_id) {
        (Some(wid), Some(nid)) => {
            let f2 = |x: Match| with_player(x, m.next_match_slot, wid, w.1);
            lemma_with_player_keeps(m.next_match_slot, wid, w.1);
            lemma_update_kept(r1, nid@, f2, mid);
            lemma_kept_trans(rows, r1, update_match_rows(r1, nid@, f2), mid);
            update_match_rows(r1, nid@, f2)
        },
        _ => r1,
    };
    match m.loser_next_match_id {
        Some(lid) => {
            let f3 = |x: Match| with_player(x, m.loser_next_match_slot, bye_id, bye_name);
            lemma_with_player_keeps(m.loser_next_match_slot, bye_id, bye_name);
            lemma_update_kept(r2, lid@, f3, mid);
            lemma_kept_trans(rows, r2, update_match_rows(r2, lid@, f3), mid);
        },
        None => {},
    }
}

/// A pass over rows of `rows0` keeps the result of the locked match `mid`.
proof fn lemma_pass_kept(
    rows: Seq<Match>,
    snap: Seq<Match>,
    done: Seq<Seq<char>>,
    bye_id: String,
    bye_name: String,
    mid: Seq<char>,
    rows0: Seq<Match>,
)
    requires
        locked_in(rows, mid),
        locked_in(rows0, mid),
        forall|i: int| 0 <= i < snap.len() ==> is_row(rows0, #[trigger] snap[i]),
    ensures
        result_kept(rows, sweep_pass(rows, snap, done, bye_id, bye_name).0, mid),
        locked_in(sweep_pass(rows, snap, done, bye_id, bye_name).0, mid),
    decreases snap.len(),
{
    if snap.len() == 0 {
        assert(result_kept(rows, rows, mid));
    } else {
        let prev = sweep_pass(rows, snap.drop_last(), done, bye_id, bye_name);
        let m = snap.last();
        assert forall|i: int| 0 <= i < snap.drop_last().len() implies is_row(rows0, #[trigger] snap.drop_last()[i]) by {
            assert(snap.drop_last()[i] == snap[i]);
        }
        lemma_pass_kept(rows, snap.drop_last(), done, bye_id, bye_name, mid, rows0);
        if resolves_as_bye(m, prev.1) {
            assert(is_row(rows0, snap[snap.len() - 1]));
            let j = choose|j: int| 0 <= j < rows0.len() && rows0[j] == m;
            if m.id@ == mid {
                assert(rows0[j].status == MatchStatus::Completed);
            }
            lemma_resolve_kept(prev.0, m, bye_id, bye_name, mid);
            lemma_kept_trans(rows, prev.0, resolve_bye(prev.0, m, bye_id, bye_name), mid);
        }
    }
}

/// A sweep keeps the result of the locked match `mid`.
proof fn lemma_sweep_kept(
    rs: Seq<Round>,
    rows: Seq<Match>,
    tid: Seq<char>,
    done: Seq<Seq<char>>,
    bye_id: String,
    bye_name: String,
    fuel: nat,
    mid: Seq<char>,
)
    requires
        locked_in(rows, mid),
    ensures
        result_kept(rows, sweep_from(rs, rows, tid, done, bye_id, bye_name, fuel), mid),
        locked_in(sweep_from(rs, rows, tid, done, bye_id, bye_name, fuel), mid),
    decreases fuel,
{
    if fuel == 0 {
        assert(result_kept(rows, rows, mid));
    } else {
        let snap = tournament_matches_in(rs, rows, tid);
        lemma_tournament_matches_are_rows(rs, rows, tid);
        let pass = sweep_pass(rows, snap, done, bye_id, bye_name);
        lemma_pass_kept(rows, snap, done, bye_id, bye_name, mid, rows);
        if pass.1.len() > done.len() {
            lemma_sweep_kept(rs, pass.0, tid, pass.1, bye_id, bye_name, (fuel - 1) as nat, mid);
            lemma_kept_trans(rows, pass.0, sweep_from(rs, pass.0, tid, pass.1, bye_id, bye_name, (fuel - 1) as nat), mid);
        }
    }
}

/// Sending the winner and the loser of a scored match on keeps the result
/// of the locked match `mid`.
proof fn lemma_advance_kept(r1: Seq<Match>, m: Match, s1: i32, s2: i32, mid: Seq<char>)
    requires
        locked_in(r1, mid),
        s1 != s2,
    ensures
        ({
            let wid = if s1 > s2 { m.player1_id->Some_0 } else { m.player2_id->Some_0 };
            let wname = if s1 > s2 { m.player1_name } else { m.player2_name };
            let lid = if s1 > s2 { m.player2_id->Some_0 } else { m.player1_id->Some_0 };
            let lname = if s1 > s2 { m.player2_name } else { m.player1_name };
            let r2 = match m.next_match_id {
                Some(n) => update_match_rows(r1, n@, |x: Match| with_player(x, m.next_match_slot, wid, wname)),
                None => r1,
            };
            let r3 = match m.loser_next_match_id {
                Some(l) => update_match_rows(r2, l@, |x: Match| with_player(x, m.loser_next_match_slot, lid, lname)),
                None => r2,
            };
            result_kept(r1, r3, mid) && locked_in(r3, mid)
        }),
{
    let wid = if s1 > s2 { m.player1_id->Some_0 } else { m.player2_id->Some_0 };
    let wname = if s1 > s2 { m.player1_name } else { m.player2_name };
    let lid = if s1 > s2 { m.player2_id->Some_0 } else { m.player1_id->Some_0 };
    let lname = if s1 > s2 { m.player2_name } else { m.player1_name };
    let r2 = match m.next_match_id {
        Some(n) => {
            let f2 = |x: Match| with_player(x, m.next_match_slot, wid, wname);
            lemma_with_player_keeps(m.next_match_slot, wid, wname);
            lemma_update_kept(r1, n@, f2, mid);
            update_match_rows(r1, n@, f2)
        },
        None => {
            assert(result_kept(r1, r1, mid));
            r1
        },
    };
    match m.loser_next_match_id {
        Some(l) => {
            let f3 = |x: Match| with_player(x, m.loser_next_match_slot, lid, lname);
            lemma_with_player_keeps(m.loser_next_match_slot, lid, lname);
            lemma_update_kept(r2, l@, f3, mid);
            lemma_kept_trans(r1, r2, update_match_rows(r2, l@, f3), mid);
        },
        None => {},
    }
}

/// A score, once accepted, locks its match: the match keeps the result
/// `s1`:`s2` through the BYE resolution that follows, with the player who
/// scored more recorded as its winner (none on a tie), and every later
/// score for it is refused as already completed.
pub proof fn lemma_scored_match_locked(
    rs: Seq<Round>,
    ms: Seq<Match>,
    ts: Seq<Tournament>,
    mid: Seq<char>,
    s1: i32,
    s2: i32,
    rows: Seq<Match>,
)
    requires
        score_refusal(ms, ts, mid, s1, s2) is None,
        rows_after_score(rs, ms, mid, s1, s2, rows),
    ensures
        locked_in(rows, mid),
        forall|k: int| 0 <= k < rows.len() && #[trigger] rows[k].id@ == mid ==> rows[k].score1 == s1 && rows[k].score2 == s2,
        forall|k: int| 0 <= k < rows.len() && #[trigger] rows[k].id@ == mid ==> {
            let m = match_with_id(ms, mid)->Some_0;
            &&& s1 > s2 ==> m.player1_id is Some && rows[k].winner_id == m.player1_id
            &&& s2 > s1 ==> m.player2_id is Some && rows[k].winner_id == m.player2_id
            &&& s1 == s2 ==> rows[k].winner_id is None
        },
        forall|a: i32, b: i32| a >= 0 && b >= 0 ==> #[trigger] score_refusal(rows, ts, mid, a, b)
            == Some("This match is already completed and locked."@),
{
    let m = match_with_id(ms, mid)->Some_0;
    let tid = m.tournament_id@;
    let sc = scored(ms, mid, m, s1, s2);
    lemma_found_is_row(ms, mid);
    let k0 = choose|k: int| 0 <= k < ms.len() && ms[k] == m;
    let winner: Option<String> = if s1 > s2 { m.player1_id } else if s2 > s1 { m.player2_id } else { None };
    let f1 = |y: Match| with_score(y, s1, s2, MatchStatus::Completed, winner);
    let r1 = update_match_rows(ms, mid, f1);
    assert(r1[k0].id@ == mid);
    assert(locked_in(r1, mid));
    if s1 != s2 {
        lemma_advance_kept(r1, m, s1, s2, mid);
    } else {
        assert(result_kept(r1, r1, mid));
    }
    assert(result_kept(r1, sc, mid));
    let (bye_id, bye_name) = choose|bye_id: String, bye_name: String| bye_id@ == "BYE_ID"@ && bye_name@ == "BYE"@
        && rows == swept(rs, sc, tid, bye_id, bye_name);
    lemma_sweep_kept(rs, sc, tid, Seq::empty(), bye_id, bye_name, (sc.len() + 1) as nat, mid);
    lemma_kept_trans(r1, sc, rows, mid);
    assert forall|k: int| 0 <= k < rows.len() && #[trigger] rows[k].id@ == mid implies rows[k].score1 == s1 && rows[k].score2 == s2
        && rows[k].winner_id == winner by {
        assert(rows[k].id == r1[k].id);
        assert(r1[k].id@ == mid);
    }
    assert forall|a: i32, b: i32| a >= 0 && b >= 0 implies #[trigger] score_refusal(rows, ts, mid, a, b)
        == Some("This match is already completed and locked."@) by {
        lemma_locked_refuses(rows, ts, mid, a, b);
    }
}

/// A locked match stays locked whatever other match is scored: it keeps
/// its status, scores and winner, and every later score for it is still
/// refused. (A refused score changes nothing, so the lock outlasts every
/// later call.)
pub proof fn lemma_lock_survives_scores(
    rs: Seq<Round>,
    ms: Seq<Match>,
    ts: Seq<Tournament>,
    mid: Seq<char>,
    x: Seq<char>,
    s1: i32,
    s2: i32,
    rows: Seq<Match>,
)
    requires
        locked_in(ms, mid),
        score_refusal(ms, ts, x, s1, s2) is None,
        rows_after_score(rs, ms, x, s1, s2, rows),
    ensures
        locked_in(rows, mid),
        result_kept(ms, rows, mid),
        forall|a: i32, b: i32| a >= 0 && b >= 0 ==> #[trigger] score_refusal(rows, ts, mid, a, b)
            == Some("This match is already completed and locked."@),
{
    let m = match_with_id(ms, x)->Some_0;
    let tid = m.tournament_id@;
    if x == mid {
        lemma_locked_refuses(ms, ts, mid, s1, s2);
    }
    let winner: Option<String> = if s1 > s2 { m.player1_id } else if s2 > s1 { m.player2_id } else { None };
    let f1 = |y: Match| with_score(y, s1, s2, MatchStatus::Completed, winner);
    lemma_update_kept(ms, x, f1, mid);
    let r1 = update_match_rows(ms, x, f1);
    if s1 != s2 {
        lemma_advance_kept(r1, m, s1, s2, mid);
    } else {
        assert(result_kept(r1, r1, mid));
    }
    let sc = scored(ms, x, m, s1, s2);
    assert(result_kept(r1, sc, mid));
    lemma_kept_trans(ms, r1, sc, mid);
    let (bye_id, bye_name) = choose|bye_id: String, bye_name: String| bye_id@ == "BYE_ID"@ && bye_name@ == "BYE"@
        && rows == swept(rs, sc, tid, bye_id, bye_name);
    lemma_sweep_kept(rs, sc, tid, Seq::empty(), bye_id, bye_name, (sc.len() + 1) as nat, mid);
    lemma_kept_trans(ms, sc, rows, mid);
    assert forall|a: i32, b: i32| a >= 0 && b >= 0 implies #[trigger] score_refusal(rows, ts, mid, a, b)
        == Some("This match is already completed and locked."@) by {
        lemma_locked_refuses(rows, ts, mid, a, b);
    }
}

/// Resolving a BYE match `m` routes both sides: the match becomes a Bye
/// won by the player who is not the BYE placeholder; that player takes its
/// slot in the next match; and the BYE placeholder drops into the loser's
/// slot of the loser's next match.
pub proof fn lemma_bye_resolution_routes(rows: Seq<Match>, m: Match, bye_id: String, bye_name: String)
    requires
        slot1_bye(m) != slot2_bye(m),
        m.player1_id is Some,
        m.player2_id is Some,
    ensures
        ({
            let res = resolve_bye(rows, m, bye_id, bye_name);
            let adv: (Option<String>, String) = if slot1_bye(m) { (m.player2_id, m.player2_name) } else { (m.player1_id, m.player1_name) };
            &&& res.len() == rows.len()
            &&& forall|k: int| 0 <= k < rows.len() && #[trigger] res[k].id == m.id && rows[k].id == m.id
                && !(m.next_match_id matches Some(n) && n@ == m.id@) && !(m.loser_next_match_id matches Some(l) && l@ == m.id@)
                ==> res[k].status == MatchStatus::Bye && res[k].winner_id == adv.0
            &&& m.loser_next_match_id matches Some(lid) ==> forall|k: int| 0 <= k < res.len() && #[trigger] res[k].id@ == lid@
                ==> slot_player(res[k], m.loser_next_match_slot) == (Some(bye_id), bye_name)
            &&& m.next_match_id matches Some(nid) ==> forall|k: int| 0 <= k < res.len() && #[trigger] res[k].id@ == nid@
                && !(m.loser_next_match_id matches Some(lid) && lid@ == nid@ && (m.loser_next_match_slot == 1) == (m.next_match_slot == 1))
                ==> slot_player(res[k], m.next_match_slot) == adv
        }),
{
    let w = crate::services::match_service::bye_winner(m, bye_id, bye_name);
    let f1 = |x: Match| with_score(x, 0, 0, MatchStatus::Bye, w.0);
    let r1 = update_match_rows(rows, m.id@, f1);
    assert(r1.len() == rows.len());
    let r2 = match (w.0, m.next_match_id) {
        (Some(wid), Some(nid)) => update_match_rows(r1, nid@, |x: Match| with_player(x, m.next_match_slot, wid, w.1)),
        _ => r1,
    };
    let res = resolve_bye(rows, m, bye_id, bye_name);
    assert forall|k: int| 0 <= k < res.len() implies #[trigger] res[k].id == rows[k].id by {}
}

/// A decisive score moves the winner into the slot of the match it feeds.
/// (Stated for brackets without BYE placeholders, and unless the loser is
/// sent to that same slot.)
pub proof fn lemma_winner_advances(rs: Seq<Round>, ms: Seq<Match>, ts: Seq<Tournament>, mid: Seq<char>, s1: i32, s2: i32, rows: Seq<Match>)
    requires
        no_bye_slots(ms),
        score_refusal(ms, ts, mid, s1, s2) is None,
        s1 != s2,
        match_with_id(ms, mid)->Some_0.next_match_id is Some,
        !(match_with_id(ms, mid)->Some_0.loser_next_match_id matches Some(l)
            && l@ == match_with_id(ms, mid)->Some_0.next_match_id->Some_0@
            && (match_with_id(ms, mid)->Some_0.loser_next_match_slot == 1) == (match_with_id(ms, mid)->Some_0.next_match_slot == 1)),
        rows_after_score(rs, ms, mid, s1, s2, rows),
    ensures
        ({
            let m = match_with_id(ms, mid)->Some_0;
            forall|k: int| 0 <= k < rows.len() && #[trigger] rows[k].id@ == m.next_match_id->Some_0@
                ==> slot_player(rows[k], m.next_match_slot) == score_winner(m, s1, s2)
        }),
{
    let m = match_with_id(ms, mid)->Some_0;
    lemma_scored_no_byes(ms, mid, s1, s2);
    let sc = scored(ms, mid, m, s1, s2);
    let (bye_id, bye_name) = choose|bye_id: String, bye_name: String| bye_id@ == "BYE_ID"@ && bye_name@ == "BYE"@
        && rows == swept(rs, sc, m.tournament_id@, bye_id, bye_name);
    lemma_sweep_idle(rs, sc, m.tournament_id@, bye_id, bye_name);
    assert(rows == sc);
    let n = m.next_match_id->Some_0;
    let wid = if s1 > s2 { m.player1_id->Some_0 } else { m.player2_id->Some_0 };
    let wname = if s1 > s2 { m.player1_name } else { m.player2_name };
    let lid = if s1 > s2 { m.player2_id->Some_0 } else { m.player1_id->Some_0 };
    let lname = if s1 > s2 { m.player2_name } else { m.player1_name };
    let winner: Option<String> = if s1 > s2 { m.player1_id } else if s2 > s1 { m.player2_id } else { None };
    assert forall|k: int| 0 <= k < rows.len() && #[trigger] rows[k].id@ == n@
        implies slot_player(rows[k], m.next_match_slot) == score_winner(m, s1, s2) by {
        let x1 = if ms[k].id@ == mid { with_score(ms[k], s1, s2, MatchStatus::Completed, winner) } else { ms[k] };
        let x2 = with_player(x1, m.next_match_slot, wid, wname);
        assert(x1.id == ms[k].id);
        let x3 = match m.loser_next_match_id {
            Some(l) => if x2.id@ == l@ { with_player(x2, m.loser_next_match_slot, lid, lname) } else { x2 },
            None => x2,
        };
        assert(rows[k] == x3);
        assert(slot_player(x2, m.next_match_slot) == score_winner(m, s1, s2));
    }
}

/// A decisive score sends the loser into the slot of its loser's match.
/// (Stated for brackets without BYE placeholders.)
pub proof fn lemma_loser_drops(rs: Seq<Round>, ms: Seq<Match>, ts: Seq<Tournament>, mid: Seq<char>, s1: i32, s2: i32, rows: Seq<Match>)
    requires
        no_bye_slots(ms),
        score_refusal(ms, ts, mid, s1, s2) is None,
        s1 != s2,
        match_with_id(ms, mid)->Some_0.loser_next_match_id is Some,
        rows_after_score(rs, ms, mid, s1, s2, rows),
    ensures
        ({
            let m = match_with_id(ms, mid)->Some_0;
            forall|k: int| 0 <= k < rows.len() && #[trigger] rows[k].id@ == m.loser_next_match_id->Some_0@
                ==> slot_player(rows[k], m.loser_next_match_slot) == score_loser(m, s1, s2)
        }),
{
    let m = match_with_id(ms, mid)->Some_0;
    lemma_scored_no_byes(ms, mid, s1, s2);
    let sc = scored(ms, mid, m, s1, s2);
    let (bye_id, bye_name) = choose|bye_id: String, bye_name: String| bye_id@ == "BYE_ID"@ && bye_name@ == "BYE"@
        && rows == swept(rs, sc, m.tournament_id@, bye_id, bye_name);
    lemma_sweep_idle(rs, sc, m.tournament_id@, bye_id, bye_name);
    assert(rows == sc);
}

} // verus!
