use vstd::prelude::*;
use vstd::string::*;
use crate::domain::match_model::Match;
use crate::domain::participant::Participant;
use crate::domain::round::Round;
use crate::domain::tournament::{Tournament, TournamentType};
use crate::services::bracket_layout::{bracket_rounds, by_seed, flat_ok, flat_prefix_ok, has_lower, match_total, matches_ok, round_total, rounds_ok};
use crate::services::bracket_plan::{elimination_dims, elimination_size, plan_elimination};
use crate::domain::ids::{is_uuid_text, new_id};
use crate::services::round_robin::{lemma_rr_index, plan_round_robin, round_robin_size, rr_match_ok, rr_matches_ok, rr_per_round, rr_rounds, rr_rounds_ok};
use crate::services::match_service::{match_id_texts, sweep_byes, swept};
use crate::store::{
    has_match, has_round, has_tournament, matches_insertable, round_of_tournament, rounds_insertable, TournamentStore,
    match_fits, match_refusal, matches_stop_at, round_fits, round_refusal, rounds_stop_at,
    match_keep, match_keys, round_keep, round_keys, tournament_matches_in, tournament_rounds_in,
};
use crate::text::{is_err_with, prefixed, texts};
use crate::sorting::{lemma_sorted_selection_exists, sorted_selection};
use crate::table::lemma_filter_member;

verus! {

// ─── Identifiers and clearing ───────────────────────────────────────────

/// The identifiers of the round rows, in storage order.
pub open spec fn round_ids_of(rs: Seq<Round>) -> Seq<Seq<char>> {
    rs.map_values(|x: Round| x.id@)
}

/// The new identifiers are distinct and none of them is taken yet.
pub open spec fn ids_fresh(taken: Seq<Seq<char>>, new: Seq<Seq<char>>) -> bool {
    &&& new.no_duplicates()
    &&& forall|i: int| 0 <= i < new.len() ==> !taken.contains(#[trigger] new[i])
}

/// The round rows once the rounds of tournament `tid` are gone.
pub open spec fn cleared_rounds(rs: Seq<Round>, tid: Seq<char>) -> Seq<Round> {
    rs.filter(|x: Round| x.tournament_id@ != tid)
}

/// The match rows once the matches of tournament `tid`, and those of its
/// rounds, are gone.
pub open spec fn cleared_matches(rs: Seq<Round>, ms: Seq<Match>, tid: Seq<char>) -> Seq<Match> {
    ms.filter(|m: Match| m.tournament_id@ != tid).filter(|m: Match| !round_of_tournament(rs, m.round_id@, tid))
}

/// Once its bracket is cleared, a tournament has no rounds and no matches
/// left.
pub proof fn lemma_cleared_bracket_empty(rs: Seq<Round>, ms: Seq<Match>, tid: Seq<char>)
    ensures
        tournament_rounds_in(cleared_rounds(rs, tid), tid).len() == 0,
        tournament_matches_in(cleared_rounds(rs, tid), cleared_matches(rs, ms, tid), tid).len() == 0,
{
    let crs = cleared_rounds(rs, tid);
    let cms = cleared_matches(rs, ms, tid);
    lemma_sorted_selection_exists(round_keys(crs), round_keep(crs, tid));
    let qr = sorted_selection(round_keys(crs), round_keep(crs, tid));
    if qr.len() > 0 {
        assert(round_keep(crs, tid)[qr[0]]);
        lemma_filter_member(rs, |x: Round| x.tournament_id@ != tid, qr[0]);
    }
    lemma_sorted_selection_exists(match_keys(crs, cms), match_keep(crs, cms, tid));
    let qm = sorted_selection(match_keys(crs, cms), match_keep(crs, cms, tid));
    if qm.len() > 0 {
        broadcast use vstd::seq_lib::group_filter_ensures, Seq::lemma_filter_contains_rev;
        assert(match_keep(crs, cms, tid)[qm[0]]);
        let x = cms[qm[0]];
        assert(cms.contains(x));
        assert(x.tournament_id@ != tid);
    }
}

/// `s` begins with `p`.
pub open spec fn starts_with(s: Seq<char>, p: Seq<char>) -> bool {
    p.len() <= s.len() && s.subrange(0, p.len() as int) == p
}

proof fn lemma_has_round_ids(rs: Seq<Round>, id: Seq<char>)
    ensures
        has_round(rs, id) <==> round_ids_of(rs).contains(id),
{
    if has_round(rs, id) {
        let i = choose|i: int| 0 <= i < rs.len() && #[trigger] rs[i].id@ == id;
        assert(round_ids_of(rs)[i] == id);
    }
    if round_ids_of(rs).contains(id) {
        let i = choose|i: int| 0 <= i < round_ids_of(rs).len() && round_ids_of(rs)[i] == id;
        assert(rs[i].id@ == id);
    }
}

proof fn lemma_has_match_ids(ms: Seq<Match>, id: Seq<char>)
    ensures
        has_match(ms, id) <==> match_id_texts(ms).contains(id),
{
    if has_match(ms, id) {
        let i = choose|i: int| 0 <= i < ms.len() && #[trigger] ms[i].id@ == id;
        assert(match_id_texts(ms)[i] == id);
    }
    if match_id_texts(ms).contains(id) {
        let i = choose|i: int| 0 <= i < match_id_texts(ms).len() && match_id_texts(ms)[i] == id;
        assert(ms[i].id@ == id);
    }
}

/// Rounds that go in after `rs`, followed by rounds that go in after those,
/// go in after `rs` together.
proof fn lemma_rounds_insertable_concat(rs: Seq<Round>, ts: Seq<Tournament>, x: Seq<Round>, y: Seq<Round>)
    requires
        rounds_insertable(rs, ts, x),
        rounds_insertable(rs + x, ts, y),
    ensures
        rounds_insertable(rs, ts, x + y),
{
    assert forall|i: int| 0 <= i < (x + y).len() implies has_tournament(ts, #[trigger] (x + y)[i].tournament_id@)
        && !has_round(rs, (x + y)[i].id@) by {
        if i >= x.len() {
            let j = i - x.len();
            assert((x + y)[i] == y[j]);
            assert(has_tournament(ts, y[j].tournament_id@) && !has_round(rs + x, y[j].id@));
            if has_round(rs, y[j].id@) {
                let w = choose|w: int| 0 <= w < rs.len() && #[trigger] rs[w].id@ == y[j].id@;
                assert((rs + x)[w] == rs[w]);
                assert(has_round(rs + x, y[j].id@));
            }
        } else {
            assert((x + y)[i] == x[i]);
            let xi = x[i];
            assert(has_tournament(ts, xi.tournament_id@));
            assert(!has_round(rs, xi.id@));
        }
    }
    assert forall|i: int, j: int| 0 <= i < j < (x + y).len() implies #[trigger] (x + y)[i].id@ != #[trigger] (x + y)[j].id@ by {
        if j >= x.len() && i < x.len() {
            let jj = j - x.len();
            assert((x + y)[j] == y[jj]);
            assert((x + y)[i] == x[i]);
            assert(has_tournament(ts, y[jj].tournament_id@));
            assert(!has_round(rs + x, y[jj].id@));
            assert((rs + x)[rs.len() + i] == x[i]);
            if x[i].id@ == y[jj].id@ {
                assert(has_round(rs + x, y[jj].id@));
            }
        } else if j >= x.len() {
            assert((x + y)[i] == y[i - x.len()]);
            assert((x + y)[j] == y[j - x.len()]);
            assert(y[i - x.len()].id@ != y[j - x.len()].id@);
        } else {
            assert((x + y)[i] == x[i]);
            assert((x + y)[j] == x[j]);
            assert(x[i].id@ != x[j].id@);
        }
    }
}

/// New rounds of tournament `tid` with identifiers `rids` go in exactly
/// when the tournament exists and the identifiers are fresh.
pub proof fn lemma_rounds_insertable_iff(old: Seq<Round>, ts: Seq<Tournament>, new: Seq<Round>, tid: Seq<char>, rids: Seq<Seq<char>>)
    requires
        new.len() == rids.len(),
        new.len() > 0,
        forall|k: int| #![trigger new[k]] 0 <= k < new.len() ==> new[k].id@ == rids[k] && new[k].tournament_id@ == tid,
    ensures
        rounds_insertable(old, ts, new) <==> has_tournament(ts, tid) && ids_fresh(round_ids_of(old), rids),
{
    assert forall|i: int| 0 <= i < new.len() implies (has_round(old, #[trigger] new[i].id@) <==> round_ids_of(old).contains(rids[i])) by {
        lemma_has_round_ids(old, new[i].id@);
    }
    if rounds_insertable(old, ts, new) {
        assert(has_tournament(ts, new[0].tournament_id@));
        assert forall|i: int, j: int| 0 <= i < rids.len() && 0 <= j < rids.len() && i != j implies rids[i] != rids[j] by {
            if i < j {
                assert(new[i].id@ != new[j].id@);
            } else {
                assert(new[j].id@ != new[i].id@);
            }
        }
        assert forall|i: int| 0 <= i < rids.len() implies !round_ids_of(old).contains(#[trigger] rids[i]) by {
            assert(!has_round(old, new[i].id@));
        }
    }
    if has_tournament(ts, tid) && ids_fresh(round_ids_of(old), rids) {
        assert forall|i: int| 0 <= i < new.len() implies has_tournament(ts, #[trigger] new[i].tournament_id@) && !has_round(old, new[i].id@) by {
            assert(new[i].id@ == rids[i] && new[i].tournament_id@ == tid);
            assert(!round_ids_of(old).contains(rids[i]));
            lemma_has_round_ids(old, new[i].id@);
        }
        assert forall|i: int, j: int| 0 <= i < j < new.len() implies #[trigger] new[i].id@ != #[trigger] new[j].id@ by {
            assert(rids[i] != rids[j]);
        }
    }
}

/// New matches of tournament `tid` with identifiers `ids`, whose rounds are
/// among `rids` and exist, go in exactly when the tournament exists and the
/// identifiers are fresh.
pub proof fn lemma_matches_insertable_iff(
    old: Seq<Match>,
    rounds: Seq<Round>,
    ts: Seq<Tournament>,
    new: Seq<Match>,
    tid: Seq<char>,
    ids: Seq<Seq<char>>,
    rids: Seq<Seq<char>>,
)
    requires
        flat_ok(new, tid, ids, rids),
        new.len() > 0,
        forall|k: int| 0 <= k < rids.len() ==> has_round(rounds, #[trigger] rids[k]),
    ensures
        matches_insertable(old, rounds, ts, new) <==> has_tournament(ts, tid) && ids_fresh(match_id_texts(old), ids),
{
    assert forall|i: int| 0 <= i < new.len() implies (has_match(old, #[trigger] new[i].id@) <==> match_id_texts(old).contains(ids[i]))
        && has_round(rounds, new[i].round_id@) by {
        lemma_has_match_ids(old, new[i].id@);
        let k = choose|k: int| 0 <= k < rids.len() && rids[k] == new[i].round_id@;
        assert(has_round(rounds, rids[k]));
    }
    if matches_insertable(old, rounds, ts, new) {
        assert(has_tournament(ts, new[0].tournament_id@));
        assert forall|i: int, j: int| 0 <= i < ids.len() && 0 <= j < ids.len() && i != j implies ids[i] != ids[j] by {
            if i < j {
                assert(new[i].id@ != new[j].id@);
            } else {
                assert(new[j].id@ != new[i].id@);
            }
        }
        assert forall|i: int| 0 <= i < ids.len() implies !match_id_texts(old).contains(#[trigger] ids[i]) by {
            assert(!has_match(old, new[i].id@));
        }
    }
    if has_tournament(ts, tid) && ids_fresh(match_id_texts(old), ids) {
        assert forall|i: int| 0 <= i < new.len() implies has_tournament(ts, #[trigger] new[i].tournament_id@)
            && has_round(rounds, new[i].round_id@) && !has_match(old, new[i].id@) by {
            assert(new[i].id@ == ids[i] && new[i].tournament_id@ == tid);
            assert(!match_id_texts(old).contains(ids[i]));
            lemma_has_match_ids(old, new[i].id@);
            let k = choose|k: int| 0 <= k < rids.len() && rids[k] == new[i].round_id@;
            assert(has_round(rounds, rids[k]));
        }
        assert forall|i: int, j: int| 0 <= i < j < new.len() implies #[trigger] new[i].id@ != #[trigger] new[j].id@ by {
            assert(ids[i] != ids[j]);
        }
    }
}

/// Fresh identifiers in two batches: the first fresh, then the second
/// fresh once the first is taken.
pub proof fn lemma_fresh_concat(taken: Seq<Seq<char>>, x: Seq<Seq<char>>, y: Seq<Seq<char>>)
    ensures
        ids_fresh(taken, x + y) <==> ids_fresh(taken, x) && ids_fresh(taken + x, y),
{
    let xy = x + y;
    if ids_fresh(taken, xy) {
        assert forall|i: int, j: int| 0 <= i < x.len() && 0 <= j < x.len() && i != j implies x[i] != x[j] by {
            assert(xy[i] == x[i] && xy[j] == x[j]);
        }
        assert forall|i: int| 0 <= i < x.len() implies !taken.contains(#[trigger] x[i]) by {
            assert(xy[i] == x[i]);
        }
        assert forall|i: int, j: int| 0 <= i < y.len() && 0 <= j < y.len() && i != j implies y[i] != y[j] by {
            assert(xy[x.len() + i] == y[i] && xy[x.len() + j] == y[j]);
        }
        assert forall|i: int| 0 <= i < y.len() implies !(taken + x).contains(#[trigger] y[i]) by {
            assert(xy[x.len() + i] == y[i]);
            assert(!taken.contains(xy[x.len() + i]));
            if (taken + x).contains(y[i]) {
                let k = choose|k: int| 0 <= k < (taken + x).len() && (taken + x)[k] == y[i];
                if k >= taken.len() {
                    assert(xy[k - taken.len()] == x[k - taken.len()]);
                } else {
                    assert(taken[k] == y[i]);
                }
            }
        }
    }
    if ids_fresh(taken, x) && ids_fresh(taken + x, y) {
        assert forall|i: int, j: int| 0 <= i < xy.len() && 0 <= j < xy.len() && i != j implies xy[i] != xy[j] by {
            if i < x.len() && j < x.len() {
            } else if i >= x.len() && j >= x.len() {
                assert(xy[i] == y[i - x.len()] && xy[j] == y[j - x.len()]);
            } else if i < x.len() {
                assert(xy[j] == y[j - x.len()]);
                assert((taken + x)[taken.len() + i] == x[i]);
            } else {
                assert(xy[i] == y[i - x.len()]);
                assert((taken + x)[taken.len() + j] == x[j]);
            }
        }
        assert forall|i: int| 0 <= i < xy.len() implies !taken.contains(#[trigger] xy[i]) by {
            if i >= x.len() {
                assert(xy[i] == y[i - x.len()]);
                assert(!(taken + x).contains(y[i - x.len()]));
                if taken.contains(xy[i]) {
                    let k = choose|k: int| 0 <= k < taken.len() && taken[k] == xy[i];
                    assert((taken + x)[k] == taken[k]);
                }
            }
        }
    }
}

proof fn lemma_prefix_kept(p: Seq<char>, e: Seq<char>, q: Seq<char>)
    requires
        starts_with(p, q),
    ensures
        starts_with(p + e, q),
{
    assert((p + e).subrange(0, q.len() as int) =~= p.subrange(0, q.len() as int));
}

proof fn lemma_round_ids_concat(a: Seq<Round>, b: Seq<Round>)
    ensures
        round_ids_of(a + b) == round_ids_of(a) + round_ids_of(b),
{
    assert(round_ids_of(a + b) =~= round_ids_of(a) + round_ids_of(b));
}

/// The identifiers of a stretch of rounds laid out with identifiers `rids`.
proof fn lemma_round_ids_segment(rs: Seq<Round>, rids: Seq<Seq<char>>, tid: Seq<char>, from: int, to: int)
    requires
        rs.len() == rids.len(),
        forall|k: int| #![trigger rs[k]] 0 <= k < rs.len() ==> rs[k].id@ == rids[k] && rs[k].tournament_id@ == tid,
        0 <= from <= to <= rs.len(),
    ensures
        round_ids_of(rs.subrange(from, to)) == rids.subrange(from, to),
        forall|k: int| #![trigger rs.subrange(from, to)[k]] 0 <= k < to - from
            ==> rs.subrange(from, to)[k].id@ == rids.subrange(from, to)[k] && rs.subrange(from, to)[k].tournament_id@ == tid,
{
    assert forall|k: int| 0 <= k < to - from implies #[trigger] round_ids_of(rs.subrange(from, to))[k] == rids.subrange(from, to)[k]
        && rs.subrange(from, to)[k].tournament_id@ == tid by {
        assert(rs.subrange(from, to)[k] == rs[from + k]);
        assert(rs[from + k].id@ == rids[from + k] && rs[from + k].tournament_id@ == tid);
    }
    assert(round_ids_of(rs.subrange(from, to)) =~= rids.subrange(from, to));
}

/// What an elimination build leaves behind: the bracket laid out with the
/// identifiers of its rounds and matches, which were fresh, in a store
/// cleared of the tournament's old bracket, with every BYE resolved.
pub open spec fn elimination_built(
    pre: TournamentStore,
    post: TournamentStore,
    tid: Seq<char>,
    ps: Seq<Participant>,
    dbl: bool,
    rs: Seq<Round>,
    ms: Seq<Match>,
) -> bool {
    let r = bracket_rounds(ps.len() as int);
    let crs = cleared_rounds(pre.round_rows(), tid);
    let cms = cleared_matches(pre.round_rows(), pre.match_rows(), tid);
    &&& rounds_ok(rs, tid, round_ids_of(rs), r, dbl)
    &&& matches_ok(ms, tid, match_id_texts(ms), round_ids_of(rs), by_seed(ps), r, dbl)
    &&& has_tournament(pre.tournament_rows(), tid)
    &&& ids_fresh(round_ids_of(crs), round_ids_of(rs))
    &&& ids_fresh(match_id_texts(cms), match_id_texts(ms))
    &&& post.round_rows() == crs + rs
    &&& exists|bye_id: String, bye_name: String| bye_id@ == "BYE_ID"@ && bye_name@ == "BYE"@
        && post.match_rows() == swept(crs + rs, cms + ms, tid, bye_id, bye_name)
}

/// How an elimination build of the planned rounds `rs` and matches `ms`
/// fails, step by step: the upper rounds, the lower rounds, the grand final
/// round, then the matches are inserted in order; the first row that cannot
/// go in stops the build, the rows inserted before it stay, and the error
/// names the step and the reason.
pub open spec fn elimination_failure(
    pre: TournamentStore,
    post: TournamentStore,
    tid: Seq<char>,
    rs: Seq<Round>,
    ms: Seq<Match>,
    rn: nat,
    dbl: bool,
    e: Seq<char>,
) -> bool {
    let crs = cleared_rounds(pre.round_rows(), tid);
    let cms = cleared_matches(pre.round_rows(), pre.match_rows(), tid);
    let ts = pre.tournament_rows();
    let r = rn as int;
    let le = 3 * r - 2;
    &&& post.tournament_rows() == ts
    &&& post.participant_rows() == pre.participant_rows()
    &&& {
        ||| exists|k: int| #[trigger] rounds_stop_at(crs, ts, rs.take(r), k)
            && post.round_rows() == crs + rs.take(k) && post.match_rows() == cms
            && e == "Failed to create round: "@ + round_refusal(crs + rs.take(k), rs[k])
        ||| has_lower(rn, dbl) && rounds_insertable(crs, ts, rs.take(r))
            && exists|k: int| #[trigger] rounds_stop_at(crs + rs.take(r), ts, rs.subrange(r, le), k)
            && post.round_rows() == crs + rs.take(r + k) && post.match_rows() == cms
            && e == "Failed to create lower round: "@ + round_refusal(crs + rs.take(r + k), rs[r + k])
        ||| has_lower(rn, dbl) && rounds_insertable(crs, ts, rs.take(le))
            && rounds_stop_at(crs + rs.take(le), ts, rs.subrange(le, le + 1), 0)
            && post.round_rows() == crs + rs.take(le) && post.match_rows() == cms
            && e == "Failed to create GF round: "@ + round_refusal(crs + rs.take(le), rs[le])
        ||| rounds_insertable(crs, ts, rs)
            && exists|k: int| #[trigger] matches_stop_at(cms, crs + rs, ts, ms, k)
            && post.round_rows() == crs + rs && post.match_rows() == cms + ms.take(k)
            && e == "Failed to create match: "@ + match_refusal(cms + ms.take(k), ms[k])
    }
}

/// An elimination build for `ps` with some round and match identifiers
/// failed as `elimination_failure` describes, with the error `e`.
pub open spec fn elimination_failed(pre: TournamentStore, post: TournamentStore, tid: Seq<char>, ps: Seq<Participant>, dbl: bool, e: Seq<char>) -> bool {
    let rn = bracket_rounds(ps.len() as int);
    exists|rids: Seq<Seq<char>>, mids: Seq<Seq<char>>, rs: Seq<Round>, ms: Seq<Match>|
        #![trigger rounds_ok(rs, tid, rids, rn, dbl), matches_ok(ms, tid, mids, rids, by_seed(ps), rn, dbl)]
        rounds_ok(rs, tid, rids, rn, dbl) && matches_ok(ms, tid, mids, rids, by_seed(ps), rn, dbl)
        && elimination_failure(pre, post, tid, rs, ms, rn, dbl, e)
}

/// A round-robin build of the planned rounds `rs` and matches `ms` (`per`
/// matches a round) stopped at round `k`: the rounds and matches before it
/// went in, round `k` did not, and the error names the step and the reason.
pub open spec fn rr_round_stop(pre: TournamentStore, post: TournamentStore, tid: Seq<char>, rs: Seq<Round>, ms: Seq<Match>, per: int, k: int, e: Seq<char>) -> bool {
    let crs = cleared_rounds(pre.round_rows(), tid);
    let cms = cleared_matches(pre.round_rows(), pre.match_rows(), tid);
    &&& 0 <= k < rs.len()
    &&& !round_fits(crs + rs.take(k), pre.tournament_rows(), rs[k])
    &&& post.round_rows() == crs + rs.take(k)
    &&& post.match_rows() == cms + ms.take(k * per)
    &&& e == "Failed to create round: "@ + round_refusal(crs + rs.take(k), rs[k])
}

/// A round-robin build stopped at match `j` of round `k`: round `k` and
/// everything before that match went in, the match did not, and the error
/// names the step and the reason.
pub open spec fn rr_match_stop(pre: TournamentStore, post: TournamentStore, tid: Seq<char>, rs: Seq<Round>, ms: Seq<Match>, per: int, k: int, j: int, e: Seq<char>) -> bool {
    let crs = cleared_rounds(pre.round_rows(), tid);
    let cms = cleared_matches(pre.round_rows(), pre.match_rows(), tid);
    let f = k * per + j;
    &&& 0 <= k < rs.len()
    &&& 0 <= j < per
    &&& f < ms.len()
    &&& !match_fits(cms + ms.take(f), crs + rs.take(k + 1), pre.tournament_rows(), ms[f])
    &&& post.round_rows() == crs + rs.take(k + 1)
    &&& post.match_rows() == cms + ms.take(f)
    &&& e == "Failed to create match: "@ + match_refusal(cms + ms.take(f), ms[f])
}

/// How a round-robin build of `rs` and `ms` fails: each round goes in, then
/// its matches; the first row that cannot go in stops the build.
pub open spec fn round_robin_failure(pre: TournamentStore, post: TournamentStore, tid: Seq<char>, rs: Seq<Round>, ms: Seq<Match>, per: int, e: Seq<char>) -> bool {
    &&& post.tournament_rows() == pre.tournament_rows()
    &&& post.participant_rows() == pre.participant_rows()
    &&& {
        ||| exists|k: int| #[trigger] rr_round_stop(pre, post, tid, rs, ms, per, k, e)
        ||| exists|k: int, j: int| #[trigger] rr_match_stop(pre, post, tid, rs, ms, per, k, j, e)
    }
}

/// A round-robin build for `ps` with some round and match identifiers
/// failed as `round_robin_failure` describes, with the error `e`.
pub open spec fn round_robin_failed(pre: TournamentStore, post: TournamentStore, tid: Seq<char>, ps: Seq<Participant>, e: Seq<char>) -> bool {
    exists|rids: Seq<Seq<char>>, mids: Seq<Seq<char>>, rs: Seq<Round>, ms: Seq<Match>|
        #![trigger rr_rounds_ok(rs, tid, rids, ps.len() as int), rr_matches_ok(ms, tid, mids, rids, by_seed(ps))]
        rr_rounds_ok(rs, tid, rids, ps.len() as int) && rr_matches_ok(ms, tid, mids, rids, by_seed(ps))
        && round_robin_failure(pre, post, tid, rs, ms, rr_per_round(ps.len() as int), e)
}

/// What a round-robin build leaves behind: the schedule laid out with the
/// identifiers of its rounds and matches, which were fresh, in a store
/// cleared of the tournament's old bracket.
pub open spec fn round_robin_built(
    pre: TournamentStore,
    post: TournamentStore,
    tid: Seq<char>,
    ps: Seq<Participant>,
    rs: Seq<Round>,
    ms: Seq<Match>,
) -> bool {
    let crs = cleared_rounds(pre.round_rows(), tid);
    let cms = cleared_matches(pre.round_rows(), pre.match_rows(), tid);
    &&& rr_rounds_ok(rs, tid, round_ids_of(rs), ps.len() as int)
    &&& rr_matches_ok(ms, tid, match_id_texts(ms), round_ids_of(rs), by_seed(ps))
    &&& has_tournament(pre.tournament_rows(), tid)
    &&& ids_fresh(round_ids_of(crs), round_ids_of(rs))
    &&& ids_fresh(match_id_texts(cms), match_id_texts(ms))
    &&& post.round_rows() == crs + rs
    &&& post.match_rows() == cms + ms
}

/// The matches of round `k` of a round robin carry their identifiers, the
/// tournament, and the identifier of round `k`.
proof fn lemma_rr_segment(ms: Seq<Match>, tid: Seq<char>, ids: Seq<Seq<char>>, rids: Seq<Seq<char>>, seeded: Seq<Participant>, k: int)
    requires
        rr_matches_ok(ms, tid, ids, rids, seeded),
        flat_ok(ms, tid, ids, rids),
        0 <= k < rr_rounds(seeded.len() as int),
        rids.len() == rr_rounds(seeded.len() as int),
        2 <= seeded.len() <= 0x10000,
    ensures
        ({
            let per = rr_per_round(seeded.len() as int);
            flat_ok(ms.subrange(k * per, k * per + per), tid, ids.subrange(k * per, k * per + per), rids.subrange(0, k + 1))
        }),
{
    let per = rr_per_round(seeded.len() as int);
    let total = rr_rounds(seeded.len() as int);
    assert(per <= 0x8001 && total <= 0x10000);
    lemma_rr_index(k, 0, per, total);
    let seg = ms.subrange(k * per, k * per + per);
    let sid = ids.subrange(k * per, k * per + per);
    let r1 = rids.subrange(0, k + 1);
    assert(seg.len() == sid.len());
    assert forall|f: int| 0 <= f < seg.len() implies #[trigger] seg[f].id@ == sid[f] && seg[f].tournament_id@ == tid && r1.contains(seg[f].round_id@) by {
        lemma_rr_index(k, f, per, total);
        assert(rr_match_ok(ms, tid, ids, rids, seeded, k, f));
        assert(seg[f] == ms[k * per + f]);
        assert(r1[k] == rids[k]);
    }
    assert(flat_prefix_ok(seg, tid, sid, r1));
}

/// Every identifier given out is a UUID text.
pub open spec fn uuid_ids(rs: Seq<Round>, ms: Seq<Match>) -> bool {
    &&& forall|k: int| 0 <= k < rs.len() ==> is_uuid_text(#[trigger] rs[k].id@)
    &&& forall|k: int| 0 <= k < ms.len() ==> is_uuid_text(#[trigger] ms[k].id@)
}

/// What generating an elimination bracket (double when `dbl`) for `ps` in
/// tournament `tid` leaves, whatever identifiers came out of the generator:
/// too few entrants are refused with the store untouched; otherwise the
/// tournament and participant tables stay as they were, a missing
/// tournament is an error, and a success has built the bracket.
pub open spec fn elimination_outcome(
    pre: TournamentStore,
    post: TournamentStore,
    tid: Seq<char>,
    ps: Seq<Participant>,
    dbl: bool,
    r: Result<(Vec<Round>, Vec<Match>), String>,
) -> bool {
    if ps.len() < 2 {
        is_err_with(r, "Need at least 2 participants to generate a bracket."@) && post.same_rows(&pre)
    } else {
        &&& post.tournament_rows() == pre.tournament_rows()
        &&& post.participant_rows() == pre.participant_rows()
        &&& !has_tournament(pre.tournament_rows(), tid) ==> r is Err
        &&& match r {
            Ok((rs, ms)) => elimination_built(pre, post, tid, ps, dbl, rs@, ms@) && uuid_ids(rs@, ms@),
            Err(e) => starts_with(e@, "Failed to create "@) && elimination_failed(pre, post, tid, ps, dbl, e@),
        }
    }
}

/// What generating a round robin for `ps` in tournament `tid` leaves,
/// whatever identifiers came out of the generator.
pub open spec fn round_robin_outcome(
    pre: TournamentStore,
    post: TournamentStore,
    tid: Seq<char>,
    ps: Seq<Participant>,
    r: Result<(Vec<Round>, Vec<Match>), String>,
) -> bool {
    if ps.len() < 2 {
        is_err_with(r, "Need at least 2 participants for Round Robin."@) && post.same_rows(&pre)
    } else {
        &&& post.tournament_rows() == pre.tournament_rows()
        &&& post.participant_rows() == pre.participant_rows()
        &&& !has_tournament(pre.tournament_rows(), tid) ==> r is Err
        &&& match r {
            Ok((rs, ms)) => round_robin_built(pre, post, tid, ps, rs@, ms@) && uuid_ids(rs@, ms@),
            Err(e) => starts_with(e@, "Failed to create "@) && round_robin_failed(pre, post, tid, ps, e@),
        }
    }
}

/// `count` fresh random identifiers.
fn fresh_ids(count: usize) -> (v: Vec<String>)
    ensures
        v@.len() == count,
        forall|k: int| 0 <= k < count ==> is_uuid_text(#[trigger] v@[k]@),
{
    let mut v: Vec<String> = Vec::new();
    let mut k: usize = 0;
    while k < count
        invariant
            k <= count,
            v@.len() == k,
            forall|j: int| 0 <= j < k ==> is_uuid_text(#[trigger] v@[j]@),
        decreases count - k,
    {
        v.push(new_id());
        k = k + 1;
    }
    v
}

/// Generates brackets and schedules into a tournament store.
pub struct BracketGeneratorService {}

impl BracketGeneratorService {
    pub fn new() -> (s: Self) {
        BracketGeneratorService {}
    }

    /// Replaces the bracket of tournament `tournament_id` by a single- or
    /// double-elimination bracket for `participants`, with the given round
    /// and match identifiers; resolves the BYEs it creates. Returns the
    /// rounds and the matches as created (before BYEs were resolved).
    #[verifier::rlimit(60)]
    pub fn build_elimination(
        &self,
        store: &mut TournamentStore,
        tournament_id: &str,
        participants: &Vec<Participant>,
        is_double: bool,
        round_ids: &Vec<String>,
        match_ids: &Vec<String>,
    ) -> (r: Result<(Vec<Round>, Vec<Match>), String>)
        requires
            old(store).wf(),
            participants@.len() <= 0x4000_0000,
            participants@.len() >= 2 ==> round_ids@.len() == round_total(bracket_rounds(participants@.len() as int), is_double)
                && match_ids@.len() == match_total(bracket_rounds(participants@.len() as int), is_double),
        ensures
            final(store).wf(),
            participants@.len() < 2 ==> is_err_with(r, "Need at least 2 participants to generate a bracket."@)
                && final(store).same_rows(old(store)),
            participants@.len() >= 2 ==> final(store).tournament_rows() == old(store).tournament_rows()
                && final(store).participant_rows() == old(store).participant_rows(),
            participants@.len() >= 2 ==> (r is Ok <==> has_tournament(old(store).tournament_rows(), tournament_id@)
                && ids_fresh(round_ids_of(cleared_rounds(old(store).round_rows(), tournament_id@)), texts(round_ids@))
                && ids_fresh(match_id_texts(cleared_matches(old(store).round_rows(), old(store).match_rows(), tournament_id@)), texts(match_ids@))),
            r matches Ok((rs, ms)) ==> round_ids_of(rs@) == texts(round_ids@) && match_id_texts(ms@) == texts(match_ids@)
                && elimination_built(*old(store), *final(store), tournament_id@, participants@, is_double, rs@, ms@),
            participants@.len() >= 2 ==> (r matches Err(e) ==> starts_with(e@, "Failed to create "@)
                && exists|rs: Seq<Round>, ms: Seq<Match>|
                #![trigger rounds_ok(rs, tournament_id@, texts(round_ids@), bracket_rounds(participants@.len() as int), is_double),
                    matches_ok(ms, tournament_id@, texts(match_ids@), texts(round_ids@), by_seed(participants@),
                    bracket_rounds(participants@.len() as int), is_double)]
                rounds_ok(rs, tournament_id@, texts(round_ids@), bracket_rounds(participants@.len() as int), is_double)
                && matches_ok(ms, tournament_id@, texts(match_ids@), texts(round_ids@), by_seed(participants@),
                    bracket_rounds(participants@.len() as int), is_double)
                && elimination_failure(*old(store), *final(store), tournament_id@, rs, ms,
                    bracket_rounds(participants@.len() as int), is_double, e@)),
    {
        let ghost pre = *store;
        let ghost tid = tournament_id@;
        let n = participants.len();
        if n < 2 {
            return Err(String::from_str("Need at least 2 participants to generate a bracket."));
        }
        proof {
            reveal_strlit("Failed to create ");
            reveal_strlit("Failed to create round: ");
            reveal_strlit("Failed to create lower round: ");
            reveal_strlit("Failed to create GF round: ");
            reveal_strlit("Failed to create match: ");
            reveal_strlit("Failed to clear matches: ");
            reveal_strlit("Failed to clear rounds: ");
        }
        match store.delete_all_matches(tournament_id) {
            Ok(()) => {},
            Err(e) => {
                return Err(prefixed("Failed to clear matches: ", e));
            },
        }
        match store.delete_all_rounds(tournament_id) {
            Ok(()) => {},
            Err(e) => {
                return Err(prefixed("Failed to clear rounds: ", e));
            },
        }
        let ghost crs = cleared_rounds(pre.round_rows(), tid);
        let ghost cms = cleared_matches(pre.round_rows(), pre.match_rows(), tid);
        assert(store.round_rows() == crs);
        assert(store.match_rows() == cms);
        let ghost ts = pre.tournament_rows();
        let ghost rids = texts(round_ids@);
        let ghost mids = texts(match_ids@);
        let planned = plan_elimination(tournament_id, participants, is_double, round_ids, match_ids);
        let rs = planned.0;
        let ms = planned.1;
        let (r, _bs) = elimination_dims(n);
        let ghost rn = bracket_rounds(n as int);
        let ghost c = round_ids_of(crs);
        proof {
            assert forall|k: int| #![trigger rs@[k]] 0 <= k < rs@.len() implies rs@[k].id@ == rids[k] && rs@[k].tournament_id@ == tid by {}
            assert(round_ids_of(rs@) =~= rids);
            assert(match_id_texts(ms@) =~= mids) by {
                assert forall|f: int| 0 <= f < ms@.len() implies match_id_texts(ms@)[f] == mids[f] by {
                    assert(ms@[f].id@ == mids[f]);
                }
            }
            assert(starts_with("Failed to create round: "@, "Failed to create "@)) by {
                assert("Failed to create round: "@.subrange(0, 17) =~= "Failed to create "@);
            }
            assert(starts_with("Failed to create lower round: "@, "Failed to create "@)) by {
                assert("Failed to create lower round: "@.subrange(0, 17) =~= "Failed to create "@);
            }
            assert(starts_with("Failed to create GF round: "@, "Failed to create "@)) by {
                assert("Failed to create GF round: "@.subrange(0, 17) =~= "Failed to create "@);
            }
            assert(starts_with("Failed to create match: "@, "Failed to create "@)) by {
                assert("Failed to create match: "@.subrange(0, 17) =~= "Failed to create "@);
            }
            lemma_round_ids_segment(rs@, rids, tid, 0, r as int);
            lemma_rounds_insertable_iff(crs, ts, rs@.subrange(0, r as int), tid, rids.subrange(0, r as int));
            lemma_fresh_concat(c, rids.subrange(0, r as int), rids.subrange(r as int, rids.len() as int));
            assert(rids =~= rids.subrange(0, r as int) + rids.subrange(r as int, rids.len() as int));
        }
        match store.create_rounds(&rs, 0, r) {
            Ok(()) => {},
            Err(e) => {
                proof {
                    lemma_prefix_kept("Failed to create round: "@, e@, "Failed to create "@);
                    let k = choose|k: int| #[trigger] rounds_stop_at(crs, ts, rs@.subrange(0, r as int), k)
                        && store.round_rows() == crs + rs@.subrange(0, r as int).take(k)
                        && e@ == round_refusal(crs + rs@.subrange(0, r as int).take(k), rs@.subrange(0, r as int)[k]);
                    assert(rs@.take(r as int) =~= rs@.subrange(0, r as int));
                    assert(rs@.subrange(0, r as int).take(k) =~= rs@.take(k));
                    assert(rounds_stop_at(crs, ts, rs@.take(r as int), k));
                    assert(elimination_failure(pre, *store, tid, rs@, ms@, rn, is_double, ("Failed to create round: "@ + e@)));
                }
                return Err(prefixed("Failed to create round: ", e));
            },
        }
        let ghost r1 = rids.subrange(0, r as int);
        if is_double && r > 1 {
            let lower_end = 3 * r - 2;
            proof {
                let r2 = rids.subrange(r as int, lower_end as int);
                let r3 = rids.subrange(lower_end as int, rids.len() as int);
                assert(rids.subrange(r as int, rids.len() as int) =~= r2 + r3);
                lemma_fresh_concat(c + r1, r2, r3);
                lemma_round_ids_segment(rs@, rids, tid, r as int, lower_end as int);
                lemma_round_ids_segment(rs@, rids, tid, lower_end as int, rids.len() as int);
                lemma_round_ids_concat(crs, rs@.subrange(0, r as int));
                lemma_rounds_insertable_iff(crs + rs@.subrange(0, r as int), ts, rs@.subrange(r as int, lower_end as int), tid, r2);
            }
            match store.create_rounds(&rs, r, lower_end) {
                Ok(()) => {},
                Err(e) => {
                    proof {
                        lemma_prefix_kept("Failed to create lower round: "@, e@, "Failed to create "@);
                        let seg = rs@.subrange(r as int, lower_end as int);
                        let k = choose|k: int| #[trigger] rounds_stop_at(crs + rs@.subrange(0, r as int), ts, seg, k)
                            && store.round_rows() == crs + rs@.subrange(0, r as int) + seg.take(k)
                            && e@ == round_refusal(crs + rs@.subrange(0, r as int) + seg.take(k), seg[k]);
                        assert(rs@.take(r as int) =~= rs@.subrange(0, r as int));
                        assert(rs@.subrange(0, r as int) + seg.take(k) =~= rs@.take(r + k));
                        assert(crs + rs@.subrange(0, r as int) + seg.take(k) =~= crs + rs@.take(r + k));
                        assert(seg[k] == rs@[r + k]);
                        assert(rounds_stop_at(crs + rs@.take(r as int), ts, rs@.subrange(r as int, 3 * r - 2), k));
                        assert(elimination_failure(pre, *store, tid, rs@, ms@, rn, is_double, ("Failed to create lower round: "@ + e@)));
                    }
                    return Err(prefixed("Failed to create lower round: ", e));
                },
            }
            proof {
                let r2 = rids.subrange(r as int, lower_end as int);
                let r3 = rids.subrange(lower_end as int, rids.len() as int);
                let done = crs + rs@.subrange(0, r as int) + rs@.subrange(r as int, lower_end as int);
                lemma_round_ids_concat(crs + rs@.subrange(0, r as int), rs@.subrange(r as int, lower_end as int));
                assert(round_ids_of(done) == c + r1 + r2);
                lemma_rounds_insertable_iff(done, ts, rs@.subrange(lower_end as int, rids.len() as int), tid, r3);
            }
            match store.create_rounds(&rs, lower_end, lower_end + 1) {
                Ok(()) => {},
                Err(e) => {
                    proof {
                        lemma_prefix_kept("Failed to create GF round: "@, e@, "Failed to create "@);
                        let seg = rs@.subrange(lower_end as int, lower_end + 1);
                        let done = crs + rs@.subrange(0, r as int) + rs@.subrange(r as int, lower_end as int);
                        let k = choose|k: int| #[trigger] rounds_stop_at(done, ts, seg, k)
                            && store.round_rows() == done + seg.take(k)
                            && e@ == round_refusal(done + seg.take(k), seg[k]);
                        assert(k == 0);
                        assert(seg.take(0) =~= Seq::<Round>::empty());
                        assert(done + seg.take(k) =~= crs + rs@.take(lower_end as int));
                        assert(done =~= crs + rs@.take(lower_end as int));
                        assert(seg[k] == rs@[lower_end as int]);
                        assert(rs@.take(lower_end as int) =~= rs@.subrange(0, r as int) + rs@.subrange(r as int, lower_end as int));
                        lemma_rounds_insertable_concat(crs, ts, rs@.subrange(0, r as int), rs@.subrange(r as int, lower_end as int));
                        assert(rounds_stop_at(crs + rs@.take(lower_end as int), ts, rs@.subrange(lower_end as int, lower_end + 1), 0));
                        assert(elimination_failure(pre, *store, tid, rs@, ms@, rn, is_double, ("Failed to create GF round: "@ + e@)));
                    }
                    return Err(prefixed("Failed to create GF round: ", e));
                },
            }
            proof {
                assert(store.round_rows() =~= crs + rs@);
                let a = rs@.subrange(0, r as int);
                let b = rs@.subrange(r as int, lower_end as int);
                let g = rs@.subrange(lower_end as int, lower_end + 1);
                lemma_rounds_insertable_concat(crs, ts, a, b);
                assert(crs + a + b =~= crs + (a + b));
                lemma_rounds_insertable_concat(crs, ts, a + b, g);
                assert(rs@ =~= a + b + g);
                assert(rounds_insertable(crs, ts, rs@));
            }
        } else {
            proof {
                assert(rs@.subrange(0, r as int) =~= rs@);
                assert(store.round_rows() =~= crs + rs@);
                assert(rounds_insertable(crs, ts, rs@));
            }
        }
        proof {
            assert forall|k: int| 0 <= k < rids.len() implies has_round(crs + rs@, #[trigger] rids[k]) by {
                assert((crs + rs@)[crs.len() + k] == rs@[k]);
            }
            lemma_matches_insertable_iff(cms, crs + rs@, ts, ms@, tid, mids, rids);
            assert(ms@.subrange(0, ms@.len() as int) =~= ms@);
        }
        match store.create_matches(&ms, 0, ms.len()) {
            Ok(()) => {},
            Err(e) => {
                proof {
                    lemma_prefix_kept("Failed to create match: "@, e@, "Failed to create "@);
                    let k = choose|k: int| #[trigger] matches_stop_at(cms, crs + rs@, ts, ms@.subrange(0, ms@.len() as int), k)
                        && store.match_rows() == cms + ms@.subrange(0, ms@.len() as int).take(k)
                        && e@ == match_refusal(cms + ms@.subrange(0, ms@.len() as int).take(k), ms@.subrange(0, ms@.len() as int)[k]);
                    assert(matches_stop_at(cms, crs + rs@, ts, ms@, k));
                    assert(elimination_failure(pre, *store, tid, rs@, ms@, rn, is_double, ("Failed to create match: "@ + e@)));
                }
                return Err(prefixed("Failed to create match: ", e));
            },
        }
        sweep_byes(store, tournament_id);
        Ok((rs, ms))
    }

    /// Replaces the bracket of tournament `tournament_id` by a round-robin
    /// schedule for `participants`, with the given round and match
    /// identifiers: each round is stored, then its matches.
    #[verifier::rlimit(60)]
    pub fn build_round_robin(
        &self,
        store: &mut TournamentStore,
        tournament_id: &str,
        participants: &Vec<Participant>,
        round_ids: &Vec<String>,
        match_ids: &Vec<String>,
    ) -> (r: Result<(Vec<Round>, Vec<Match>), String>)
        requires
            old(store).wf(),
            participants@.len() <= 0x10000,
            participants@.len() >= 2 ==> round_ids@.len() == rr_rounds(participants@.len() as int)
                && match_ids@.len() == rr_rounds(participants@.len() as int) * rr_per_round(participants@.len() as int),
        ensures
            final(store).wf(),
            participants@.len() < 2 ==> is_err_with(r, "Need at least 2 participants for Round Robin."@)
                && final(store).same_rows(old(store)),
            participants@.len() >= 2 ==> final(store).tournament_rows() == old(store).tournament_rows()
                && final(store).participant_rows() == old(store).participant_rows(),
            participants@.len() >= 2 ==> (r is Ok <==> has_tournament(old(store).tournament_rows(), tournament_id@)
                && ids_fresh(round_ids_of(cleared_rounds(old(store).round_rows(), tournament_id@)), texts(round_ids@))
                && ids_fresh(match_id_texts(cleared_matches(old(store).round_rows(), old(store).match_rows(), tournament_id@)), texts(match_ids@))),
            r matches Ok((rs, ms)) ==> round_ids_of(rs@) == texts(round_ids@) && match_id_texts(ms@) == texts(match_ids@)
                && round_robin_built(*old(store), *final(store), tournament_id@, participants@, rs@, ms@),
            participants@.len() >= 2 ==> (r matches Err(e) ==> starts_with(e@, "Failed to create "@)
                && exists|rs: Seq<Round>, ms: Seq<Match>|
                #![trigger rr_rounds_ok(rs, tournament_id@, texts(round_ids@), participants@.len() as int),
                    rr_matches_ok(ms, tournament_id@, texts(match_ids@), texts(round_ids@), by_seed(participants@))]
                rr_rounds_ok(rs, tournament_id@, texts(round_ids@), participants@.len() as int)
                && rr_matches_ok(ms, tournament_id@, texts(match_ids@), texts(round_ids@), by_seed(participants@))
                && round_robin_failure(*old(store), *final(store), tournament_id@, rs, ms,
                    rr_per_round(participants@.len() as int), e@)),
    {
        let ghost pre = *store;
        let ghost tid = tournament_id@;
        let n = participants.len();
        if n < 2 {
            return Err(String::from_str("Need at least 2 participants for Round Robin."));
        }
        proof {
            reveal_strlit("Failed to create ");
            reveal_strlit("Failed to create round: ");
            reveal_strlit("Failed to create match: ");
            assert(starts_with("Failed to create round: "@, "Failed to create "@)) by {
                assert("Failed to create round: "@.subrange(0, 17) =~= "Failed to create "@);
            }
            assert(starts_with("Failed to create match: "@, "Failed to create "@)) by {
                assert("Failed to create match: "@.subrange(0, 17) =~= "Failed to create "@);
            }
        }
        match store.delete_all_matches(tournament_id) {
            Ok(()) => {},
            Err(e) => {
                return Err(prefixed("Failed to clear matches: ", e));
            },
        }
        match store.delete_all_rounds(tournament_id) {
            Ok(()) => {},
            Err(e) => {
                return Err(prefixed("Failed to clear rounds: ", e));
            },
        }
        let ghost crs = cleared_rounds(pre.round_rows(), tid);
        let ghost cms = cleared_matches(pre.round_rows(), pre.match_rows(), tid);
        assert(store.round_rows() == crs);
        assert(store.match_rows() == cms);
        let ghost ts = pre.tournament_rows();
        let ghost rids = texts(round_ids@);
        let ghost mids = texts(match_ids@);
        let ghost c = round_ids_of(crs);
        let ghost mc = match_id_texts(cms);
        let planned = plan_round_robin(tournament_id, participants, round_ids, match_ids);
        let rs = planned.0;
        let ms = planned.1;
        let total = rs.len();
        let per = if n % 2 != 0 {
            (n + 1) / 2
        } else {
            n / 2
        };
        proof {
            assert forall|k: int| #![trigger rs@[k]] 0 <= k < rs@.len() implies rs@[k].id@ == rids[k] && rs@[k].tournament_id@ == tid by {
                assert(crate::services::round_robin::rr_round_ok(rs@[k], tid, rids, k));
            }
            assert(round_ids_of(rs@) =~= rids);
            assert(match_id_texts(ms@) =~= mids) by {
                assert forall|f: int| 0 <= f < ms@.len() implies match_id_texts(ms@)[f] == mids[f] by {
                    assert(ms@[f].id@ == mids[f]);
                }
            }
            assert(rids.take(0) =~= Seq::<Seq<char>>::empty());
            assert(mids.take(0) =~= Seq::<Seq<char>>::empty());
            assert(rs@.subrange(0, 0) =~= Seq::<Round>::empty());
            assert(ms@.subrange(0, 0) =~= Seq::<Match>::empty());
            assert(store.round_rows() =~= crs + rs@.subrange(0, 0));
            assert(store.match_rows() =~= cms + ms@.subrange(0, 0));
            lemma_rr_index(0, 0, per as int, total as int);
        }
        let mut k: usize = 0;
        while k < total
            invariant
                store.wf(),
                pre == *old(store),
                starts_with("Failed to create round: "@, "Failed to create "@),
                starts_with("Failed to create match: "@, "Failed to create "@),
                2 <= n <= 0x10000,
                n == participants@.len(),
                total == rr_rounds(n as int),
                per == rr_per_round(n as int),
                rs@.len() == total,
                ms@.len() == total * per,
                rids == texts(round_ids@),
                mids == texts(match_ids@),
                rids.len() == total,
                mids.len() == total * per,
                tid == tournament_id@,
                crs == cleared_rounds(pre.round_rows(), tid),
                cms == cleared_matches(pre.round_rows(), pre.match_rows(), tid),
                c == round_ids_of(crs),
                mc == match_id_texts(cms),
                ts == pre.tournament_rows(),
                round_ids_of(rs@) == rids,
                forall|j: int| #![trigger rs@[j]] 0 <= j < rs@.len() ==> rs@[j].id@ == rids[j] && rs@[j].tournament_id@ == tid,
                rr_matches_ok(ms@, tid, mids, rids, by_seed(participants@)),
                rr_rounds_ok(rs@, tid, rids, n as int),
                by_seed(participants@).len() == n,
                flat_ok(ms@, tid, mids, rids),
                store.tournament_rows() == ts,
                store.participant_rows() == pre.participant_rows(),
                k <= total,
                store.round_rows() == crs + rs@.subrange(0, k as int),
                store.match_rows() == cms + ms@.subrange(0, k * per),
                k > 0 ==> has_tournament(ts, tid),
                ids_fresh(c, rids.take(k as int)),
                ids_fresh(mc, mids.take(k * per)),
                k * per <= total * per,
                total * per <= 0x8001_0000,
            decreases total - k,
        {
            proof {
                lemma_rr_index(k as int, 0, per as int, total as int);
                let rk = rids.subrange(k as int, k + 1);
                assert(rids.take(k + 1) =~= rids.take(k as int) + rk);
                lemma_fresh_concat(c, rids.take(k as int), rk);
                lemma_round_ids_concat(crs, rs@.subrange(0, k as int));
                assert(round_ids_of(rs@.subrange(0, k as int)) =~= rids.take(k as int));
                lemma_round_ids_segment(rs@, rids, tid, k as int, k + 1);
                lemma_rounds_insertable_iff(crs + rs@.subrange(0, k as int), ts, rs@.subrange(k as int, k + 1), tid, rk);
                assert(rids =~= rids.take(k + 1) + rids.subrange(k + 1, rids.len() as int));
                lemma_fresh_concat(c, rids.take(k + 1), rids.subrange(k + 1, rids.len() as int));
            }
            match store.create_rounds(&rs, k, k + 1) {
                Ok(()) => {},
                Err(e) => {
                    proof {
                        lemma_prefix_kept("Failed to create round: "@, e@, "Failed to create "@);
                        let cur = crs + rs@.subrange(0, k as int);
                        let seg = rs@.subrange(k as int, k + 1);
                        let j = choose|j: int| #[trigger] rounds_stop_at(cur, ts, seg, j)
                            && store.round_rows() == cur + seg.take(j)
                            && e@ == round_refusal(cur + seg.take(j), seg[j]);
                        assert(j == 0);
                        assert(seg.take(0) =~= Seq::<Round>::empty());
                        assert(cur + seg.take(j) =~= cur);
                        assert(rs@.take(k as int) =~= rs@.subrange(0, k as int));
                        assert(ms@.take(k * per) =~= ms@.subrange(0, k * per));
                        assert(seg[j] == rs@[k as int]);
                        assert(rr_round_stop(pre, *store, tid, rs@, ms@, per as int, k as int, "Failed to create round: "@ + e@));
                        assert(round_robin_failure(pre, *store, tid, rs@, ms@, per as int, "Failed to create round: "@ + e@));
                    }
                    return Err(prefixed("Failed to create round: ", e));
                },
            }
            let from = k * per;
            let to = k * per + per;
            proof {
                assert(store.round_rows() =~= crs + rs@.subrange(0, k + 1));
                lemma_rr_segment(ms@, tid, mids, rids, by_seed(participants@), k as int);
                let r1 = rids.subrange(0, k + 1);
                assert forall|j: int| 0 <= j < r1.len() implies has_round(store.round_rows(), #[trigger] r1[j]) by {
                    assert(store.round_rows()[crs.len() + j] == rs@[j]);
                }
                let seg = ms@.subrange(from as int, to as int);
                let sid = mids.subrange(from as int, to as int);
                lemma_matches_insertable_iff(cms + ms@.subrange(0, from as int), store.round_rows(), ts, seg, tid, sid, r1);
                assert(match_id_texts(cms + ms@.subrange(0, from as int)) =~= mc + mids.take(from as int)) by {
                    assert forall|f: int| 0 <= f < from implies ms@.subrange(0, from as int)[f].id@ == mids[f] by {
                        assert(ms@[f].id@ == mids[f]);
                    }
                }
                assert(mids.take(to as int) =~= mids.take(from as int) + sid);
                lemma_fresh_concat(mc, mids.take(from as int), sid);
                assert(mids =~= mids.take(to as int) + mids.subrange(to as int, mids.len() as int));
                lemma_fresh_concat(mc, mids.take(to as int), mids.subrange(to as int, mids.len() as int));
            }
            match store.create_matches(&ms, from, to) {
                Ok(()) => {},
                Err(e) => {
                    proof {
                        lemma_prefix_kept("Failed to create match: "@, e@, "Failed to create "@);
                        let cur = cms + ms@.subrange(0, from as int);
                        let seg = ms@.subrange(from as int, to as int);
                        let rrows = store.round_rows();
                        let j = choose|j: int| #[trigger] matches_stop_at(cur, rrows, ts, seg, j)
                            && store.match_rows() == cur + seg.take(j)
                            && e@ == match_refusal(cur + seg.take(j), seg[j]);
                        assert(cur + seg.take(j) =~= cms + ms@.take(from + j));
                        assert(seg[j] == ms@[from + j]);
                        assert(rrows =~= crs + rs@.take(k + 1));
                        assert(!match_fits(cur + seg.take(j), rrows, ts, seg[j]));
                        assert(rr_match_stop(pre, *store, tid, rs@, ms@, per as int, k as int, j, "Failed to create match: "@ + e@));
                        assert(round_robin_failure(pre, *store, tid, rs@, ms@, per as int, "Failed to create match: "@ + e@));
                    }
                    return Err(prefixed("Failed to create match: ", e));
                },
            }
            proof {
                assert(store.match_rows() =~= cms + ms@.subrange(0, to as int));
                assert((k + 1) * per == to) by (nonlinear_arith)
                    requires
                        to == k * per + per,
                ;
                lemma_rr_index(k as int, 0, per as int, total as int);
            }
            k = k + 1;
        }
        proof {
            assert(rs@.subrange(0, total as int) =~= rs@);
            assert(ms@.subrange(0, total * per) =~= ms@);
            assert(rids.take(total as int) =~= rids);
            assert(mids.take(total * per) =~= mids);
        }
        Ok((rs, ms))
    }

    fn generate_elimination(
        &self,
        store: &mut TournamentStore,
        tournament_id: &str,
        participants: &Vec<Participant>,
        is_double: bool,
    ) -> (r: Result<(Vec<Round>, Vec<Match>), String>)
        requires
            old(store).wf(),
            participants@.len() <= 0x4000_0000,
        ensures
            final(store).wf(),
            elimination_outcome(*old(store), *final(store), tournament_id@, participants@, is_double, r),
    {
        let n = participants.len();
        if n < 2 {
            return self.build_elimination(store, tournament_id, participants, is_double, &Vec::new(), &Vec::new());
        }
        let (round_count, match_count) = elimination_size(n, is_double);
        let round_ids = fresh_ids(round_count);
        let match_ids = fresh_ids(match_count);
        let r = self.build_elimination(store, tournament_id, participants, is_double, &round_ids, &match_ids);
        let ghost rr = r;
        proof {
            if let Ok((rs, ms)) = rr {
                assert forall|k: int| 0 <= k < rs@.len() implies is_uuid_text(#[trigger] rs@[k].id@) by {
                    assert(round_ids_of(rs@)[k] == texts(round_ids@)[k]);
                }
                assert forall|k: int| 0 <= k < ms@.len() implies is_uuid_text(#[trigger] ms@[k].id@) by {
                    assert(match_id_texts(ms@)[k] == texts(match_ids@)[k]);
                }
            }
            if let Err(e) = rr {
                let rn = bracket_rounds(n as int);
                let rids = texts(round_ids@);
                let mids = texts(match_ids@);
                let (frs, fms) = choose|frs: Seq<Round>, fms: Seq<Match>|
                    #![trigger rounds_ok(frs, tournament_id@, rids, rn, is_double),
                        matches_ok(fms, tournament_id@, mids, rids, by_seed(participants@), rn, is_double)]
                    rounds_ok(frs, tournament_id@, rids, rn, is_double)
                    && matches_ok(fms, tournament_id@, mids, rids, by_seed(participants@), rn, is_double)
                    && elimination_failure(*old(store), *store, tournament_id@, frs, fms, rn, is_double, e@);
                assert(rounds_ok(frs, tournament_id@, rids, rn, is_double));
                assert(matches_ok(fms, tournament_id@, mids, rids, by_seed(participants@), rn, is_double));
                assert(elimination_failed(*old(store), *store, tournament_id@, participants@, is_double, e@));
            }
        }
        r
    }

    fn generate_double_elimination(
        &self,
        store: &mut TournamentStore,
        tournament_id: &str,
        participants: &Vec<Participant>,
    ) -> (r: Result<(Vec<Round>, Vec<Match>), String>)
        requires
            old(store).wf(),
            participants@.len() <= 0x4000_0000,
        ensures
            final(store).wf(),
            elimination_outcome(*old(store), *final(store), tournament_id@, participants@, true, r),
    {
        self.generate_elimination(store, tournament_id, participants, true)
    }

    fn generate_round_robin(
        &self,
        store: &mut TournamentStore,
        tournament_id: &str,
        participants: &Vec<Participant>,
    ) -> (r: Result<(Vec<Round>, Vec<Match>), String>)
        requires
            old(store).wf(),
            participants@.len() <= 0x10000,
        ensures
            final(store).wf(),
            round_robin_outcome(*old(store), *final(store), tournament_id@, participants@, r),
    {
        let n = participants.len();
        if n < 2 {
            return self.build_round_robin(store, tournament_id, participants, &Vec::new(), &Vec::new());
        }
        let (rounds, per) = round_robin_size(n);
        proof {
            lemma_rr_index(0, 0, per as int, rounds as int);
        }
        let round_ids = fresh_ids(rounds);
        let match_ids = fresh_ids(rounds * per);
        let r = self.build_round_robin(store, tournament_id, participants, &round_ids, &match_ids);
        let ghost rr = r;
        proof {
            if let Ok((rs, ms)) = rr {
                assert forall|k: int| 0 <= k < rs@.len() implies is_uuid_text(#[trigger] rs@[k].id@) by {
                    assert(round_ids_of(rs@)[k] == texts(round_ids@)[k]);
                }
                assert forall|k: int| 0 <= k < ms@.len() implies is_uuid_text(#[trigger] ms@[k].id@) by {
                    assert(match_id_texts(ms@)[k] == texts(match_ids@)[k]);
                }
            }
            if let Err(e) = rr {
                let rids = texts(round_ids@);
                let mids = texts(match_ids@);
                let (frs, fms) = choose|frs: Seq<Round>, fms: Seq<Match>|
                    #![trigger rr_rounds_ok(frs, tournament_id@, rids, n as int),
                        rr_matches_ok(fms, tournament_id@, mids, rids, by_seed(participants@))]
                    rr_rounds_ok(frs, tournament_id@, rids, n as int)
                    && rr_matches_ok(fms, tournament_id@, mids, rids, by_seed(participants@))
                    && round_robin_failure(*old(store), *store, tournament_id@, frs, fms, rr_per_round(n as int), e@);
                assert(rr_rounds_ok(frs, tournament_id@, rids, n as int));
                assert(rr_matches_ok(fms, tournament_id@, mids, rids, by_seed(participants@)));
                assert(round_robin_failed(*old(store), *store, tournament_id@, participants@, e@));
            }
        }
        r
    }

    /// Generates the bracket of tournament `tournament_id` for its
    /// `participants`: a round-robin schedule, a double-elimination bracket,
    /// or (for any other type) a single-elimination bracket. The tournament's
    /// previous rounds and matches are replaced.
    pub fn generate_bracket(
        &self,
        store: &mut TournamentStore,
        tournament_id: &str,
        participants: &Vec<Participant>,
        tournament_type: &TournamentType,
    ) -> (r: Result<(Vec<Round>, Vec<Match>), String>)
        requires
            old(store).wf(),
            participants@.len() <= 0x4000_0000,
            *tournament_type == TournamentType::RoundRobin ==> participants@.len() <= 0x10000,
        ensures
            final(store).wf(),
            *tournament_type == TournamentType::RoundRobin ==> round_robin_outcome(*old(store), *final(store), tournament_id@, participants@, r),
            *tournament_type != TournamentType::RoundRobin ==> elimination_outcome(*old(store), *final(store), tournament_id@, participants@,
                *tournament_type == TournamentType::DoubleElimination, r),
    {
        match tournament_type {
            TournamentType::RoundRobin => self.generate_round_robin(store, tournament_id, participants),
            TournamentType::DoubleElimination => self.generate_double_elimination(store, tournament_id, participants),
            _ => self.generate_elimination(store, tournament_id, participants, false),
        }
    }
}

} // verus!
