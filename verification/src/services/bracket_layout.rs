use vstd::prelude::*;
use crate::domain::match_model::{BracketType, Match, MatchStatus};
use crate::domain::participant::Participant;
use crate::domain::round::Round;
use crate::sorting::{keep_all, sorted_selection};
use crate::text::decimal;
use crate::utils::{lemma_pow2_monotone, pow2, round_title, seed_order};

verus! {

// ─── Sizes and flat positions ───────────────────────────────────────────
//
// An elimination bracket with `r` upper rounds has 2^r slots. Its matches
// are listed flat: the upper rounds in order, then the lower rounds in
// order, then the grand final; within a round by match order.

/// The number of upper rounds for `n` entrants: the `r >= 1` with
/// 2^(r-1) < n <= 2^r.
pub open spec fn bracket_rounds(n: int) -> nat {
    choose|r: nat| r >= 1 && pow2((r - 1) as nat) < n <= #[trigger] pow2(r)
}

/// Matches in upper round `ri` (counted from 0).
pub open spec fn upper_count(r: nat, ri: int) -> int {
    pow2((r - ri - 1) as nat) as int
}

/// Flat position of the first match of upper round `ri`.
pub open spec fn upper_start(r: nat, ri: int) -> int {
    pow2(r) - pow2((r - ri) as nat)
}

/// A double-elimination bracket grows a lower bracket and a grand final
/// only when it has more than one upper round.
pub open spec fn has_lower(r: nat, dbl: bool) -> bool {
    dbl && r > 1
}

/// Number of lower rounds.
pub open spec fn lower_total(r: nat) -> int {
    2 * (r - 1)
}

/// Matches in lower round `l` (counted from 0): a quarter of the slots,
/// halved after every second round.
pub open spec fn lower_count(r: nat, l: int) -> int {
    pow2((r - 2 - l / 2) as nat) as int
}

/// Flat position of the first match of lower round `l`.
pub open spec fn lower_start(r: nat, l: int) -> int
    decreases l,
{
    if l <= 0 {
        pow2(r) - 1
    } else {
        lower_start(r, l - 1) + lower_count(r, l - 1)
    }
}

/// Flat position of the grand final.
pub open spec fn grand_final_at(r: nat) -> int {
    2 * pow2(r) - 3
}

/// Number of rounds the bracket creates.
pub open spec fn round_total(r: nat, dbl: bool) -> int {
    if has_lower(r, dbl) {
        3 * r - 1
    } else {
        r as int
    }
}

/// Number of matches the bracket creates.
pub open spec fn match_total(r: nat, dbl: bool) -> int {
    if has_lower(r, dbl) {
        2 * pow2(r) - 2
    } else {
        pow2(r) - 1
    }
}

/// The bracket-rounds count is the unique exponent that brackets `n`.
pub proof fn lemma_bracket_rounds(n: int, r: nat)
    requires
        r >= 1,
        pow2((r - 1) as nat) < n <= pow2(r),
    ensures
        bracket_rounds(n) == r,
{
    let c = bracket_rounds(n);
    assert(c >= 1 && pow2((c - 1) as nat) < n <= pow2(c));
    if c < r {
        lemma_pow2_monotone(c, (r - 1) as nat);
    } else if c > r {
        lemma_pow2_monotone(r, (c - 1) as nat);
    }
}

/// Successive upper rounds follow one another, each half the size of the
/// one before.
pub proof fn lemma_upper_step(r: nat, ri: int)
    requires
        0 <= ri < r,
    ensures
        upper_start(r, ri + 1) == upper_start(r, ri) + upper_count(r, ri),
        upper_start(r, 0) == 0,
        upper_count(r, ri) >= 1,
        ri + 1 < r ==> upper_count(r, ri) == 2 * upper_count(r, ri + 1),
        upper_start(r, r as int) == pow2(r) - 1,
        0 <= upper_start(r, ri),
        upper_start(r, ri + 1) <= pow2(r) - 1,
{
    assert(pow2((r - ri) as nat) == 2 * pow2((r - ri - 1) as nat));
    if ri + 1 < r {
        assert(pow2((r - ri - 1) as nat) == 2 * pow2((r - (ri + 1) - 1) as nat));
    }
    assert(pow2(0) == 1);
    lemma_pow2_monotone((r - ri) as nat, r);
    lemma_pow2_monotone(0, (r - ri - 1) as nat);
}

/// Closed forms of the lower-round starts: after `t` pairs of lower rounds,
/// 2^r - 2^(r-t) lower matches precede.
pub proof fn lemma_lower_start(r: nat, t: int)
    requires
        r >= 2,
        0 <= t <= r - 1,
    ensures
        lower_start(r, 2 * t) == 2 * pow2(r) - 1 - pow2((r - t) as nat),
        t < r - 1 ==> lower_start(r, 2 * t + 1) == lower_start(r, 2 * t) + pow2((r - t - 2) as nat),
        t < r - 1 ==> lower_count(r, 2 * t) == pow2((r - t - 2) as nat) && lower_count(r, 2 * t + 1) == pow2((r - t - 2) as nat),
        t < r - 1 ==> pow2((r - t) as nat) == 4 * pow2((r - t - 2) as nat),
    decreases t,
{
    assert(pow2((r - t) as nat) == 2 * pow2((r - t - 1) as nat));
    if t < r - 1 {
        assert(pow2((r - t - 1) as nat) == 2 * pow2((r - t - 2) as nat));
        assert((2 * t) / 2 == t);
        assert((2 * t + 1) / 2 == t);
    }
    if t == 0 {
        assert(lower_start(r, 0) == pow2(r) - 1);
    } else {
        lemma_lower_start(r, t - 1);
        assert((2 * (t - 1)) / 2 == t - 1);
        assert((2 * (t - 1) + 1) / 2 == t - 1);
        assert(lower_start(r, 2 * t) == lower_start(r, 2 * t - 1) + lower_count(r, 2 * t - 1));
        assert(lower_start(r, 2 * t - 1) == lower_start(r, 2 * t - 2) + lower_count(r, 2 * t - 2));
    }
}

/// Each lower round lies between the upper bracket and the grand final,
/// the last one ends at the grand final, and the rounds of a pair have
/// equal size while the next pair is half as large.
pub proof fn lemma_lower_bound(r: nat, l: int)
    requires
        r >= 2,
        0 <= l < lower_total(r),
    ensures
        pow2(r) - 1 <= lower_start(r, l),
        lower_count(r, l) >= 1,
        lower_start(r, l) + lower_count(r, l) == lower_start(r, l + 1),
        lower_start(r, l + 1) <= grand_final_at(r),
        lower_start(r, lower_total(r)) == grand_final_at(r),
        l % 2 == 0 ==> lower_count(r, l + 1) == lower_count(r, l),
        l % 2 == 1 && l + 1 < lower_total(r) ==> lower_count(r, l) == 2 * lower_count(r, l + 1),
{
    let t = l / 2;
    lemma_lower_start(r, t);
    lemma_lower_start(r, r - 1);
    assert(pow2(1) == 2) by {
        assert(pow2(0) == 1);
    }
    assert(((r - (r - 1)) as nat) == 1);
    lemma_pow2_monotone(0, (r - t - 2) as nat);
    lemma_pow2_monotone((r - t) as nat, r);
    assert(pow2(0) == 1);
    if l % 2 == 0 {
        assert(l == 2 * t);
        assert((l + 1) / 2 == t);
    } else {
        assert(l == 2 * t + 1);
        assert((l + 1) / 2 == t + 1);
        if t + 1 < r - 1 {
            lemma_lower_start(r, t + 1);
        } else {
            assert(l + 1 == lower_total(r));
        }
    }
}

// ─── Seeding ────────────────────────────────────────────────────────────

/// The sort keys of the entrants: their seeds.
pub open spec fn seed_keys(ps: Seq<Participant>) -> Seq<(i32, i32)> {
    ps.map_values(|p: Participant| (p.seed, 0i32))
}

/// The entrants in ascending seed order, equal seeds in the order given (a
/// stable sort by seed).
pub open spec fn by_seed(ps: Seq<Participant>) -> Seq<Participant> {
    sorted_selection(seed_keys(ps), keep_all(ps.len())).map_values(|k: int| ps[k])
}

/// The entrant placed at bracket slot `k`: the one whose rank in seed order
/// the seeding order of the 2^r slots puts there, if there are that many
/// entrants.
pub open spec fn seated(seeded: Seq<Participant>, r: nat, k: int) -> Option<Participant> {
    let pos = seed_order(pow2(r))[k];
    if pos <= seeded.len() {
        Some(seeded[pos - 1])
    } else {
        None
    }
}

// ─── Matches ────────────────────────────────────────────────────────────

/// `o` holds a string with text `t`.
pub open spec fn names_text(o: Option<String>, t: Seq<char>) -> bool {
    o matches Some(s) && s@ == t
}

/// The link fields point at the match at flat position `target`, slot `slot`.
pub open spec fn links_to(link: Option<String>, link_slot: i32, ids: Seq<Seq<char>>, target: int, slot: int) -> bool {
    names_text(link, ids[target]) && link_slot == slot
}

/// Fields every generated match has: its identifier from the list, the
/// tournament, its round, its order within the round, no scores.
pub open spec fn shell_ok(
    m: Match,
    tid: Seq<char>,
    ids: Seq<Seq<char>>,
    rids: Seq<Seq<char>>,
    f: int,
    round: int,
    order: int,
    bt: BracketType,
) -> bool {
    &&& m.id@ == ids[f]
    &&& m.tournament_id@ == tid
    &&& m.round_id@ == rids[round]
    &&& m.match_order == order
    &&& m.score1 == 0
    &&& m.score2 == 0
    &&& m.bracket_type == bt
}

/// A match still waiting for both players.
pub open spec fn no_players(m: Match) -> bool {
    &&& m.player1_id is None
    &&& m.player2_id is None
    &&& m.player1_name@ == Seq::<char>::empty()
    &&& m.player2_name@ == Seq::<char>::empty()
    &&& m.winner_id is None
    &&& m.status == MatchStatus::Pending
}

/// Player slots, winner and status of first-round match `mi`: it seats
/// the entrants of bracket slots `2mi` and `2mi+1`; a lone entrant faces the
/// BYE placeholder and wins outright.
pub open spec fn seat_fields_ok(
    p1: Option<String>,
    n1: String,
    p2: Option<String>,
    n2: String,
    winner: Option<String>,
    status: MatchStatus,
    seeded: Seq<Participant>,
    r: nat,
    mi: int,
) -> bool {
    match (seated(seeded, r, 2 * mi), seated(seeded, r, 2 * mi + 1)) {
        (Some(a), Some(b)) => {
            &&& p1 == Some(a.id)
            &&& n1 == a.name
            &&& p2 == Some(b.id)
            &&& n2 == b.name
            &&& winner is None
            &&& status == MatchStatus::InProgress
        },
        (Some(a), None) => {
            &&& p1 == Some(a.id)
            &&& n1 == a.name
            &&& names_text(p2, "BYE_ID"@)
            &&& n2@ == "BYE"@
            &&& winner == Some(a.id)
            &&& status == MatchStatus::Bye
        },
        (None, Some(b)) => {
            &&& names_text(p1, "BYE_ID"@)
            &&& n1@ == "BYE"@
            &&& p2 == Some(b.id)
            &&& n2 == b.name
            &&& winner == Some(b.id)
            &&& status == MatchStatus::Bye
        },
        (None, None) => {
            &&& p1 is None
            &&& p2 is None
            &&& n1@ == Seq::<char>::empty()
            &&& n2@ == Seq::<char>::empty()
            &&& winner is None
            &&& status == MatchStatus::Pending
        },
    }
}

/// The seating of first-round match `mi`.
pub open spec fn first_round_ok(m: Match, seeded: Seq<Participant>, r: nat, mi: int) -> bool {
    seat_fields_ok(m.player1_id, m.player1_name, m.player2_id, m.player2_name, m.winner_id, m.status, seeded, r, mi)
}

/// Where the winner of upper match (`ri`, `mi`) goes.
pub open spec fn upper_next_ok(link: Option<String>, slot: i32, ids: Seq<Seq<char>>, r: nat, dbl: bool, ri: int, mi: int) -> bool {
    if ri + 1 < r {
        links_to(link, slot, ids, upper_start(r, ri + 1) + mi / 2, mi % 2 + 1)
    } else if has_lower(r, dbl) {
        links_to(link, slot, ids, grand_final_at(r), 1)
    } else {
        link is None && slot == 0
    }
}

/// Where the loser of upper match (`ri`, `mi`) goes.
pub open spec fn upper_loser_ok(link: Option<String>, slot: i32, ids: Seq<Seq<char>>, r: nat, dbl: bool, ri: int, mi: int) -> bool {
    if !has_lower(r, dbl) {
        link is None && slot == 0
    } else if ri == 0 {
        links_to(link, slot, ids, lower_start(r, 0) + mi / 2, mi % 2 + 1)
    } else {
        links_to(link, slot, ids, lower_start(r, 2 * ri - 1) + upper_count(r, ri) - 1 - mi, 1)
    }
}

/// Match `mi` of upper round `ri`: its winner moves to the next upper round
/// (match `mi/2`, slot by parity) or, from the upper final, to the grand
/// final; in double elimination its loser drops into the lower bracket
/// (first-round losers pairwise into the first lower round, later losers
/// crosswise into the second lower round of each pair).
pub open spec fn upper_fields_ok(
    m: Match,
    tid: Seq<char>,
    ids: Seq<Seq<char>>,
    rids: Seq<Seq<char>>,
    seeded: Seq<Participant>,
    r: nat,
    dbl: bool,
    ri: int,
    mi: int,
) -> bool {
    &&& shell_ok(m, tid, ids, rids, upper_start(r, ri) + mi, ri, mi, BracketType::Upper)
    &&& upper_next_ok(m.next_match_id, m.next_match_slot, ids, r, dbl, ri, mi)
    &&& upper_loser_ok(m.loser_next_match_id, m.loser_next_match_slot, ids, r, dbl, ri, mi)
    &&& if ri == 0 {
        first_round_ok(m, seeded, r, mi)
    } else {
        no_players(m)
    }
}

/// Match `mi` of lower round `l`: after an even round its winner meets a
/// dropped upper loser (same match, slot 2); after an odd round winners pair
/// up (match `mi/2`, slot by parity); the last lower round feeds slot 2 of
/// the grand final.
pub open spec fn lower_fields_ok(m: Match, tid: Seq<char>, ids: Seq<Seq<char>>, rids: Seq<Seq<char>>, r: nat, l: int, mi: int) -> bool {
    &&& shell_ok(m, tid, ids, rids, lower_start(r, l) + mi, r + l, mi, BracketType::Lower)
    &&& no_players(m)
    &&& m.loser_next_match_id is None
    &&& m.loser_next_match_slot == 0
    &&& if l + 1 < lower_total(r) {
        if l % 2 == 0 {
            links_to(m.next_match_id, m.next_match_slot, ids, lower_start(r, l + 1) + mi, 2)
        } else {
            links_to(m.next_match_id, m.next_match_slot, ids, lower_start(r, l + 1) + mi / 2, mi % 2 + 1)
        }
    } else {
        links_to(m.next_match_id, m.next_match_slot, ids, grand_final_at(r), 2)
    }
}

/// The grand final: fed by both brackets, leads nowhere.
pub open spec fn grand_final_fields_ok(m: Match, tid: Seq<char>, ids: Seq<Seq<char>>, rids: Seq<Seq<char>>, r: nat) -> bool {
    &&& shell_ok(m, tid, ids, rids, grand_final_at(r), 3 * r - 2, 0, BracketType::GrandFinal)
    &&& no_players(m)
    &&& m.next_match_id is None
    &&& m.next_match_slot == 0
    &&& m.loser_next_match_id is None
    &&& m.loser_next_match_slot == 0
}

pub open spec fn upper_match_ok(ms: Seq<Match>, tid: Seq<char>, ids: Seq<Seq<char>>, rids: Seq<Seq<char>>, seeded: Seq<Participant>, r: nat, dbl: bool, ri: int, mi: int) -> bool {
    upper_fields_ok(ms[upper_start(r, ri) + mi], tid, ids, rids, seeded, r, dbl, ri, mi)
}

pub open spec fn lower_match_ok(ms: Seq<Match>, tid: Seq<char>, ids: Seq<Seq<char>>, rids: Seq<Seq<char>>, r: nat, l: int, mi: int) -> bool {
    lower_fields_ok(ms[lower_start(r, l) + mi], tid, ids, rids, r, l, mi)
}

/// The upper matches before (`ri`, `mi`) are in place.
pub open spec fn upper_done(ms: Seq<Match>, tid: Seq<char>, ids: Seq<Seq<char>>, rids: Seq<Seq<char>>, seeded: Seq<Participant>, r: nat, dbl: bool, ri: int, mi: int) -> bool {
    forall|a: int, b: int| 0 <= a < r && 0 <= b < upper_count(r, a) && (a < ri || (a == ri && b < mi))
        ==> #[trigger] upper_match_ok(ms, tid, ids, rids, seeded, r, dbl, a, b)
}

/// The lower matches before (`l`, `mi`) are in place.
pub open spec fn lower_done(ms: Seq<Match>, tid: Seq<char>, ids: Seq<Seq<char>>, rids: Seq<Seq<char>>, r: nat, l: int, mi: int) -> bool {
    forall|a: int, b: int| 0 <= a < lower_total(r) && 0 <= b < lower_count(r, a) && (a < l || (a == l && b < mi))
        ==> #[trigger] lower_match_ok(ms, tid, ids, rids, r, a, b)
}

/// Lower-round starts never decrease.
pub proof fn lemma_lower_start_monotone(r: nat, a: int, l: int)
    requires
        0 <= a <= l,
    ensures
        lower_start(r, a) <= lower_start(r, l),
    decreases l - a,
{
    if a < l {
        lemma_lower_start_monotone(r, a, l - 1);
    }
}

/// Placed upper matches stay in place when the list grows.
pub proof fn lemma_upper_done_grow(
    ms: Seq<Match>,
    ms2: Seq<Match>,
    tid: Seq<char>,
    ids: Seq<Seq<char>>,
    rids: Seq<Seq<char>>,
    seeded: Seq<Participant>,
    r: nat,
    dbl: bool,
    ri: int,
    mi: int,
)
    requires
        0 <= ri <= r,
        ri < r ==> 0 <= mi <= upper_count(r, ri),
        ri == r ==> mi == 0,
        upper_start(r, ri) + mi <= ms.len() <= ms2.len(),
        forall|k: int| 0 <= k < ms.len() ==> ms2[k] == ms[k],
        upper_done(ms, tid, ids, rids, seeded, r, dbl, ri, mi),
    ensures
        upper_done(ms2, tid, ids, rids, seeded, r, dbl, ri, mi),
{
    assert forall|a: int, b: int| 0 <= a < r && 0 <= b < upper_count(r, a) && (a < ri || (a == ri && b < mi))
        implies #[trigger] upper_match_ok(ms2, tid, ids, rids, seeded, r, dbl, a, b) by {
        lemma_upper_step(r, a);
        if a < ri {
            lemma_pow2_monotone((r - ri) as nat, (r - a - 1) as nat);
        }
        assert(upper_match_ok(ms, tid, ids, rids, seeded, r, dbl, a, b));
        assert(ms2[upper_start(r, a) + b] == ms[upper_start(r, a) + b]);
    }
}

/// Placed lower matches stay in place when the list grows.
pub proof fn lemma_lower_done_grow(
    ms: Seq<Match>,
    ms2: Seq<Match>,
    tid: Seq<char>,
    ids: Seq<Seq<char>>,
    rids: Seq<Seq<char>>,
    r: nat,
    l: int,
    mi: int,
)
    requires
        r >= 2,
        0 <= l <= lower_total(r),
        l < lower_total(r) ==> 0 <= mi <= lower_count(r, l),
        l == lower_total(r) ==> mi == 0,
        lower_start(r, l) + mi <= ms.len() <= ms2.len(),
        forall|k: int| 0 <= k < ms.len() ==> ms2[k] == ms[k],
        lower_done(ms, tid, ids, rids, r, l, mi),
    ensures
        lower_done(ms2, tid, ids, rids, r, l, mi),
{
    assert forall|a: int, b: int| 0 <= a < lower_total(r) && 0 <= b < lower_count(r, a) && (a < l || (a == l && b < mi))
        implies #[trigger] lower_match_ok(ms2, tid, ids, rids, r, a, b) by {
        lemma_lower_bound(r, a);
        if a < l {
            lemma_lower_start_monotone(r, a + 1, l);
        }
        assert(lower_match_ok(ms, tid, ids, rids, r, a, b));
        assert(ms2[lower_start(r, a) + b] == ms[lower_start(r, a) + b]);
    }
}

/// The matches of an elimination bracket of `r` upper rounds for the
/// entrants `seeded` (in seed order), with match identifiers `ids` and round
/// identifiers `rids`, listed flat.
pub open spec fn matches_ok(
    ms: Seq<Match>,
    tid: Seq<char>,
    ids: Seq<Seq<char>>,
    rids: Seq<Seq<char>>,
    seeded: Seq<Participant>,
    r: nat,
    dbl: bool,
) -> bool {
    &&& ms.len() == match_total(r, dbl)
    &&& forall|ri: int, mi: int| 0 <= ri < r && 0 <= mi < upper_count(r, ri) ==> #[trigger] upper_match_ok(ms, tid, ids, rids, seeded, r, dbl, ri, mi)
    &&& has_lower(r, dbl) ==> forall|l: int, mi: int| 0 <= l < lower_total(r) && 0 <= mi < lower_count(r, l) ==> #[trigger] lower_match_ok(ms, tid, ids, rids, r, l, mi)
    &&& has_lower(r, dbl) ==> grand_final_fields_ok(ms[grand_final_at(r)], tid, ids, rids, r)
}

/// Each match carries its identifier from `ids`, the tournament, and one of
/// the round identifiers `rids`.
pub open spec fn flat_ok(ms: Seq<Match>, tid: Seq<char>, ids: Seq<Seq<char>>, rids: Seq<Seq<char>>) -> bool {
    &&& ms.len() == ids.len()
    &&& flat_prefix_ok(ms, tid, ids, rids)
}

/// The matches listed so far carry their identifiers from `ids`, the
/// tournament, and one of the round identifiers `rids`.
pub open spec fn flat_prefix_ok(ms: Seq<Match>, tid: Seq<char>, ids: Seq<Seq<char>>, rids: Seq<Seq<char>>) -> bool {
    forall|f: int| 0 <= f < ms.len() ==> #[trigger] ms[f].id@ == ids[f] && ms[f].tournament_id@ == tid && rids.contains(ms[f].round_id@)
}

// ─── Rounds ─────────────────────────────────────────────────────────────

/// Upper round `k` is number `k+1`, named by its distance from the final.
pub open spec fn upper_round_ok(rd: Round, r: nat, k: int) -> bool {
    rd.round_number == k + 1 && rd.name@ == round_title(r - (k + 1)) && rd.bracket_type == BracketType::Upper
}

/// Lower round `l` is number `l+1`, named "Lower Bracket {l+1}".
pub open spec fn lower_round_ok(rd: Round, l: int) -> bool {
    rd.round_number == l + 1 && rd.name@ == "Lower Bracket "@ + decimal((l + 1) as nat) && rd.bracket_type == BracketType::Lower
}

/// The grand final round.
pub open spec fn grand_final_round_ok(rd: Round) -> bool {
    rd.round_number == 1 && rd.name@ == "Grand Final"@ && rd.bracket_type == BracketType::GrandFinal
}

/// The rounds of the bracket: the upper rounds, then (double elimination)
/// the lower rounds and the grand final, with identifiers `rids`.
pub open spec fn rounds_ok(rs: Seq<Round>, tid: Seq<char>, rids: Seq<Seq<char>>, r: nat, dbl: bool) -> bool {
    &&& rs.len() == round_total(r, dbl)
    &&& forall|k: int| 0 <= k < rs.len() ==> #[trigger] rs[k].id@ == rids[k] && rs[k].tournament_id@ == tid
    &&& forall|k: int| 0 <= k < r ==> #[trigger] upper_round_ok(rs[k], r, k)
    &&& has_lower(r, dbl) ==> forall|l: int| 0 <= l < lower_total(r) ==> #[trigger] lower_round_ok(rs[r + l], l)
    &&& has_lower(r, dbl) ==> grand_final_round_ok(rs[3 * r - 2])
}

} // verus!
