use vstd::prelude::*;
use vstd::string::*;
use crate::domain::match_model::{BracketType, Match, MatchStatus};
use crate::domain::participant::Participant;
use crate::domain::round::Round;
use crate::services::bracket_layout::{by_seed, flat_ok, flat_prefix_ok, shell_ok};
use crate::services::bracket_plan::seed_positions;
use crate::sorting::{keep_all, sorted_selection};
use crate::services::bracket_layout::seed_keys;
use crate::text::{copy_string, decimal, texts, u64_to_decimal};

verus! {

// ─── Circle-method schedule ─────────────────────────────────────────────
//
// With an odd number of entrants a phantom entrant (index `n`) makes the
// count even; whoever meets it has a BYE that round.

/// Places in the circle: the entrants, plus one phantom for an odd count.
pub open spec fn rr_slots(n: int) -> int {
    if n % 2 != 0 {
        n + 1
    } else {
        n
    }
}

/// Number of rounds: everyone meets everyone once.
pub open spec fn rr_rounds(n: int) -> int {
    rr_slots(n) - 1
}

/// Matches per round.
pub open spec fn rr_per_round(n: int) -> int {
    rr_slots(n) / 2
}

/// The entrant (by rank in seed order) at circle place `i` in round `r`:
/// place 0 stays fixed, the others rotate by one place per round.
pub open spec fn circle(places: int, r: int, i: int) -> int {
    if i == 0 {
        0
    } else {
        1 + ((i - 1 + r) % (places - 1))
    }
}

/// Players, winner and status of match `mi` of round `r`: the entrants at
/// circle places `mi` and `places-1-mi` meet; facing the phantom is a BYE
/// won by the real entrant, whose slot keeps the "BYE" name.
pub open spec fn rr_players_ok(
    p1: Option<String>,
    n1: String,
    p2: Option<String>,
    n2: String,
    winner: Option<String>,
    status: MatchStatus,
    seeded: Seq<Participant>,
    r: int,
    mi: int,
) -> bool {
    let n = seeded.len() as int;
    let places = rr_slots(n);
    let a = circle(places, r, mi);
    let b = circle(places, r, places - 1 - mi);
    if a < n && b < n {
        &&& p1 == Some(seeded[a].id)
        &&& n1 == seeded[a].name
        &&& p2 == Some(seeded[b].id)
        &&& n2 == seeded[b].name
        &&& winner is None
        &&& status == MatchStatus::InProgress
    } else if b < n {
        &&& p1 is None
        &&& n1@ == "BYE"@
        &&& p2 == Some(seeded[b].id)
        &&& n2 == seeded[b].name
        &&& winner == p2
        &&& status == MatchStatus::Bye
    } else if a < n {
        &&& p1 == Some(seeded[a].id)
        &&& n1 == seeded[a].name
        &&& p2 is None
        &&& n2@ == "BYE"@
        &&& winner == p1
        &&& status == MatchStatus::Bye
    } else {
        &&& p1 is None
        &&& p2 is None
        &&& n1@ == Seq::<char>::empty()
        &&& n2@ == Seq::<char>::empty()
        &&& winner is None
        &&& status == MatchStatus::Bye
    }
}

/// Match `mi` of round `r`, at flat position `r * per_round + mi`; it
/// leads nowhere.
pub open spec fn rr_fields_ok(m: Match, tid: Seq<char>, ids: Seq<Seq<char>>, rids: Seq<Seq<char>>, seeded: Seq<Participant>, r: int, mi: int) -> bool {
    &&& shell_ok(m, tid, ids, rids, r * rr_per_round(seeded.len() as int) + mi, r, mi, BracketType::Upper)
    &&& m.next_match_id is None
    &&& m.next_match_slot == 0
    &&& m.loser_next_match_id is None
    &&& m.loser_next_match_slot == 0
    &&& rr_players_ok(m.player1_id, m.player1_name, m.player2_id, m.player2_name, m.winner_id, m.status, seeded, r, mi)
}

pub open spec fn rr_match_ok(ms: Seq<Match>, tid: Seq<char>, ids: Seq<Seq<char>>, rids: Seq<Seq<char>>, seeded: Seq<Participant>, r: int, mi: int) -> bool {
    rr_fields_ok(ms[r * rr_per_round(seeded.len() as int) + mi], tid, ids, rids, seeded, r, mi)
}

/// The matches of a round robin for `seeded` (in seed order), round by
/// round, with identifiers `ids` and round identifiers `rids`.
pub open spec fn rr_matches_ok(ms: Seq<Match>, tid: Seq<char>, ids: Seq<Seq<char>>, rids: Seq<Seq<char>>, seeded: Seq<Participant>) -> bool {
    let n = seeded.len() as int;
    &&& ms.len() == rr_rounds(n) * rr_per_round(n)
    &&& forall|r: int, mi: int| 0 <= r < rr_rounds(n) && 0 <= mi < rr_per_round(n) ==> #[trigger] rr_match_ok(ms, tid, ids, rids, seeded, r, mi)
}

/// Round `k` is number `k+1`, named "Round {k+1}".
pub open spec fn rr_round_ok(rd: Round, tid: Seq<char>, rids: Seq<Seq<char>>, k: int) -> bool {
    &&& rd.id@ == rids[k]
    &&& rd.tournament_id@ == tid
    &&& rd.round_number == k + 1
    &&& rd.name@ == "Round "@ + decimal((k + 1) as nat)
    &&& rd.bracket_type == BracketType::Upper
}

/// The rounds of a round robin for `n` entrants.
pub open spec fn rr_rounds_ok(rs: Seq<Round>, tid: Seq<char>, rids: Seq<Seq<char>>, n: int) -> bool {
    &&& rs.len() == rr_rounds(n)
    &&& forall|k: int| 0 <= k < rs.len() ==> #[trigger] rr_round_ok(rs[k], tid, rids, k)
}

pub proof fn lemma_rr_index(r: int, mi: int, per: int, total_rounds: int)
    by (nonlinear_arith)
    requires
        0 <= r < total_rounds <= 0x1_0000,
        0 <= mi < per <= 0x8001,
    ensures
        0 <= r * per + mi < total_rounds * per,
        total_rounds * per <= 0x8001_0000,
        r * per + per == (r + 1) * per,
        r * per + mi < (r + 1) * per,
        (r + 1) * per <= total_rounds * per,
{
}

/// How many rounds and matches per round a round robin for `n` entrants
/// has.
pub fn round_robin_size(n: usize) -> (res: (usize, usize))
    requires
        2 <= n <= 0x10000,
    ensures
        res.0 == rr_rounds(n as int),
        res.1 == rr_per_round(n as int),
{
    let places = if n % 2 != 0 {
        n + 1
    } else {
        n
    };
    (places - 1, places / 2)
}

/// Players, winner and status of match `mi` of round `r`.
fn rr_players(participants: &Vec<Participant>, order: &Vec<usize>, places: usize, r: usize, mi: usize) -> (res: (
    Option<String>,
    String,
    Option<String>,
    String,
    Option<String>,
    MatchStatus,
))
    requires
        2 <= participants@.len() <= 0x10000,
        places == rr_slots(participants@.len() as int),
        r < places - 1,
        mi < places / 2,
        sorted_selection(seed_keys(participants@), keep_all(participants@.len())).len() == participants@.len(),
        order@.len() == participants@.len(),
        forall|i: int| 0 <= i < order@.len() ==> #[trigger] order@[i] as int == sorted_selection(seed_keys(participants@), keep_all(participants@.len()))[i]
            && order@[i] < participants@.len(),
    ensures
        rr_players_ok(res.0, res.1, res.2, res.3, res.4, res.5, by_seed(participants@), r as int, mi as int),
{
    let n = participants.len();
    let a = if mi == 0 {
        0
    } else {
        1 + ((mi - 1 + r) % (places - 1))
    };
    let j = places - 1 - mi;
    let b = if j == 0 {
        0
    } else {
        1 + ((j - 1 + r) % (places - 1))
    };
    proof {
        let sel = sorted_selection(seed_keys(participants@), keep_all(participants@.len()));
        if a < n {
            assert(by_seed(participants@)[a as int] == participants@[sel[a as int]]);
        }
        if b < n {
            assert(by_seed(participants@)[b as int] == participants@[sel[b as int]]);
        }
    }
    if a < n && b < n {
        let pa = &participants[order[a]];
        let pb = &participants[order[b]];
        (Some(copy_string(&pa.id)), copy_string(&pa.name), Some(copy_string(&pb.id)), copy_string(&pb.name), None, MatchStatus::InProgress)
    } else if b < n {
        let pb = &participants[order[b]];
        (None, String::from_str("BYE"), Some(copy_string(&pb.id)), copy_string(&pb.name), Some(copy_string(&pb.id)), MatchStatus::Bye)
    } else if a < n {
        let pa = &participants[order[a]];
        (Some(copy_string(&pa.id)), copy_string(&pa.name), None, String::from_str("BYE"), Some(copy_string(&pa.id)), MatchStatus::Bye)
    } else {
        (None, String::new(), None, String::new(), None, MatchStatus::Bye)
    }
}

/// Lays out a round robin for `participants` in tournament `tournament_id`
/// by the circle method, with the given round and match identifiers: every
/// entrant meets every other once; with an odd count each round one entrant
/// has a BYE.
pub fn plan_round_robin(tournament_id: &str, participants: &Vec<Participant>, round_ids: &Vec<String>, match_ids: &Vec<String>) -> (res: (
    Vec<Round>,
    Vec<Match>,
))
    requires
        2 <= participants@.len() <= 0x10000,
        round_ids@.len() == rr_rounds(participants@.len() as int),
        match_ids@.len() == rr_rounds(participants@.len() as int) * rr_per_round(participants@.len() as int),
    ensures
        rr_rounds_ok(res.0@, tournament_id@, texts(round_ids@), participants@.len() as int),
        rr_matches_ok(res.1@, tournament_id@, texts(match_ids@), texts(round_ids@), by_seed(participants@)),
        flat_ok(res.1@, tournament_id@, texts(match_ids@), texts(round_ids@)),
        by_seed(participants@).len() == participants@.len(),
{
    let n = participants.len();
    let ghost tid = tournament_id@;
    let ghost ids = texts(match_ids@);
    let ghost rids = texts(round_ids@);
    let ghost seeded = by_seed(participants@);
    let order = seed_positions(participants);
    let places = if n % 2 != 0 {
        n + 1
    } else {
        n
    };
    let total = places - 1;
    let per = places / 2;
    let mut rounds: Vec<Round> = Vec::new();
    let mut ms: Vec<Match> = Vec::new();
    let mut r: usize = 0;
    while r < total
        invariant
            2 <= n <= 0x10000,
            n == participants@.len(),
            places == rr_slots(n as int),
            total == rr_rounds(n as int),
            per == rr_per_round(n as int),
            tid == tournament_id@,
            ids == texts(match_ids@),
            rids == texts(round_ids@),
            seeded == by_seed(participants@),
            seeded.len() == n,
            round_ids@.len() == total,
            match_ids@.len() == total * per,
            sorted_selection(seed_keys(participants@), keep_all(participants@.len())).len() == participants@.len(),
            order@.len() == participants@.len(),
            forall|i: int| 0 <= i < order@.len() ==> #[trigger] order@[i] as int == sorted_selection(seed_keys(participants@), keep_all(participants@.len()))[i]
                && order@[i] < participants@.len(),
            r <= total,
            rounds@.len() == r,
            forall|k: int| 0 <= k < r ==> #[trigger] rr_round_ok(rounds@[k], tid, rids, k),
            ms@.len() == r * per,
            flat_prefix_ok(ms@, tid, ids, rids),
            forall|a: int, b: int| 0 <= a < r && 0 <= b < per ==> #[trigger] rr_match_ok(ms@, tid, ids, rids, seeded, a, b),
        decreases total - r,
    {
        let digits = u64_to_decimal((r + 1) as u64);
        let ghost before_rounds = rounds@;
        rounds.push(Round {
            id: copy_string(&round_ids[r]),
            tournament_id: String::from_str(tournament_id),
            round_number: (r + 1) as i32,
            name: String::from_str("Round ").concat(digits.as_str()),
            bracket_type: BracketType::Upper,
        });
        proof {
            assert forall|k: int| 0 <= k < r + 1 implies #[trigger] rr_round_ok(rounds@[k], tid, rids, k) by {
                if k < r {
                    assert(rounds@[k] == before_rounds[k]);
                }
            }
        }
        let mut mi: usize = 0;
        while mi < per
            invariant
                2 <= n <= 0x10000,
                n == participants@.len(),
                places == rr_slots(n as int),
                total == rr_rounds(n as int),
                per == rr_per_round(n as int),
                tid == tournament_id@,
                ids == texts(match_ids@),
                rids == texts(round_ids@),
                seeded == by_seed(participants@),
                seeded.len() == n,
                round_ids@.len() == total,
                match_ids@.len() == total * per,
                sorted_selection(seed_keys(participants@), keep_all(participants@.len())).len() == participants@.len(),
                order@.len() == participants@.len(),
                forall|i: int| 0 <= i < order@.len() ==> #[trigger] order@[i] as int == sorted_selection(seed_keys(participants@), keep_all(participants@.len()))[i]
                    && order@[i] < participants@.len(),
                r < total,
                mi <= per,
                ms@.len() == r * per + mi,
                flat_prefix_ok(ms@, tid, ids, rids),
                forall|a: int, b: int| 0 <= a < r && 0 <= b < per ==> #[trigger] rr_match_ok(ms@, tid, ids, rids, seeded, a, b),
                forall|b: int| 0 <= b < mi ==> #[trigger] rr_match_ok(ms@, tid, ids, rids, seeded, r as int, b),
            decreases per - mi,
        {
            proof {
                lemma_rr_index(r as int, mi as int, per as int, total as int);
            }
            let seats = rr_players(participants, &order, places, r, mi);
            let m = Match {
                id: copy_string(&match_ids[r * per + mi]),
                tournament_id: String::from_str(tournament_id),
                round_id: copy_string(&round_ids[r]),
                match_order: mi as i32,
                player1_id: seats.0,
                player2_id: seats.2,
                player1_name: seats.1,
                player2_name: seats.3,
                score1: 0,
                score2: 0,
                winner_id: seats.4,
                status: seats.5,
                next_match_id: None,
                next_match_slot: 0,
                loser_next_match_id: None,
                loser_next_match_slot: 0,
                bracket_type: BracketType::Upper,
            };
            let ghost before = ms@;
            ms.push(m);
            proof {
                assert forall|a: int, b: int| 0 <= a < r && 0 <= b < per implies #[trigger] rr_match_ok(ms@, tid, ids, rids, seeded, a, b) by {
                    lemma_rr_index(a, b, per as int, r as int);
                    assert(rr_match_ok(before, tid, ids, rids, seeded, a, b));
                    assert(ms@[a * per + b] == before[a * per + b]);
                }
                assert forall|b: int| 0 <= b < mi + 1 implies #[trigger] rr_match_ok(ms@, tid, ids, rids, seeded, r as int, b) by {
                    if b < mi {
                        assert(rr_match_ok(before, tid, ids, rids, seeded, r as int, b));
                        assert(ms@[r * per + b] == before[r * per + b]);
                    } else {
                        assert(ms@[r * per + b] == m);
                        assert(rr_fields_ok(m, tid, ids, rids, seeded, r as int, b));
                    }
                }
                assert(rids[r as int] == m.round_id@);
                assert forall|f: int| 0 <= f < ms@.len() implies #[trigger] ms@[f].id@ == ids[f] && ms@[f].tournament_id@ == tid
                    && rids.contains(ms@[f].round_id@) by {
                    if f < before.len() {
                        assert(ms@[f] == before[f]);
                    }
                }
            }
            mi = mi + 1;
        }
        proof {
            lemma_rr_index(r as int, 0, per as int, total as int);
        }
        r = r + 1;
    }
    proof {
        if total > 0 {
            lemma_rr_index(0, 0, per as int, total as int);
        }
    }
    (rounds, ms)
}

// ─── Everyone meets everyone once ───────────────────────────────────────

/// Match `mi` of round `r` pits the entrants at ranks `x` and `y` against
/// each other (in either slot).
pub open spec fn rr_meets(places: int, r: int, mi: int, x: int, y: int) -> bool {
    let a = circle(places, r, mi);
    let b = circle(places, r, places - 1 - mi);
    (a == x && b == y) || (a == y && b == x)
}

/// A place other than the fixed one, turned `r` places on: the circle
/// without its remainder.
proof fn lemma_circle_turn(places: int, r: int, i: int)
    requires
        places >= 2,
        0 <= r < places - 1,
        1 <= i <= places - 1,
    ensures
        circle(places, r, i) == if i + r <= places - 1 { i + r } else { i + r - (places - 1) },
{
    let m = places - 1;
    let t = i - 1 + r;
    assert(0 <= t < 2 * m);
    if t < m {
        assert(t % m == t) by (nonlinear_arith)
            requires
                0 <= t < m,
        ;
    } else {
        assert(t % m == t - m) by (nonlinear_arith)
            requires
                m <= t < 2 * m,
        ;
    }
}

/// The two entrants of match `mi` of round `r`, as ranks.
proof fn lemma_rr_pair(places: int, r: int, mi: int)
    requires
        places >= 2,
        places % 2 == 0,
        0 <= r < places - 1,
        0 <= mi < places / 2,
    ensures
        mi == 0 ==> circle(places, r, mi) == 0 && circle(places, r, places - 1 - mi) == if r >= 1 { r } else { places - 1 },
        mi >= 1 ==> circle(places, r, mi) == if mi + r <= places - 1 { mi + r } else { mi + r - (places - 1) },
        mi >= 1 ==> circle(places, r, places - 1 - mi) == if r - mi >= 1 { r - mi } else { r - mi + places - 1 },
{
    lemma_circle_turn(places, r, places - 1 - mi);
    if mi >= 1 {
        lemma_circle_turn(places, r, mi);
    }
}

/// In a round robin every two entrants meet in exactly one match: for
/// ranks `x < y` below the place count there is one round `r` and one match
/// `mi` that pits them against each other, and no other.
pub proof fn lemma_round_robin_meets_once(n: int, x: int, y: int)
    requires
        2 <= n,
        0 <= x < y < rr_slots(n),
    ensures
        exists|r: int, mi: int| 0 <= r < rr_rounds(n) && 0 <= mi < rr_per_round(n) && #[trigger] rr_meets(rr_slots(n), r, mi, x, y),
        forall|r1: int, mi1: int, r2: int, mi2: int|
            0 <= r1 < rr_rounds(n) && 0 <= mi1 < rr_per_round(n) && 0 <= r2 < rr_rounds(n) && 0 <= mi2 < rr_per_round(n)
                && #[trigger] rr_meets(rr_slots(n), r1, mi1, x, y) && #[trigger] rr_meets(rr_slots(n), r2, mi2, x, y)
                ==> r1 == r2 && mi1 == mi2,
{
    let p = rr_slots(n);
    let m = p - 1;
    assert(p % 2 == 0 && p >= 2);
    assert(rr_rounds(n) == m && rr_per_round(n) == p / 2);
    assert(m % 2 == 1);
    assert(2 * (p / 2) == p);
    // A match for the pair.
    if x == 0 {
        let r = if y < m { y } else { 0 };
        lemma_rr_pair(p, r, 0);
        assert(rr_meets(p, r, 0, x, y));
    } else {
        let s = x + y;
        let t = y - x;
        if s % 2 == 0 {
            let r = s / 2;
            let d = t / 2;
            assert(2 * r == s && 2 * d == t);
            lemma_rr_pair(p, r, d);
            assert(rr_meets(p, r, d, x, y));
        } else if s < m {
            let r = (s + m) / 2;
            let d = (m - t) / 2;
            assert(2 * r == s + m && 2 * d == m - t);
            lemma_rr_pair(p, r, d);
            assert(rr_meets(p, r, d, x, y));
        } else {
            let r = (s - m) / 2;
            let d = (m - t) / 2;
            assert(2 * r == s - m && 2 * d == m - t);
            lemma_rr_pair(p, r, d);
            assert(rr_meets(p, r, d, x, y));
        }
    }
    // No other match.
    assert forall|r1: int, mi1: int, r2: int, mi2: int|
        0 <= r1 < rr_rounds(n) && 0 <= mi1 < rr_per_round(n) && 0 <= r2 < rr_rounds(n) && 0 <= mi2 < rr_per_round(n)
            && #[trigger] rr_meets(p, r1, mi1, x, y) && #[trigger] rr_meets(p, r2, mi2, x, y)
        implies r1 == r2 && mi1 == mi2 by {
        lemma_rr_pair(p, r1, mi1);
        lemma_rr_pair(p, r2, mi2);
    }
}

/// Match `mi` of round `r` involves the entrant at rank `x`.
pub open spec fn rr_plays(places: int, r: int, mi: int, x: int) -> bool {
    circle(places, r, mi) == x || circle(places, r, places - 1 - mi) == x
}

/// In each round of a round robin every entrant (the phantom included)
/// plays exactly one match.
pub proof fn lemma_round_robin_once_per_round(n: int, r: int, x: int)
    requires
        2 <= n,
        0 <= r < rr_rounds(n),
        0 <= x < rr_slots(n),
    ensures
        exists|mi: int| 0 <= mi < rr_per_round(n) && #[trigger] rr_plays(rr_slots(n), r, mi, x),
        forall|mi1: int, mi2: int| 0 <= mi1 < rr_per_round(n) && 0 <= mi2 < rr_per_round(n)
            && #[trigger] rr_plays(rr_slots(n), r, mi1, x) && #[trigger] rr_plays(rr_slots(n), r, mi2, x) ==> mi1 == mi2,
{
    let p = rr_slots(n);
    let m = p - 1;
    assert(p % 2 == 0 && p >= 2);
    assert(2 * (p / 2) == p);
    if x == 0 {
        lemma_rr_pair(p, r, 0);
        assert(rr_plays(p, r, 0, x));
    } else {
        let i = if x - r >= 1 { x - r } else { x - r + m };
        let mi = if i < p / 2 { i } else { p - 1 - i };
        lemma_rr_pair(p, r, mi);
        assert(rr_plays(p, r, mi, x));
    }
    assert forall|mi1: int, mi2: int| 0 <= mi1 < rr_per_round(n) && 0 <= mi2 < rr_per_round(n)
        && #[trigger] rr_plays(p, r, mi1, x) && #[trigger] rr_plays(p, r, mi2, x) implies mi1 == mi2 by {
        lemma_rr_pair(p, r, mi1);
        lemma_rr_pair(p, r, mi2);
    }
}

} // verus!
