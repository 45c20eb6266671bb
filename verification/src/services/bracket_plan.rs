use vstd::prelude::*;
use vstd::string::*;
use crate::domain::match_model::{BracketType, Match, MatchStatus};
use crate::domain::participant::Participant;
use crate::domain::round::Round;
use crate::services::bracket_layout::{
    bracket_rounds, by_seed, grand_final_at, has_lower, lemma_bracket_rounds, lemma_lower_start, lemma_upper_step,
    lemma_lower_bound, lemma_lower_done_grow, lemma_upper_done_grow, lower_count, lower_done, lower_fields_ok,
    flat_ok, flat_prefix_ok, lower_match_ok, lower_round_ok, upper_done, upper_match_ok, upper_round_ok, grand_final_fields_ok, grand_final_round_ok, lower_start, lower_total, match_total, matches_ok, round_total, rounds_ok,
    seat_fields_ok, seated, seed_keys, upper_count, upper_fields_ok, upper_loser_ok, upper_next_ok, upper_start,
};
use crate::sorting::{is_sorted_selection, keep_all, lemma_sorted_selection_all, select_sorted, sorted_selection};
use crate::text::{copy_string, texts, u64_to_decimal};
use crate::utils::{
    generate_seed_order, lemma_pow2_30, lemma_pow2_is_power_of_two, lemma_seed_order_is_permutation, lemma_pow2_monotone, lemma_seed_order_range, num_rounds,
    pow2, round_name, seed_order,
};

verus! {

/// The entrants' positions in seed order and the seeding order of the 2^r
/// slots, as a plan needs them.
pub open spec fn seeding_ready(ps: Seq<Participant>, order: Seq<usize>, seeds: Seq<usize>, r: nat) -> bool {
    &&& sorted_selection(seed_keys(ps), keep_all(ps.len())).len() == ps.len()
    &&& order.len() == ps.len()
    &&& forall|i: int| 0 <= i < order.len() ==> #[trigger] order[i] as int == sorted_selection(seed_keys(ps), keep_all(ps.len()))[i]
        && order[i] < ps.len()
    &&& seeds.len() == pow2(r)
    &&& forall|k: int| 0 <= k < seeds.len() ==> #[trigger] seeds[k] as int == seed_order(pow2(r))[k] && 1 <= seeds[k] <= pow2(r)
}

/// The flat starts of the lower rounds, and where the grand final stands.
pub open spec fn lower_starts_ready(v: Seq<usize>, r: nat) -> bool {
    &&& v.len() == lower_total(r) + 1
    &&& forall|l: int| 0 <= l <= lower_total(r) ==> #[trigger] v[l] as int == lower_start(r, l)
}

/// The positions of the entrants in ascending seed order, equal seeds in
/// the order given.
pub fn seed_positions(ps: &Vec<Participant>) -> (order: Vec<usize>)
    ensures
        sorted_selection(seed_keys(ps@), keep_all(ps@.len())).len() == ps@.len(),
        order@.len() == ps@.len(),
        forall|i: int| 0 <= i < order@.len() ==> #[trigger] order@[i] as int == sorted_selection(seed_keys(ps@), keep_all(ps@.len()))[i]
            && order@[i] < ps@.len(),
{
    let n = ps.len();
    let mut keys: Vec<(i32, i32)> = Vec::new();
    let mut keep: Vec<bool> = Vec::new();
    let mut k: usize = 0;
    while k < n
        invariant
            n == ps@.len(),
            k <= n,
            keys@.len() == k,
            keep@.len() == k,
            forall|i: int| 0 <= i < k ==> #[trigger] keys@[i] == (ps@[i].seed, 0i32),
            forall|i: int| 0 <= i < k ==> #[trigger] keep@[i],
        decreases n - k,
    {
        keys.push((ps[k].seed, 0i32));
        keep.push(true);
        k = k + 1;
    }
    assert(keys@ =~= seed_keys(ps@));
    assert(keep@ =~= keep_all(n as nat));
    let q = select_sorted(&keys, &keep);
    proof {
        lemma_sorted_selection_all(keys@);
        assert forall|i: int| 0 <= i < q@.len() implies #[trigger] q@[i] < ps@.len() by {
            assert(q@[i] as int == sorted_selection(keys@, keep@)[i]);
        }
    }
    q
}

/// The entrant seated at bracket slot `k`, by position in `participants`.
fn seat_of(participants: &Vec<Participant>, order: &Vec<usize>, seeds: &Vec<usize>, r: usize, k: usize) -> (o: Option<usize>)
    requires
        seeding_ready(participants@, order@, seeds@, r as nat),
        k < seeds@.len(),
    ensures
        match o {
            Some(i) => i < participants@.len() && seated(by_seed(participants@), r as nat, k as int) == Some(participants@[i as int]),
            None => seated(by_seed(participants@), r as nat, k as int) is None,
        },
{
    let pos = seeds[k];
    if pos <= participants.len() {
        let i = order[pos - 1];
        proof {
            let sel = sorted_selection(seed_keys(participants@), keep_all(participants@.len()));
            assert(by_seed(participants@)[pos - 1] == participants@[sel[pos - 1]]);
        }
        Some(i)
    } else {
        None
    }
}

/// Player slots, winner and status of first-round match `mi`.
fn first_round_players(participants: &Vec<Participant>, order: &Vec<usize>, seeds: &Vec<usize>, r: usize, mi: usize) -> (res: (
    Option<String>,
    String,
    Option<String>,
    String,
    Option<String>,
    MatchStatus,
))
    requires
        seeding_ready(participants@, order@, seeds@, r as nat),
        2 * mi + 1 < seeds@.len() <= 0x4000_0000,
    ensures
        seat_fields_ok(res.0, res.1, res.2, res.3, res.4, res.5, by_seed(participants@), r as nat, mi as int),
{
    let a = seat_of(participants, order, seeds, r, 2 * mi);
    let b = seat_of(participants, order, seeds, r, 2 * mi + 1);
    match (a, b) {
        (Some(i), Some(j)) => (
            Some(copy_string(&participants[i].id)),
            copy_string(&participants[i].name),
            Some(copy_string(&participants[j].id)),
            copy_string(&participants[j].name),
            None,
            MatchStatus::InProgress,
        ),
        (Some(i), None) => (
            Some(copy_string(&participants[i].id)),
            copy_string(&participants[i].name),
            Some(String::from_str("BYE_ID")),
            String::from_str("BYE"),
            Some(copy_string(&participants[i].id)),
            MatchStatus::Bye,
        ),
        (None, Some(j)) => (
            Some(String::from_str("BYE_ID")),
            String::from_str("BYE"),
            Some(copy_string(&participants[j].id)),
            copy_string(&participants[j].name),
            Some(copy_string(&participants[j].id)),
            MatchStatus::Bye,
        ),
        (None, None) => (None, String::new(), None, String::new(), None, MatchStatus::Pending),
    }
}

/// The flat starts of the lower rounds `0..=lower_total(r)`.
fn lower_starts(r: usize, bs: usize) -> (v: Vec<usize>)
    requires
        2 <= r <= 30,
        bs == pow2(r as nat),
    ensures
        lower_starts_ready(v@, r as nat),
{
    proof {
        lemma_pow2_30();
        lemma_pow2_monotone(r as nat, 30);
        lemma_lower_bound(r as nat, 0);
        assert(pow2(r as nat) == 4 * pow2((r - 2) as nat)) by {
            assert(pow2(r as nat) == 2 * pow2((r - 1) as nat));
            assert(pow2((r - 1) as nat) == 2 * pow2((r - 2) as nat));
        }
    }
    let total = 2 * (r - 1);
    let mut v: Vec<usize> = Vec::new();
    v.push(bs - 1);
    let mut count: usize = bs / 4;
    let mut l: usize = 0;
    while l < total
        invariant
            2 <= r <= 30,
            bs == pow2(r as nat),
            bs <= 0x4000_0000,
            total == lower_total(r as nat),
            l <= total,
            v@.len() == l + 1,
            forall|j: int| 0 <= j <= l ==> #[trigger] v@[j] as int == lower_start(r as nat, j),
            l < total ==> count == lower_count(r as nat, l as int),
        decreases total - l,
    {
        proof {
            lemma_lower_bound(r as nat, l as int);
        }
        let next = v[l] + count;
        v.push(next);
        if l % 2 == 1 {
            count = count / 2;
        }
        l = l + 1;
    }
    v
}

/// The winner's link of upper match (`ri`, `mi`).
fn upper_next(match_ids: &Vec<String>, r: usize, bs: usize, is_double: bool, ri: usize, mi: usize, start: usize, count: usize) -> (res: (Option<String>, i32))
    requires
        1 <= r <= 30,
        bs == pow2(r as nat),
        ri < r,
        start == upper_start(r as nat, ri as int),
        count == upper_count(r as nat, ri as int),
        mi < count,
        match_ids@.len() == match_total(r as nat, is_double),
    ensures
        upper_next_ok(res.0, res.1, texts(match_ids@), r as nat, is_double, ri as int, mi as int),
{
    proof {
        lemma_upper_step(r as nat, ri as int);
        lemma_pow2_30();
        lemma_pow2_monotone(r as nat, 30);
    }
    if ri + 1 < r {
        proof {
            lemma_upper_step(r as nat, ri as int + 1);
        }
        (Some(copy_string(&match_ids[start + count + mi / 2])), (mi % 2) as i32 + 1)
    } else if is_double && r > 1 {
        (Some(copy_string(&match_ids[2 * bs - 3])), 1)
    } else {
        (None, 0)
    }
}

/// The loser's link of upper match (`ri`, `mi`).
fn upper_loser(match_ids: &Vec<String>, lstart: &Vec<usize>, r: usize, bs: usize, is_double: bool, ri: usize, mi: usize, count: usize) -> (res: (Option<String>, i32))
    requires
        1 <= r <= 30,
        bs == pow2(r as nat),
        ri < r,
        count == upper_count(r as nat, ri as int),
        mi < count,
        match_ids@.len() == match_total(r as nat, is_double),
        has_lower(r as nat, is_double) ==> lower_starts_ready(lstart@, r as nat),
    ensures
        upper_loser_ok(res.0, res.1, texts(match_ids@), r as nat, is_double, ri as int, mi as int),
{
    proof {
        lemma_pow2_30();
        lemma_pow2_monotone(r as nat, 30);
    }
    if !(is_double && r > 1) {
        (None, 0)
    } else if ri == 0 {
        proof {
            lemma_lower_bound(r as nat, 0);
            assert(pow2(r as nat) == 2 * pow2((r - 1) as nat));
            assert(pow2((r - 1) as nat) == 2 * pow2((r - 2) as nat));
        }
        (Some(copy_string(&match_ids[lstart[0] + mi / 2])), (mi % 2) as i32 + 1)
    } else {
        proof {
            lemma_lower_bound(r as nat, 2 * ri - 1);
            assert((2 * ri - 1) / 2 == ri - 1);
        }
        (Some(copy_string(&match_ids[lstart[2 * ri - 1] + (count - 1 - mi)])), 1)
    }
}

/// Match `mi` of upper round `ri`.
fn make_upper_match(
    tid: &str,
    match_ids: &Vec<String>,
    round_ids: &Vec<String>,
    participants: &Vec<Participant>,
    order: &Vec<usize>,
    seeds: &Vec<usize>,
    lstart: &Vec<usize>,
    r: usize,
    bs: usize,
    is_double: bool,
    ri: usize,
    mi: usize,
    start: usize,
    count: usize,
) -> (m: Match)
    requires
        1 <= r <= 30,
        bs == pow2(r as nat),
        ri < r,
        start == upper_start(r as nat, ri as int),
        count == upper_count(r as nat, ri as int),
        mi < count,
        match_ids@.len() == match_total(r as nat, is_double),
        round_ids@.len() == round_total(r as nat, is_double),
        seeding_ready(participants@, order@, seeds@, r as nat),
        has_lower(r as nat, is_double) ==> lower_starts_ready(lstart@, r as nat),
    ensures
        upper_fields_ok(m, tid@, texts(match_ids@), texts(round_ids@), by_seed(participants@), r as nat, is_double, ri as int, mi as int),
{
    proof {
        lemma_upper_step(r as nat, ri as int);
        lemma_pow2_30();
        lemma_pow2_monotone(r as nat, 30);
        assert(pow2(r as nat) == 2 * pow2((r - 1) as nat));
    }
    let next = upper_next(match_ids, r, bs, is_double, ri, mi, start, count);
    let loser = upper_loser(match_ids, lstart, r, bs, is_double, ri, mi, count);
    let seats = if ri == 0 {
        first_round_players(participants, order, seeds, r, mi)
    } else {
        (None, String::new(), None, String::new(), None, MatchStatus::Pending)
    };
    Match {
        id: copy_string(&match_ids[start + mi]),
        tournament_id: String::from_str(tid),
        round_id: copy_string(&round_ids[ri]),
        match_order: mi as i32,
        player1_id: seats.0,
        player2_id: seats.2,
        player1_name: seats.1,
        player2_name: seats.3,
        score1: 0,
        score2: 0,
        winner_id: seats.4,
        status: seats.5,
        next_match_id: next.0,
        next_match_slot: next.1,
        loser_next_match_id: loser.0,
        loser_next_match_slot: loser.1,
        bracket_type: BracketType::Upper,
    }
}

/// Match `mi` of lower round `l`.
fn make_lower_match(
    tid: &str,
    match_ids: &Vec<String>,
    round_ids: &Vec<String>,
    lstart: &Vec<usize>,
    r: usize,
    bs: usize,
    is_double: bool,
    l: usize,
    mi: usize,
    count: usize,
) -> (m: Match)
    requires
        2 <= r <= 30,
        is_double,
        bs == pow2(r as nat),
        l < lower_total(r as nat),
        count == lower_count(r as nat, l as int),
        mi < count,
        match_ids@.len() == match_total(r as nat, is_double),
        round_ids@.len() == round_total(r as nat, is_double),
        lower_starts_ready(lstart@, r as nat),
    ensures
        lower_fields_ok(m, tid@, texts(match_ids@), texts(round_ids@), r as nat, l as int, mi as int),
{
    proof {
        lemma_lower_bound(r as nat, l as int);
        lemma_pow2_30();
        lemma_pow2_monotone(r as nat, 30);
        if l + 1 < lower_total(r as nat) {
            lemma_lower_bound(r as nat, l as int + 1);
        }
    }
    let total = 2 * (r - 1);
    let next: (Option<String>, i32) = if l + 1 < total {
        if l % 2 == 0 {
            (Some(copy_string(&match_ids[lstart[l + 1] + mi])), 2)
        } else {
            (Some(copy_string(&match_ids[lstart[l + 1] + mi / 2])), (mi % 2) as i32 + 1)
        }
    } else {
        (Some(copy_string(&match_ids[2 * bs - 3])), 2)
    };
    Match {
        id: copy_string(&match_ids[lstart[l] + mi]),
        tournament_id: String::from_str(tid),
        round_id: copy_string(&round_ids[r + l]),
        match_order: mi as i32,
        player1_id: None,
        player2_id: None,
        player1_name: String::new(),
        player2_name: String::new(),
        score1: 0,
        score2: 0,
        winner_id: None,
        status: MatchStatus::Pending,
        next_match_id: next.0,
        next_match_slot: next.1,
        loser_next_match_id: None,
        loser_next_match_slot: 0,
        bracket_type: BracketType::Lower,
    }
}

/// The number of upper rounds and of bracket slots for `n` entrants.
pub fn elimination_dims(n: usize) -> (res: (usize, usize))
    requires
        2 <= n <= 0x4000_0000,
    ensures
        res.0 == bracket_rounds(n as int),
        1 <= res.0 <= 30,
        res.1 == pow2(res.0 as nat),
{
    let r = num_rounds(n);
    proof {
        lemma_bracket_rounds(n as int, r as nat);
        lemma_pow2_30();
        if r > 30 {
            lemma_pow2_monotone(30, (r - 1) as nat);
        }
    }
    let r = r as usize;
    let mut bs: usize = 1;
    let mut i: usize = 0;
    assert(pow2(0) == 1);
    while i < r
        invariant
            1 <= r <= 30,
            i <= r,
            bs == pow2(i as nat),
        decreases r - i,
    {
        proof {
            lemma_pow2_monotone((i + 1) as nat, 30);
            lemma_pow2_30();
            assert(pow2((i + 1) as nat) == 2 * pow2(i as nat));
        }
        bs = bs * 2;
        i = i + 1;
    }
    (r, bs)
}

/// How many rounds and matches an elimination bracket for `n` entrants
/// creates (single or double elimination).
pub fn elimination_size(n: usize, is_double: bool) -> (res: (usize, usize))
    requires
        2 <= n <= 0x4000_0000,
    ensures
        res.0 == round_total(bracket_rounds(n as int), is_double),
        res.1 == match_total(bracket_rounds(n as int), is_double),
{
    let (r, bs) = elimination_dims(n);
    proof {
        lemma_pow2_30();
        lemma_pow2_monotone(r as nat, 30);
    }
    if is_double && r > 1 {
        (3 * r - 1, 2 * bs - 2)
    } else {
        (r, bs - 1)
    }
}

/// The rounds of the bracket with identifiers `round_ids`.
fn plan_rounds(tid: &str, round_ids: &Vec<String>, r: usize, is_double: bool) -> (rs: Vec<Round>)
    requires
        1 <= r <= 30,
        round_ids@.len() == round_total(r as nat, is_double),
    ensures
        rounds_ok(rs@, tid@, texts(round_ids@), r as nat, is_double),
{
    let ghost rids = texts(round_ids@);
    let mut rs: Vec<Round> = Vec::new();
    let mut k: usize = 0;
    while k < r
        invariant
            1 <= r <= 30,
            rids == texts(round_ids@),
            round_ids@.len() == round_total(r as nat, is_double),
            k <= r,
            rs@.len() == k,
            forall|j: int| 0 <= j < k ==> #[trigger] rs@[j].id@ == rids[j] && rs@[j].tournament_id@ == tid@,
            forall|j: int| 0 <= j < k ==> #[trigger] upper_round_ok(rs@[j], r as nat, j),
        decreases r - k,
    {
        let name = round_name((k + 1) as i32, r as i32);
        rs.push(Round {
            id: copy_string(&round_ids[k]),
            tournament_id: String::from_str(tid),
            round_number: (k + 1) as i32,
            name,
            bracket_type: BracketType::Upper,
        });
        k = k + 1;
    }
    if is_double && r > 1 {
        let total = 2 * (r - 1);
        let mut l: usize = 0;
        while l < total
            invariant
                2 <= r <= 30,
                total == lower_total(r as nat),
                rids == texts(round_ids@),
                round_ids@.len() == round_total(r as nat, is_double),
                has_lower(r as nat, is_double),
                l <= total,
                rs@.len() == r + l,
                forall|j: int| 0 <= j < r + l ==> #[trigger] rs@[j].id@ == rids[j] && rs@[j].tournament_id@ == tid@,
                forall|j: int| 0 <= j < r ==> #[trigger] upper_round_ok(rs@[j], r as nat, j),
                forall|j: int| 0 <= j < l ==> #[trigger] lower_round_ok(rs@[r + j], j),
            decreases total - l,
        {
            let digits = u64_to_decimal((l + 1) as u64);
            let name = String::from_str("Lower Bracket ").concat(digits.as_str());
            let ghost before = rs@;
            rs.push(Round {
                id: copy_string(&round_ids[r + l]),
                tournament_id: String::from_str(tid),
                round_number: (l + 1) as i32,
                name,
                bracket_type: BracketType::Lower,
            });
            proof {
                assert forall|j: int| 0 <= j < r + l + 1 implies #[trigger] rs@[j].id@ == rids[j] && rs@[j].tournament_id@ == tid@ by {
                    if j < r + l {
                        assert(rs@[j] == before[j]);
                    }
                }
                assert forall|j: int| 0 <= j < r implies #[trigger] upper_round_ok(rs@[j], r as nat, j) by {
                    assert(rs@[j] == before[j]);
                }
                assert forall|j: int| 0 <= j < l + 1 implies #[trigger] lower_round_ok(rs@[r + j], j) by {
                    if j < l {
                        assert(rs@[r + j] == before[r + j]);
                    }
                }
            }
            l = l + 1;
        }
        let ghost before = rs@;
        rs.push(Round {
            id: copy_string(&round_ids[3 * r - 2]),
            tournament_id: String::from_str(tid),
            round_number: 1,
            name: String::from_str("Grand Final"),
            bracket_type: BracketType::GrandFinal,
        });
        proof {
            assert forall|j: int| 0 <= j < rs@.len() implies #[trigger] rs@[j].id@ == rids[j] && rs@[j].tournament_id@ == tid@ by {
                if j < before.len() {
                    assert(rs@[j] == before[j]);
                }
            }
            assert forall|j: int| 0 <= j < r implies #[trigger] upper_round_ok(rs@[j], r as nat, j) by {
                assert(rs@[j] == before[j]);
            }
            assert forall|j: int| 0 <= j < lower_total(r as nat) implies #[trigger] lower_round_ok(rs@[r + j], j) by {
                assert(rs@[r + j] == before[r + j]);
            }
        }
    }
    rs
}

/// Lays out an elimination bracket for `participants` in tournament
/// `tournament_id`, with the given round and match identifiers: upper
/// rounds named by their distance from the final, first-round pairings by
/// the standard seeding order (a lone entrant gets a BYE and wins), winners
/// linked to the next round; in double elimination also the lower bracket,
/// the loser links into it and the grand final.
#[verifier::spinoff_prover]
#[verifier::rlimit(40)]
pub fn plan_elimination(
    tournament_id: &str,
    participants: &Vec<Participant>,
    is_double: bool,
    round_ids: &Vec<String>,
    match_ids: &Vec<String>,
) -> (res: (Vec<Round>, Vec<Match>))
    requires
        2 <= participants@.len() <= 0x4000_0000,
        round_ids@.len() == round_total(bracket_rounds(participants@.len() as int), is_double),
        match_ids@.len() == match_total(bracket_rounds(participants@.len() as int), is_double),
    ensures
        rounds_ok(res.0@, tournament_id@, texts(round_ids@), bracket_rounds(participants@.len() as int), is_double),
        matches_ok(
            res.1@,
            tournament_id@,
            texts(match_ids@),
            texts(round_ids@),
            by_seed(participants@),
            bracket_rounds(participants@.len() as int),
            is_double,
        ),
        flat_ok(res.1@, tournament_id@, texts(match_ids@), texts(round_ids@)),
{
    let (r, bs) = elimination_dims(participants.len());
    let ghost rn = r as nat;
    let ghost tid = tournament_id@;
    let ghost ids = texts(match_ids@);
    let ghost rids = texts(round_ids@);
    let ghost seeded = by_seed(participants@);
    let rounds = plan_rounds(tournament_id, round_ids, r, is_double);
    let order = seed_positions(participants);
    proof {
        lemma_pow2_30();
        lemma_pow2_monotone(rn, 30);
        lemma_pow2_is_power_of_two(rn);
        lemma_seed_order_is_permutation(bs as nat);
    }
    let seeds = generate_seed_order(bs);
    let lower = is_double && r > 1;
    let lstart = if lower {
        lower_starts(r, bs)
    } else {
        Vec::new()
    };
    let mut ms: Vec<Match> = Vec::new();
    let mut ri: usize = 0;
    let mut start: usize = 0;
    let mut count: usize = bs / 2;
    proof {
        assert(pow2(rn) == 2 * pow2((rn - 1) as nat));
        lemma_upper_step(rn, 0);
    }
    while ri < r
        invariant
            1 <= r <= 30,
            rn == r,
            bs == pow2(rn),
            bs <= 0x4000_0000,
            ids == texts(match_ids@),
            rids == texts(round_ids@),
            seeded == by_seed(participants@),
            tid == tournament_id@,
            match_ids@.len() == match_total(rn, is_double),
            round_ids@.len() == round_total(rn, is_double),
            seeding_ready(participants@, order@, seeds@, rn),
            lower == has_lower(rn, is_double),
            lower ==> lower_starts_ready(lstart@, rn),
            ri <= r,
            start == upper_start(rn, ri as int),
            ri < r ==> count == upper_count(rn, ri as int),
            ms@.len() == start,
            flat_prefix_ok(ms@, tid, ids, rids),
            upper_done(ms@, tid, ids, rids, seeded, rn, is_double, ri as int, 0),
        decreases r - ri,
    {
        let mut mi: usize = 0;
        while mi < count
            invariant
                1 <= r <= 30,
                rn == r,
                bs == pow2(rn),
                ids == texts(match_ids@),
                rids == texts(round_ids@),
                seeded == by_seed(participants@),
                tid == tournament_id@,
                match_ids@.len() == match_total(rn, is_double),
                round_ids@.len() == round_total(rn, is_double),
                seeding_ready(participants@, order@, seeds@, rn),
                lower == has_lower(rn, is_double),
                lower ==> lower_starts_ready(lstart@, rn),
                ri < r,
                start == upper_start(rn, ri as int),
                count == upper_count(rn, ri as int),
                mi <= count,
                ms@.len() == start + mi,
                flat_prefix_ok(ms@, tid, ids, rids),
                upper_done(ms@, tid, ids, rids, seeded, rn, is_double, ri as int, mi as int),
            decreases count - mi,
        {
            let m = make_upper_match(
                tournament_id, match_ids, round_ids, participants, &order, &seeds, &lstart, r, bs, is_double, ri, mi, start, count,
            );
            let ghost before = ms@;
            ms.push(m);
            proof {
                lemma_upper_done_grow(before, ms@, tid, ids, rids, seeded, rn, is_double, ri as int, mi as int);
                assert(ms@[start + mi] == m);
                assert(upper_match_ok(ms@, tid, ids, rids, seeded, rn, is_double, ri as int, mi as int));
                assert(rids[ri as int] == m.round_id@);
                assert forall|f: int| 0 <= f < ms@.len() implies #[trigger] ms@[f].id@ == ids[f] && ms@[f].tournament_id@ == tid
                    && rids.contains(ms@[f].round_id@) by {
                    if f < before.len() {
                        assert(ms@[f] == before[f]);
                    }
                }
            }
            mi = mi + 1;
        }
        proof {
            lemma_upper_step(rn, ri as int);
            if ri + 1 < r {
                lemma_upper_step(rn, ri as int + 1);
            }
        }
        start = start + count;
        count = count / 2;
        ri = ri + 1;
    }
    if lower {
        let total = 2 * (r - 1);
        let mut l: usize = 0;
        let mut count: usize = bs / 4;
        proof {
            lemma_lower_bound(rn, 0);
            assert(pow2(rn) == 2 * pow2((rn - 1) as nat));
            assert(pow2((rn - 1) as nat) == 2 * pow2((rn - 2) as nat));
            assert(ms@.len() == lower_start(rn, 0));
        }
        while l < total
            invariant
                2 <= r <= 30,
                rn == r,
                bs == pow2(rn),
                bs <= 0x4000_0000,
                is_double,
                ids == texts(match_ids@),
                rids == texts(round_ids@),
                seeded == by_seed(participants@),
                tid == tournament_id@,
                match_ids@.len() == match_total(rn, is_double),
                round_ids@.len() == round_total(rn, is_double),
                lower_starts_ready(lstart@, rn),
                total == lower_total(rn),
                l <= total,
                l < total ==> count == lower_count(rn, l as int),
                ms@.len() == lower_start(rn, l as int),
                flat_prefix_ok(ms@, tid, ids, rids),
                upper_done(ms@, tid, ids, rids, seeded, rn, is_double, rn as int, 0),
                lower_done(ms@, tid, ids, rids, rn, l as int, 0),
            decreases total - l,
        {
            proof {
                lemma_lower_bound(rn, l as int);
            }
            let mut mi: usize = 0;
            while mi < count
                invariant
                    2 <= r <= 30,
                    rn == r,
                    bs == pow2(rn),
                    is_double,
                    ids == texts(match_ids@),
                    rids == texts(round_ids@),
                    seeded == by_seed(participants@),
                    tid == tournament_id@,
                    match_ids@.len() == match_total(rn, is_double),
                    round_ids@.len() == round_total(rn, is_double),
                    lower_starts_ready(lstart@, rn),
                    total == lower_total(rn),
                    l < total,
                    count == lower_count(rn, l as int),
                    mi <= count,
                    ms@.len() == lower_start(rn, l as int) + mi,
                    flat_prefix_ok(ms@, tid, ids, rids),
                    upper_done(ms@, tid, ids, rids, seeded, rn, is_double, rn as int, 0),
                    lower_done(ms@, tid, ids, rids, rn, l as int, mi as int),
                decreases count - mi,
            {
                let m = make_lower_match(tournament_id, match_ids, round_ids, &lstart, r, bs, is_double, l, mi, count);
                let ghost before = ms@;
                ms.push(m);
                proof {
                    lemma_upper_step(rn, rn - 1);
                    lemma_lower_bound(rn, l as int);
                    lemma_upper_done_grow(before, ms@, tid, ids, rids, seeded, rn, is_double, rn as int, 0);
                    lemma_lower_done_grow(before, ms@, tid, ids, rids, rn, l as int, mi as int);
                    assert(ms@[lower_start(rn, l as int) + mi] == m);
                    assert(lower_match_ok(ms@, tid, ids, rids, rn, l as int, mi as int));
                    assert(rids[r + l] == m.round_id@);
                    assert forall|f: int| 0 <= f < ms@.len() implies #[trigger] ms@[f].id@ == ids[f] && ms@[f].tournament_id@ == tid
                        && rids.contains(ms@[f].round_id@) by {
                        if f < before.len() {
                            assert(ms@[f] == before[f]);
                        }
                    }
                }
                mi = mi + 1;
            }
            proof {
                lemma_lower_bound(rn, l as int);
            }
            if l % 2 == 1 {
                count = count / 2;
            }
            l = l + 1;
        }
        let gf = Match {
            id: copy_string(&match_ids[2 * bs - 3]),
            tournament_id: String::from_str(tournament_id),
            round_id: copy_string(&round_ids[3 * r - 2]),
            match_order: 0,
            player1_id: None,
            player2_id: None,
            player1_name: String::new(),
            player2_name: String::new(),
            score1: 0,
            score2: 0,
            winner_id: None,
            status: MatchStatus::Pending,
            next_match_id: None,
            next_match_slot: 0,
            loser_next_match_id: None,
            loser_next_match_slot: 0,
            bracket_type: BracketType::GrandFinal,
        };
        let ghost before = ms@;
        ms.push(gf);
        proof {
            lemma_lower_bound(rn, lower_total(rn) - 1);
            lemma_upper_step(rn, rn - 1);
            lemma_lower_bound(rn, 0);
            lemma_upper_done_grow(before, ms@, tid, ids, rids, seeded, rn, is_double, rn as int, 0);
            lemma_lower_done_grow(before, ms@, tid, ids, rids, rn, lower_total(rn), 0);
            assert(ms@[grand_final_at(rn)] == gf);
            assert(rids[3 * r - 2] == gf.round_id@);
            assert forall|f: int| 0 <= f < ms@.len() implies #[trigger] ms@[f].id@ == ids[f] && ms@[f].tournament_id@ == tid
                && rids.contains(ms@[f].round_id@) by {
                if f < before.len() {
                    assert(ms@[f] == before[f]);
                }
            }
        }
    }
    proof {
        lemma_upper_step(rn, rn - 1);
        assert(ms@.len() == ids.len());
        assert(flat_prefix_ok(ms@, tid, ids, rids));
    }
    (rounds, ms)
}

} // verus!
