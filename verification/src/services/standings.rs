use vstd::prelude::*;
use crate::domain::match_model::{BracketType, Match, MatchStatus};
use crate::domain::participant::Participant;
use crate::domain::round::Round;
use crate::domain::tournament::TournamentType;
use crate::text::{copy_string, str_eq};

verus! {

// ─── Records from the match list ────────────────────────────────────────

/// `o` holds the identifier `pid`.
pub open spec fn is_id(o: Option<String>, pid: Seq<char>) -> bool {
    o matches Some(s) && s@ == pid
}

/// Participant `pid` plays in match `m`.
pub open spec fn involves(m: Match, pid: Seq<char>) -> bool {
    is_id(m.player1_id, pid) || is_id(m.player2_id, pid)
}

/// The record of participant `pid` over the completed matches of `ms`:
/// (matches won, lost, drawn, games won, games lost). A completed match
/// without a winner is a draw; games are the participant's and the
/// opponent's scores.
pub open spec fn record(ms: Seq<Match>, pid: Seq<char>) -> (int, int, int, int, int)
    decreases ms.len(),
{
    if ms.len() == 0 {
        (0, 0, 0, 0, 0)
    } else {
        let t = record(ms.drop_last(), pid);
        let m = ms.last();
        if m.status == MatchStatus::Completed && involves(m, pid) {
            let own: int = if is_id(m.player1_id, pid) { m.score1 as int } else { m.score2 as int };
            let opp: int = if is_id(m.player1_id, pid) { m.score2 as int } else { m.score1 as int };
            if is_id(m.winner_id, pid) {
                (t.0 + 1, t.1, t.2, t.3 + own, t.4 + opp)
            } else if m.winner_id is Some {
                (t.0, t.1 + 1, t.2, t.3 + own, t.4 + opp)
            } else {
                (t.0, t.1, t.2 + 1, t.3 + own, t.4 + opp)
            }
        } else {
            t
        }
    }
}

/// The number of the first round in `rs` with identifier `rid`, 0 if none.
pub open spec fn round_no(rs: Seq<Round>, rid: Seq<char>) -> int
    decreases rs.len(),
{
    if rs.len() == 0 {
        0
    } else if rs[0].id@ == rid {
        rs[0].round_number as int
    } else {
        round_no(rs.drop_first(), rid)
    }
}

/// The placement score a participant earns by playing match `m` (won or
/// not), if the match counts for placement: the grand final, the
/// third-place match, a single-elimination round, or a round of either
/// bracket of double elimination.
pub open spec fn placement_score(m: Match, rs: Seq<Round>, won: bool, tt: TournamentType) -> Option<int> {
    let bonus: int = if won { 500 } else { 0 };
    let rn = round_no(rs, m.round_id@);
    if m.bracket_type == BracketType::GrandFinal {
        Some(if won { 100000int } else { 90000int })
    } else if m.bracket_type == BracketType::ThirdPlace {
        Some(if won { 80000int } else { 70000int })
    } else if tt == TournamentType::SingleElimination {
        Some(rn * 1000 + bonus)
    } else if tt == TournamentType::DoubleElimination && m.bracket_type == BracketType::Lower {
        Some(20000 + rn * 1000 + bonus)
    } else if tt == TournamentType::DoubleElimination && m.bracket_type == BracketType::Upper {
        Some(50000 + rn * 1000 + bonus)
    } else {
        None
    }
}

/// The placement a participant is fixed at when losing match `m`, if a
/// loss there eliminates: the grand final, the third-place match, a
/// single-elimination round, or a lower-bracket round.
pub open spec fn knockout_score(m: Match, rs: Seq<Round>, tt: TournamentType) -> Option<int> {
    let rn = round_no(rs, m.round_id@);
    if m.bracket_type == BracketType::GrandFinal {
        Some(90000int)
    } else if m.bracket_type == BracketType::ThirdPlace {
        Some(70000int)
    } else if tt == TournamentType::SingleElimination {
        Some(rn * 1000)
    } else if tt == TournamentType::DoubleElimination && m.bracket_type == BracketType::Lower {
        Some(20000 + rn * 1000)
    } else {
        None
    }
}

/// Placement of participant `pid` over the matches it plays in, in order:
/// (best score reached, knocked out, score it was knocked out at). The
/// last knockout counts.
pub open spec fn placement(ms: Seq<Match>, rs: Seq<Round>, pid: Seq<char>, tt: TournamentType) -> (int, bool, int)
    decreases ms.len(),
{
    if ms.len() == 0 {
        (0, false, 0)
    } else {
        let t = placement(ms.drop_last(), rs, pid, tt);
        let m = ms.last();
        if !involves(m, pid) {
            t
        } else {
            let won = is_id(m.winner_id, pid);
            let lost = m.winner_id is Some && !won;
            let best = match placement_score(m, rs, won, tt) {
                Some(c) => if c > t.0 { c } else { t.0 },
                None => t.0,
            };
            match knockout_score(m, rs, tt) {
                Some(k) => if lost { (best, true, k) } else { (best, t.1, t.2) },
                None => (best, t.1, t.2),
            }
        }
    }
}

/// The bracket score of participant `pid`: none in a round robin; else the
/// score it was knocked out at, or the best score it reached.
pub open spec fn bracket_score(ms: Seq<Match>, rs: Seq<Round>, pid: Seq<char>, tt: TournamentType) -> int {
    if tt == TournamentType::RoundRobin {
        0
    } else {
        let p = placement(ms, rs, pid, tt);
        if p.1 { p.2 } else { p.0 }
    }
}

/// Standing of one participant in a tournament.
#[derive(Debug)]
pub struct ParticipantStanding {
    pub id: String,
    pub name: String,
    pub matches_played: i32,
    pub matches_won: i32,
    pub matches_lost: i32,
    pub matches_drawn: i32,
    pub games_won: i32,
    pub games_lost: i32,
    pub bracket_score: i32,
}

impl Clone for ParticipantStanding {
    fn clone(&self) -> (r: Self)
        ensures
            r == *self,
    {
        ParticipantStanding {
            id: copy_string(&self.id),
            name: copy_string(&self.name),
            matches_played: self.matches_played,
            matches_won: self.matches_won,
            matches_lost: self.matches_lost,
            matches_drawn: self.matches_drawn,
            games_won: self.games_won,
            games_lost: self.games_lost,
            bracket_score: self.bracket_score,
        }
    }
}

/// `s` is the standing of participant `p` over the matches `ms` with rounds
/// `rs` in a tournament of type `tt`.
pub open spec fn standing_ok(s: ParticipantStanding, p: Participant, ms: Seq<Match>, rs: Seq<Round>, tt: TournamentType) -> bool {
    let rec = record(ms, p.id@);
    &&& s.id == p.id
    &&& s.name == p.name
    &&& s.matches_won == rec.0
    &&& s.matches_lost == rec.1
    &&& s.matches_drawn == rec.2
    &&& s.matches_played == rec.0 + rec.1 + rec.2
    &&& s.games_won == rec.3
    &&& s.games_lost == rec.4
    &&& s.bracket_score == bracket_score(ms, rs, p.id@, tt)
}

/// The numbers of participant `pid` fit the standing's fields.
pub open spec fn standing_fits(ms: Seq<Match>, rs: Seq<Round>, pid: Seq<char>, tt: TournamentType) -> bool {
    let rec = record(ms, pid);
    &&& rec.3 <= i32::MAX && rec.3 >= i32::MIN
    &&& rec.4 <= i32::MAX && rec.4 >= i32::MIN
}

// ─── Ordering ───────────────────────────────────────────────────────────

/// Head-to-head wins of `a` over `b`: completed matches between the two
/// that `a` won.
pub open spec fn h2h_wins(ms: Seq<Match>, a: Seq<char>, b: Seq<char>) -> int
    decreases ms.len(),
{
    if ms.len() == 0 {
        0
    } else {
        let m = ms.last();
        let between = (is_id(m.player1_id, a) && is_id(m.player2_id, b)) || (is_id(m.player1_id, b) && is_id(m.player2_id, a));
        h2h_wins(ms.drop_last(), a, b) + if m.status == MatchStatus::Completed && between && is_id(m.winner_id, a) {
            1int
        } else {
            0int
        }
    }
}

/// `a` ranks above `b` by bracket score, then games won, then game
/// difference, then matches won (all descending).
pub open spec fn ranks_above(a: ParticipantStanding, b: ParticipantStanding) -> bool {
    let ad = a.games_won - a.games_lost;
    let bd = b.games_won - b.games_lost;
    ||| a.bracket_score > b.bracket_score
    ||| a.bracket_score == b.bracket_score && a.games_won > b.games_won
    ||| a.bracket_score == b.bracket_score && a.games_won == b.games_won && ad > bd
    ||| a.bracket_score == b.bracket_score && a.games_won == b.games_won && ad == bd && a.matches_won > b.matches_won
}

/// `a` and `b` tie on all four ranking numbers.
pub open spec fn ranks_level(a: ParticipantStanding, b: ParticipantStanding) -> bool {
    a.bracket_score == b.bracket_score && a.games_won == b.games_won && a.games_lost == b.games_lost && a.matches_won == b.matches_won
}

/// `a` won more of the head-to-head matches against `b` than it lost.
pub open spec fn h2h_above(a: ParticipantStanding, b: ParticipantStanding, ms: Seq<Match>) -> bool {
    h2h_wins(ms, a.id@, b.id@) > h2h_wins(ms, b.id@, a.id@)
}

/// `a` is ranked strictly before `b`: by the four numbers, then head to
/// head.
pub open spec fn standing_before(a: ParticipantStanding, b: ParticipantStanding, ms: Seq<Match>) -> bool {
    ranks_above(a, b) || (ranks_level(a, b) && h2h_above(a, b, ms))
}

/// `order` ranks the standings `st`: each position once; nobody after
/// someone they rank above; neighbours that tie on the numbers in
/// head-to-head order; neighbours that tie on everything in their given
/// order.
pub open spec fn is_standing_order(st: Seq<ParticipantStanding>, ms: Seq<Match>, order: Seq<int>) -> bool {
    order.len() == st.len() && ranking_ok(st, ms, order)
}

/// `order` ranks some of the standings `st` (see `is_standing_order`).
pub open spec fn ranking_ok(st: Seq<ParticipantStanding>, ms: Seq<Match>, order: Seq<int>) -> bool {
    &&& forall|i: int| 0 <= i < order.len() ==> 0 <= #[trigger] order[i] < st.len()
    &&& forall|i: int, j: int| 0 <= i < j < order.len() ==> #[trigger] order[i] != #[trigger] order[j]
    &&& forall|i: int, j: int| 0 <= i < j < order.len() ==> !ranks_above(st[#[trigger] order[j]], st[#[trigger] order[i]])
    &&& forall|i: int, j: int| 0 <= i && j == i + 1 && j < order.len() && ranks_level(st[#[trigger] order[i]], st[#[trigger] order[j]])
        ==> !h2h_above(st[order[j]], st[order[i]], ms) && (!h2h_above(st[order[i]], st[order[j]], ms) ==> order[i] < order[j])
}

// ─── Executable pieces ──────────────────────────────────────────────────

/// `o` holds the identifier `pid`.
pub fn holds_id(o: &Option<String>, pid: &String) -> (r: bool)
    ensures
        r == is_id(*o, pid@),
{
    match o {
        Some(s) => str_eq(s.as_str(), pid.as_str()),
        None => false,
    }
}

/// Records only grow by one match at a time.
pub proof fn lemma_record_bounds(ms: Seq<Match>, pid: Seq<char>)
    ensures
        0 <= record(ms, pid).0 && 0 <= record(ms, pid).1 && 0 <= record(ms, pid).2,
        record(ms, pid).0 + record(ms, pid).1 + record(ms, pid).2 <= ms.len(),
        -0x8000_0000 * ms.len() <= record(ms, pid).3 <= 0x7fff_ffff * ms.len(),
        -0x8000_0000 * ms.len() <= record(ms, pid).4 <= 0x7fff_ffff * ms.len(),
    decreases ms.len(),
{
    if ms.len() > 0 {
        lemma_record_bounds(ms.drop_last(), pid);
    }
}

/// The record of `pid` over the matches `ms`.
pub fn compute_record(ms: &Vec<Match>, pid: &String) -> (r: (i128, i128, i128, i128, i128))
    ensures
        (r.0 as int, r.1 as int, r.2 as int, r.3 as int, r.4 as int) == record(ms@, pid@),
{
    let mut won: i128 = 0;
    let mut lost: i128 = 0;
    let mut drawn: i128 = 0;
    let mut gw: i128 = 0;
    let mut gl: i128 = 0;
    let n = ms.len();
    let mut k: usize = 0;
    while k < n
        invariant
            n == ms@.len(),
            k <= ms@.len(),
            (won as int, lost as int, drawn as int, gw as int, gl as int) == record(ms@.take(k as int), pid@),
        decreases ms@.len() - k,
    {
        proof {
            assert(ms@.take(k + 1).drop_last() =~= ms@.take(k as int));
            lemma_record_bounds(ms@.take(k as int), pid@);
            assert(-0x8000_0000 * k <= gw <= 0x7fff_ffff * k) by (nonlinear_arith)
                requires
                    -0x8000_0000 * ms@.take(k as int).len() <= gw <= 0x7fff_ffff * ms@.take(k as int).len(),
                    ms@.take(k as int).len() == k,
            ;
            assert(-0x8000_0000 * k <= gl <= 0x7fff_ffff * k) by (nonlinear_arith)
                requires
                    -0x8000_0000 * ms@.take(k as int).len() <= gl <= 0x7fff_ffff * ms@.take(k as int).len(),
                    ms@.take(k as int).len() == k,
            ;
            assert(0x7fff_ffff * k <= 0x7fff_ffff * 0x1_0000_0000_0000_0000) by (nonlinear_arith)
                requires
                    k <= 0xffff_ffff_ffff_ffff,
            ;
            assert(-0x8000_0000 * k >= -0x8000_0000 * 0x1_0000_0000_0000_0000) by (nonlinear_arith)
                requires
                    k <= 0xffff_ffff_ffff_ffff,
            ;
        }
        let m = &ms[k];
        if m.status == MatchStatus::Completed {
            let first = holds_id(&m.player1_id, pid);
            let second = holds_id(&m.player2_id, pid);
            if first || second {
                let own: i128 = if first { m.score1 as i128 } else { m.score2 as i128 };
                let opp: i128 = if first { m.score2 as i128 } else { m.score1 as i128 };
                if holds_id(&m.winner_id, pid) {
                    won = won + 1;
                } else if m.winner_id.is_some() {
                    lost = lost + 1;
                } else {
                    drawn = drawn + 1;
                }
                gw = gw + own;
                gl = gl + opp;
            }
        }
        k = k + 1;
    }
    proof {
        assert(ms@.take(ms@.len() as int) =~= ms@);
    }
    (won, lost, drawn, gw, gl)
}

/// Every round number of `rs` keeps the bracket scores built from it
/// (a thousand points a round, plus up to 50,500) within an `i32`.
pub open spec fn round_numbers_bounded(rs: Seq<Round>) -> bool {
    forall|k: int| 0 <= k < rs.len() ==> -2_147_483 <= #[trigger] rs[k].round_number <= 2_147_433
}

proof fn lemma_round_no_bounded(rs: Seq<Round>, rid: Seq<char>)
    requires
        round_numbers_bounded(rs),
    ensures
        -2_147_483 <= round_no(rs, rid) <= 2_147_433,
    decreases rs.len(),
{
    if rs.len() > 0 {
        assert(round_numbers_bounded(rs.drop_first())) by {
            assert forall|k: int| 0 <= k < rs.drop_first().len() implies -2_147_483 <= #[trigger] rs.drop_first()[k].round_number <= 2_147_433 by {
                assert(rs.drop_first()[k] == rs[k + 1]);
            }
        }
        lemma_round_no_bounded(rs.drop_first(), rid);
    }
}

/// The number of the first round of `rs` with identifier `rid`, 0 if none.
pub fn find_round_no(rs: &Vec<Round>, rid: &String) -> (r: i32)
    ensures
        r as int == round_no(rs@, rid@),
{
    let mut k: usize = 0;
    assert(rs@.subrange(0, rs@.len() as int) =~= rs@);
    while k < rs.len()
        invariant
            k <= rs@.len(),
            round_no(rs@, rid@) == round_no(rs@.subrange(k as int, rs@.len() as int), rid@),
        decreases rs@.len() - k,
    {
        let ghost rest = rs@.subrange(k as int, rs@.len() as int);
        assert(rest[0] == rs@[k as int]);
        if str_eq(rs[k].id.as_str(), rid.as_str()) {
            return rs[k].round_number;
        }
        assert(rest.drop_first() =~= rs@.subrange(k + 1, rs@.len() as int));
        k = k + 1;
    }
    0
}

proof fn lemma_placement_bounded(ms: Seq<Match>, rs: Seq<Round>, pid: Seq<char>, tt: TournamentType)
    requires
        round_numbers_bounded(rs),
    ensures
        -2_147_483_000 <= placement(ms, rs, pid, tt).0 <= 2_147_483_500,
        -2_147_483_000 <= placement(ms, rs, pid, tt).2 <= 2_147_483_500,
    decreases ms.len(),
{
    if ms.len() > 0 {
        lemma_placement_bounded(ms.drop_last(), rs, pid, tt);
        let rn = round_no(rs, ms.last().round_id@);
        lemma_round_no_bounded(rs, ms.last().round_id@);
        assert(-2_147_483_000 <= rn * 1000 <= 2_147_433_000) by (nonlinear_arith)
            requires
                -2_147_483 <= rn <= 2_147_433,
        ;
    }
}

/// The placement of `pid` over the matches `ms` with rounds `rs`.
pub fn compute_placement(ms: &Vec<Match>, rs: &Vec<Round>, pid: &String, tt: TournamentType) -> (r: (i64, bool, i64))
    requires
        round_numbers_bounded(rs@),
    ensures
        (r.0 as int, r.1, r.2 as int) == placement(ms@, rs@, pid@, tt),
{
    let mut best: i64 = 0;
    let mut out = false;
    let mut out_at: i64 = 0;
    let mut k: usize = 0;
    while k < ms.len()
        invariant
            k <= ms@.len(),
            round_numbers_bounded(rs@),
            (best as int, out, out_at as int) == placement(ms@.take(k as int), rs@, pid@, tt),
        decreases ms@.len() - k,
    {
        proof {
            assert(ms@.take(k + 1).drop_last() =~= ms@.take(k as int));
            assert(ms@.take(k + 1).last() == ms@[k as int]);
            lemma_placement_bounded(ms@.take(k as int), rs@, pid@, tt);
            lemma_round_no_bounded(rs@, ms@[k as int].round_id@);
            let rn = round_no(rs@, ms@[k as int].round_id@);
            assert(-2_147_483_000 <= rn * 1000 <= 2_147_433_000) by (nonlinear_arith)
                requires
                    -2_147_483 <= rn <= 2_147_433,
            ;
        }
        let m = &ms[k];
        if holds_id(&m.player1_id, pid) || holds_id(&m.player2_id, pid) {
            let won = holds_id(&m.winner_id, pid);
            let lost = m.winner_id.is_some() && !won;
            let bonus: i64 = if won { 500 } else { 0 };
            let rn = find_round_no(rs, &m.round_id) as i64;
            let grand = m.bracket_type == BracketType::GrandFinal;
            let third = m.bracket_type == BracketType::ThirdPlace;
            let single = tt == TournamentType::SingleElimination;
            let double = tt == TournamentType::DoubleElimination;
            let lower = m.bracket_type == BracketType::Lower;
            let upper = m.bracket_type == BracketType::Upper;
            let score: Option<i64> = if grand {
                Some(if won { 100000 } else { 90000 })
            } else if third {
                Some(if won { 80000 } else { 70000 })
            } else if single {
                Some(rn * 1000 + bonus)
            } else if double && lower {
                Some(20000 + rn * 1000 + bonus)
            } else if double && upper {
                Some(50000 + rn * 1000 + bonus)
            } else {
                None
            };
            let knock: Option<i64> = if grand {
                Some(90000)
            } else if third {
                Some(70000)
            } else if single {
                Some(rn * 1000)
            } else if double && lower {
                Some(20000 + rn * 1000)
            } else {
                None
            };
            match score {
                Some(c) => {
                    if c > best {
                        best = c;
                    }
                },
                None => {},
            }
            match knock {
                Some(kv) => {
                    if lost {
                        out = true;
                        out_at = kv;
                    }
                },
                None => {},
            }
        }
        k = k + 1;
    }
    proof {
        assert(ms@.take(ms@.len() as int) =~= ms@);
    }
    (best, out, out_at)
}

/// Head-to-head wins of `a` over `b`.
pub fn h2h_count(ms: &Vec<Match>, a: &String, b: &String) -> (r: i64)
    requires
        ms@.len() < 0x1_0000_0000,
    ensures
        r as int == h2h_wins(ms@, a@, b@),
{
    let mut c: i64 = 0;
    let mut k: usize = 0;
    while k < ms.len()
        invariant
            k <= ms@.len() < 0x1_0000_0000,
            c as int == h2h_wins(ms@.take(k as int), a@, b@),
            0 <= c <= k,
        decreases ms@.len() - k,
    {
        proof {
            assert(ms@.take(k + 1).drop_last() =~= ms@.take(k as int));
        }
        let m = &ms[k];
        let between = (holds_id(&m.player1_id, a) && holds_id(&m.player2_id, b)) || (holds_id(&m.player1_id, b) && holds_id(&m.player2_id, a));
        if m.status == MatchStatus::Completed && between && holds_id(&m.winner_id, a) {
            c = c + 1;
        }
        k = k + 1;
    }
    proof {
        assert(ms@.take(ms@.len() as int) =~= ms@);
    }
    c
}

/// Whether `a` is ranked strictly before `b`.
pub fn ranked_before(a: &ParticipantStanding, b: &ParticipantStanding, ms: &Vec<Match>) -> (r: bool)
    requires
        ms@.len() < 0x1_0000_0000,
    ensures
        r == standing_before(*a, *b, ms@),
{
    let ad = a.games_won as i64 - a.games_lost as i64;
    let bd = b.games_won as i64 - b.games_lost as i64;
    if a.bracket_score != b.bracket_score {
        return a.bracket_score > b.bracket_score;
    }
    if a.games_won != b.games_won {
        return a.games_won > b.games_won;
    }
    if ad != bd {
        return ad > bd;
    }
    if a.matches_won != b.matches_won {
        return a.matches_won > b.matches_won;
    }
    let a_wins = h2h_count(ms, &a.id, &b.id);
    let b_wins = h2h_count(ms, &b.id, &a.id);
    a_wins > b_wins
}

proof fn lemma_rank_trans(a: ParticipantStanding, b: ParticipantStanding, c: ParticipantStanding)
    requires
        !ranks_above(c, b),
        ranks_above(a, b) || ranks_level(a, b),
    ensures
        !ranks_above(c, a),
{
}

/// Inserting `x` where it belongs keeps a ranking a ranking.
proof fn lemma_insert_ranked(st: Seq<ParticipantStanding>, ms: Seq<Match>, old: Seq<int>, x: int, pos: int)
    requires
        ranking_ok(st, ms, old),
        0 <= x < st.len(),
        forall|i: int| 0 <= i < old.len() ==> #[trigger] old[i] < x,
        0 <= pos <= old.len(),
        forall|i: int| 0 <= i < pos ==> !standing_before(st[x], st[#[trigger] old[i]], ms),
        pos < old.len() ==> standing_before(st[x], st[old[pos]], ms),
    ensures
        ranking_ok(st, ms, old.insert(pos, x)),
        forall|i: int| 0 <= i < old.len() + 1 ==> #[trigger] old.insert(pos, x)[i] <= x,
{
    let new = old.insert(pos, x);
    assert forall|i: int| 0 <= i < new.len() implies 0 <= #[trigger] new[i] < st.len() && new[i] <= x by {
        if i < pos {
            assert(new[i] == old[i]);
        } else if i > pos {
            assert(new[i] == old[i - 1]);
        }
    }
    assert forall|i: int, j: int| 0 <= i < j < new.len() implies #[trigger] new[i] != #[trigger] new[j] by {
        if i < pos && j < pos {
            assert(new[i] == old[i] && new[j] == old[j]);
        } else if i < pos && j == pos {
            assert(new[i] == old[i]);
        } else if i < pos {
            assert(new[i] == old[i] && new[j] == old[j - 1]);
        } else if i == pos {
            assert(new[j] == old[j - 1]);
        } else {
            assert(new[i] == old[i - 1] && new[j] == old[j - 1]);
        }
    }
    assert forall|i: int, j: int| 0 <= i < j < new.len() implies !ranks_above(st[#[trigger] new[j]], st[#[trigger] new[i]]) by {
        if i < pos && j < pos {
            assert(new[i] == old[i] && new[j] == old[j]);
        } else if i < pos && j == pos {
            assert(new[i] == old[i]);
            assert(!standing_before(st[x], st[old[i]], ms));
        } else if i < pos {
            assert(new[i] == old[i] && new[j] == old[j - 1]);
        } else if i == pos {
            assert(new[j] == old[j - 1]);
            if j - 1 > pos {
                assert(!ranks_above(st[old[j - 1]], st[old[pos]]));
            }
            lemma_rank_trans(st[x], st[old[pos]], st[old[j - 1]]);
        } else {
            assert(new[i] == old[i - 1] && new[j] == old[j - 1]);
        }
    }
    assert forall|i: int, j: int| 0 <= i && j == i + 1 && j < new.len() && ranks_level(st[#[trigger] new[i]], st[#[trigger] new[j]])
        implies !h2h_above(st[new[j]], st[new[i]], ms) && (!h2h_above(st[new[i]], st[new[j]], ms) ==> new[i] < new[j]) by {
        if j < pos {
            assert(new[i] == old[i] && new[j] == old[j]);
        } else if j == pos {
            assert(new[i] == old[i]);
            assert(!standing_before(st[x], st[old[i]], ms));
        } else if i == pos {
            assert(new[j] == old[pos]);
            assert(standing_before(st[x], st[old[pos]], ms));
        } else {
            assert(new[i] == old[i - 1] && new[j] == old[j - 1]);
        }
    }
}

/// The positions of the standings `st` in ranking order (a stable
/// insertion by `ranked_before`).
pub fn rank_standings(st: &Vec<ParticipantStanding>, ms: &Vec<Match>) -> (order: Vec<usize>)
    requires
        ms@.len() < 0x1_0000_0000,
    ensures
        is_standing_order(st@, ms@, order@.map_values(|i: usize| i as int)),
{
    let n = st.len();
    let mut order: Vec<usize> = Vec::new();
    let mut x: usize = 0;
    while x < n
        invariant
            n == st@.len(),
            ms@.len() < 0x1_0000_0000,
            x <= n,
            order@.len() == x,
            ranking_ok(st@, ms@, order@.map_values(|i: usize| i as int)),
            forall|i: int| 0 <= i < order@.len() ==> #[trigger] order@[i] < x,
        decreases n - x,
    {
        let mut pos: usize = 0;
        while pos < order.len() && !ranked_before(&st[x], &st[order[pos]], ms)
            invariant
                n == st@.len(),
                ms@.len() < 0x1_0000_0000,
                x < n,
                pos <= order@.len(),
                forall|i: int| 0 <= i < order@.len() ==> #[trigger] order@[i] < x,
                forall|i: int| 0 <= i < pos ==> !standing_before(st@[x as int], st@[#[trigger] order@[i] as int], ms@),
            decreases order@.len() - pos,
        {
            pos = pos + 1;
        }
        let ghost old = order@.map_values(|i: usize| i as int);
        proof {
            if pos < order@.len() {
                assert(standing_before(st@[x as int], st@[order@[pos as int] as int], ms@));
            }
            assert forall|i: int| 0 <= i < pos implies !standing_before(st@[x as int], st@[#[trigger] old[i]], ms@) by {
                assert(old[i] == order@[i] as int);
            }
            assert forall|i: int| 0 <= i < old.len() implies #[trigger] old[i] < x by {
                assert(old[i] == order@[i] as int);
            }
            lemma_insert_ranked(st@, ms@, old, x as int, pos as int);
        }
        order.insert(pos, x);
        proof {
            assert(order@.map_values(|i: usize| i as int) =~= old.insert(pos as int, x as int));
            assert forall|i: int| 0 <= i < order@.len() implies #[trigger] order@[i] < x + 1 by {
                assert(order@.map_values(|i: usize| i as int)[i] == order@[i] as int);
            }
        }
        x = x + 1;
    }
    order
}

/// The standing of participant `p` over the matches `ms` with rounds `rs`.
pub fn make_standing(p: &Participant, ms: &Vec<Match>, rs: &Vec<Round>, tt: TournamentType) -> (s: ParticipantStanding)
    requires
        ms@.len() <= 0x7fff_ffff,
        standing_fits(ms@, rs@, p.id@, tt),
        round_numbers_bounded(rs@),
    ensures
        standing_ok(s, *p, ms@, rs@, tt),
{
    let rec = compute_record(ms, &p.id);
    proof {
        lemma_record_bounds(ms@, p.id@);
        lemma_placement_bounded(ms@, rs@, p.id@, tt);
    }
    let score: i64 = if tt == TournamentType::RoundRobin {
        0
    } else {
        let pl = compute_placement(ms, rs, &p.id, tt);
        if pl.1 {
            pl.2
        } else {
            pl.0
        }
    };
    ParticipantStanding {
        id: copy_string(&p.id),
        name: copy_string(&p.name),
        matches_played: (rec.0 + rec.1 + rec.2) as i32,
        matches_won: rec.0 as i32,
        matches_lost: rec.1 as i32,
        matches_drawn: rec.2 as i32,
        games_won: rec.3 as i32,
        games_lost: rec.4 as i32,
        bracket_score: score as i32,
    }
}

/// `out` is the standings of the entrants `ps` in ranking order: `order`
/// says whose standing stands at each place, each entrant once; nobody
/// after someone they rank above; tied neighbours in head-to-head order,
/// and in entrant order when that ties too.
pub open spec fn standings_ranked(
    out: Seq<ParticipantStanding>,
    ps: Seq<Participant>,
    ms: Seq<Match>,
    rs: Seq<Round>,
    tt: TournamentType,
    order: Seq<int>,
) -> bool {
    &&& out.len() == ps.len()
    &&& order.len() == ps.len()
    &&& forall|i: int| 0 <= i < order.len() ==> 0 <= #[trigger] order[i] < ps.len()
    &&& forall|i: int, j: int| 0 <= i < j < order.len() ==> #[trigger] order[i] != #[trigger] order[j]
    &&& forall|i: int| 0 <= i < out.len() ==> standing_ok(#[trigger] out[i], ps[order[i]], ms, rs, tt)
    &&& forall|i: int, j: int| 0 <= i < j < out.len() ==> !ranks_above(#[trigger] out[j], #[trigger] out[i])
    &&& forall|i: int, j: int| 0 <= i && j == i + 1 && j < out.len() && ranks_level(#[trigger] out[i], #[trigger] out[j])
        ==> !h2h_above(out[j], out[i], ms) && (!h2h_above(out[i], out[j], ms) ==> order[i] < order[j])
}

/// The standings of the entrants `ps` over the matches `ms` with rounds
/// `rs`, in ranking order.
pub fn ranked_standings(ps: &Vec<Participant>, ms: &Vec<Match>, rs: &Vec<Round>, tt: TournamentType) -> (out: Vec<ParticipantStanding>)
    requires
        ms@.len() <= 0x7fff_ffff,
        forall|i: int| 0 <= i < ps@.len() ==> standing_fits(ms@, rs@, #[trigger] ps@[i].id@, tt),
        round_numbers_bounded(rs@),
    ensures
        exists|order: Seq<int>| standings_ranked(out@, ps@, ms@, rs@, tt, order),
{
    let mut st: Vec<ParticipantStanding> = Vec::new();
    let mut k: usize = 0;
    while k < ps.len()
        invariant
            k <= ps@.len(),
            ms@.len() <= 0x7fff_ffff,
            forall|i: int| 0 <= i < ps@.len() ==> standing_fits(ms@, rs@, #[trigger] ps@[i].id@, tt),
            round_numbers_bounded(rs@),
            st@.len() == k,
            forall|i: int| 0 <= i < k ==> standing_ok(#[trigger] st@[i], ps@[i], ms@, rs@, tt),
        decreases ps@.len() - k,
    {
        let s = make_standing(&ps[k], ms, rs, tt);
        st.push(s);
        k = k + 1;
    }
    let order = rank_standings(&st, ms);
    let ghost oi = order@.map_values(|i: usize| i as int);
    let mut out: Vec<ParticipantStanding> = Vec::new();
    let mut j: usize = 0;
    while j < order.len()
        invariant
            oi == order@.map_values(|i: usize| i as int),
            is_standing_order(st@, ms@, oi),
            st@.len() == ps@.len(),
            j <= order@.len(),
            out@.len() == j,
            forall|i: int| 0 <= i < j ==> #[trigger] out@[i] == st@[oi[i]],
        decreases order@.len() - j,
    {
        assert(oi[j as int] == order@[j as int] as int);
        out.push(st[order[j]].clone());
        j = j + 1;
    }
    proof {
        assert(standings_ranked(out@, ps@, ms@, rs@, tt, oi));
    }
    out
}

} // verus!
