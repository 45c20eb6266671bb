use vstd::prelude::*;
use vstd::string::*;
use crate::domain::match_model::{Match, MatchStatus};
use crate::domain::participant::Participant;
use crate::domain::round::Round;
use crate::domain::tournament::{Tournament, TournamentStatus};
use crate::sorting::{select_sorted, sorted_selection, is_sorted_selection, text_desc_order, text_desc_positions, is_text_desc_order};
use crate::text::{copy_string, is_err_with, str_eq};
use crate::table::{lemma_filter_member, retain_marked, subsequence_via};

verus! {

// ─── Lookups by identifier ───────────────────────────────────────────────

/// Some tournament row carries the identifier `id`.
pub open spec fn has_tournament(ts: Seq<Tournament>, id: Seq<char>) -> bool {
    exists|i: int| 0 <= i < ts.len() && #[trigger] ts[i].id@ == id
}

/// Some round row carries the identifier `id`.
pub open spec fn has_round(rs: Seq<Round>, id: Seq<char>) -> bool {
    exists|i: int| 0 <= i < rs.len() && #[trigger] rs[i].id@ == id
}

/// Some participant row carries the identifier `id`.
pub open spec fn has_participant(ps: Seq<Participant>, id: Seq<char>) -> bool {
    exists|i: int| 0 <= i < ps.len() && #[trigger] ps[i].id@ == id
}

/// Some match row carries the identifier `id`.
pub open spec fn has_match(ms: Seq<Match>, id: Seq<char>) -> bool {
    exists|i: int| 0 <= i < ms.len() && #[trigger] ms[i].id@ == id
}

/// The tournament row with identifier `id`, if any.
pub open spec fn tournament_with_id(ts: Seq<Tournament>, id: Seq<char>) -> Option<Tournament> {
    if has_tournament(ts, id) {
        Some(ts[choose|i: int| 0 <= i < ts.len() && #[trigger] ts[i].id@ == id])
    } else {
        None
    }
}

/// The match row with identifier `id`, if any.
pub open spec fn match_with_id(ms: Seq<Match>, id: Seq<char>) -> Option<Match> {
    if has_match(ms, id) {
        Some(ms[choose|i: int| 0 <= i < ms.len() && #[trigger] ms[i].id@ == id])
    } else {
        None
    }
}

/// The round number of the round with identifier `id` (0 when there is none).
pub open spec fn round_number_in(rs: Seq<Round>, id: Seq<char>) -> i32 {
    if has_round(rs, id) {
        rs[choose|i: int| 0 <= i < rs.len() && #[trigger] rs[i].id@ == id].round_number
    } else {
        0
    }
}

// ─── Ordered reads ───────────────────────────────────────────────────────

/// Sort keys of the match rows: the number of their round, then their order.
pub open spec fn match_keys(rs: Seq<Round>, ms: Seq<Match>) -> Seq<(i32, i32)> {
    Seq::new(ms.len(), |k: int| (round_number_in(rs, ms[k].round_id@), ms[k].match_order))
}

/// The match rows of tournament `tid` whose round exists.
pub open spec fn match_keep(rs: Seq<Round>, ms: Seq<Match>, tid: Seq<char>) -> Seq<bool> {
    Seq::new(ms.len(), |k: int| ms[k].tournament_id@ == tid && has_round(rs, ms[k].round_id@))
}

/// The matches of tournament `tid`, ordered by round number and then by
/// match order, ties in storage order.
pub open spec fn tournament_matches_in(rs: Seq<Round>, ms: Seq<Match>, tid: Seq<char>) -> Seq<Match> {
    sorted_selection(match_keys(rs, ms), match_keep(rs, ms, tid)).map_values(|k: int| ms[k])
}

/// The creation times of the tournament rows.
pub open spec fn created_keys(ts: Seq<Tournament>) -> Seq<Seq<char>> {
    ts.map_values(|t: Tournament| t.created_at@)
}

/// All tournaments, newest (greatest creation time) first, ties in storage
/// order.
pub open spec fn tournaments_newest_first(ts: Seq<Tournament>) -> Seq<Tournament> {
    text_desc_order(created_keys(ts)).map_values(|k: int| ts[k])
}

/// Sort keys of the round rows: their round number.
pub open spec fn round_keys(rs: Seq<Round>) -> Seq<(i32, i32)> {
    Seq::new(rs.len(), |k: int| (rs[k].round_number, 0i32))
}

/// The round rows of tournament `tid`.
pub open spec fn round_keep(rs: Seq<Round>, tid: Seq<char>) -> Seq<bool> {
    Seq::new(rs.len(), |k: int| rs[k].tournament_id@ == tid)
}

/// The rounds of tournament `tid`, ordered by round number, ties in storage
/// order.
pub open spec fn tournament_rounds_in(rs: Seq<Round>, tid: Seq<char>) -> Seq<Round> {
    sorted_selection(round_keys(rs), round_keep(rs, tid)).map_values(|k: int| rs[k])
}

/// Sort keys of the participant rows: their seed.
pub open spec fn participant_keys(ps: Seq<Participant>) -> Seq<(i32, i32)> {
    Seq::new(ps.len(), |k: int| (ps[k].seed, 0i32))
}

/// The participant rows of tournament `tid`.
pub open spec fn participant_keep(ps: Seq<Participant>, tid: Seq<char>) -> Seq<bool> {
    Seq::new(ps.len(), |k: int| ps[k].tournament_id@ == tid)
}

/// The participants of tournament `tid`, ordered by seed, ties in storage
/// order.
pub open spec fn tournament_participants_in(ps: Seq<Participant>, tid: Seq<char>) -> Seq<Participant> {
    sorted_selection(participant_keys(ps), participant_keep(ps, tid)).map_values(|k: int| ps[k])
}

// ─── Row updates ─────────────────────────────────────────────────────────

/// A match with `player` (identifier and name) put into slot `slot` (1, or
/// any other value for slot 2); once the other slot holds a player the
/// match is in progress, unless it is completed: a completed match keeps
/// its status and its result.
pub open spec fn with_player(m: Match, slot: i32, player_id: String, player_name: String) -> Match {
    if slot == 1 {
        Match {
            player1_id: Some(player_id),
            player1_name: player_name,
            status: if m.player2_id is Some && m.status != MatchStatus::Completed { MatchStatus::InProgress } else { m.status },
            ..m
        }
    } else {
        Match {
            player2_id: Some(player_id),
            player2_name: player_name,
            status: if m.player1_id is Some && m.status != MatchStatus::Completed { MatchStatus::InProgress } else { m.status },
            ..m
        }
    }
}

/// A match with its scores, status and winner replaced.
pub open spec fn with_score(m: Match, score1: i32, score2: i32, status: MatchStatus, winner_id: Option<String>) -> Match {
    Match { score1, score2, status, winner_id, ..m }
}

/// The match rows after every row with identifier `id` received `f`.
pub open spec fn update_match_rows(ms: Seq<Match>, id: Seq<char>, f: spec_fn(Match) -> Match) -> Seq<Match> {
    ms.map_values(|m: Match| if m.id@ == id { f(m) } else { m })
}

/// The tournament rows after every row with identifier `id` received `f`.
pub open spec fn update_tournament_rows(ts: Seq<Tournament>, id: Seq<char>, f: spec_fn(Tournament) -> Tournament) -> Seq<Tournament> {
    ts.map_values(|t: Tournament| if t.id@ == id { f(t) } else { t })
}

/// The participant rows after every row with identifier `id` received `f`.
pub open spec fn update_participant_rows(ps: Seq<Participant>, id: Seq<char>, f: spec_fn(Participant) -> Participant) -> Seq<Participant> {
    ps.map_values(|p: Participant| if p.id@ == id { f(p) } else { p })
}

/// The code of a character with ASCII letters folded to lower case, as
/// SQLite's `LOWER` does.
pub open spec fn ascii_lower(c: char) -> int {
    if 65 <= (c as int) <= 90 {
        (c as int) + 32
    } else {
        c as int
    }
}

/// Two names that are equal once ASCII letters are folded to lower case.
pub open spec fn same_name_ignoring_ascii_case(a: Seq<char>, b: Seq<char>) -> bool {
    a.len() == b.len() && forall|i: int| 0 <= i < a.len() ==> ascii_lower(#[trigger] a[i]) == ascii_lower(b[i])
}

/// Whether the round with identifier `rid` belongs to tournament `tid`.
pub open spec fn round_of_tournament(rs: Seq<Round>, rid: Seq<char>, tid: Seq<char>) -> bool {
    exists|i: int| 0 <= i < rs.len() && #[trigger] rs[i].id@ == rid && rs[i].tournament_id@ == tid
}

/// Whether tournament `tid` has a participant whose name equals `name` up to
/// ASCII case.
pub open spec fn participant_named(ps: Seq<Participant>, tid: Seq<char>, name: Seq<char>) -> bool {
    exists|i: int| 0 <= i < ps.len() && #[trigger] ps[i].tournament_id@ == tid
        && same_name_ignoring_ascii_case(ps[i].name@, name)
}

/// The number of participants of tournament `tid`.
pub open spec fn participant_count_in(ps: Seq<Participant>, tid: Seq<char>) -> nat {
    ps.filter(|p: Participant| p.tournament_id@ == tid).len()
}

/// The new rounds can all be inserted, one after another, next to the
/// round rows `rs`: their tournaments exist and their identifiers are new
/// and distinct.
pub open spec fn rounds_insertable(rs: Seq<Round>, ts: Seq<Tournament>, new: Seq<Round>) -> bool {
    &&& forall|i: int| 0 <= i < new.len() ==> has_tournament(ts, #[trigger] new[i].tournament_id@) && !has_round(rs, new[i].id@)
    &&& forall|i: int, j: int| 0 <= i < j < new.len() ==> #[trigger] new[i].id@ != #[trigger] new[j].id@
}

/// The new matches can all be inserted, one after another, next to the
/// match rows `ms`: their tournaments and rounds exist and their
/// identifiers are new and distinct.
pub open spec fn matches_insertable(ms: Seq<Match>, rs: Seq<Round>, ts: Seq<Tournament>, new: Seq<Match>) -> bool {
    &&& forall|i: int| 0 <= i < new.len() ==> has_tournament(ts, #[trigger] new[i].tournament_id@) && has_round(rs, new[i].round_id@)
        && !has_match(ms, new[i].id@)
    &&& forall|i: int, j: int| 0 <= i < j < new.len() ==> #[trigger] new[i].id@ != #[trigger] new[j].id@
}

/// Round `x` can go in next to the round rows `rs`.
pub open spec fn round_fits(rs: Seq<Round>, ts: Seq<Tournament>, x: Round) -> bool {
    has_tournament(ts, x.tournament_id@) && !has_round(rs, x.id@)
}

/// Why round `x` is refused next to the round rows `rs`.
pub open spec fn round_refusal(rs: Seq<Round>, x: Round) -> Seq<char> {
    if has_round(rs, x.id@) {
        "UNIQUE constraint failed: rounds.id"@
    } else {
        foreign_key_violation()
    }
}

/// Inserting the rounds `new` one after another next to `rs` stops at the
/// `k`-th: the ones before it go in, it does not.
pub open spec fn rounds_stop_at(rs: Seq<Round>, ts: Seq<Tournament>, new: Seq<Round>, k: int) -> bool {
    &&& 0 <= k < new.len()
    &&& rounds_insertable(rs, ts, new.take(k))
    &&& !round_fits(rs + new.take(k), ts, new[k])
}

/// Match `x` can go in next to the match rows `ms`.
pub open spec fn match_fits(ms: Seq<Match>, rs: Seq<Round>, ts: Seq<Tournament>, x: Match) -> bool {
    has_tournament(ts, x.tournament_id@) && has_round(rs, x.round_id@) && !has_match(ms, x.id@)
}

/// Why match `x` is refused next to the match rows `ms`.
pub open spec fn match_refusal(ms: Seq<Match>, x: Match) -> Seq<char> {
    if has_match(ms, x.id@) {
        "UNIQUE constraint failed: matches.id"@
    } else {
        foreign_key_violation()
    }
}

/// Inserting the matches `new` one after another next to `ms` stops at the
/// `k`-th: the ones before it go in, it does not.
pub open spec fn matches_stop_at(ms: Seq<Match>, rs: Seq<Round>, ts: Seq<Tournament>, new: Seq<Match>, k: int) -> bool {
    &&& 0 <= k < new.len()
    &&& matches_insertable(ms, rs, ts, new.take(k))
    &&& !match_fits(ms + new.take(k), rs, ts, new[k])
}

/// The new participants can all be inserted, one after another, next to
/// the participant rows `ps`: their tournaments exist and their
/// identifiers are new and distinct.
pub open spec fn participants_insertable(ps: Seq<Participant>, ts: Seq<Tournament>, new: Seq<Participant>) -> bool {
    &&& forall|i: int| 0 <= i < new.len() ==> has_tournament(ts, #[trigger] new[i].tournament_id@) && !has_participant(ps, new[i].id@)
    &&& forall|i: int, j: int| 0 <= i < j < new.len() ==> #[trigger] new[i].id@ != #[trigger] new[j].id@
}

/// The rows stored for new participants: without a logo.
pub open spec fn stored_participants(new: Seq<Participant>) -> Seq<Participant> {
    new.map_values(|p: Participant| Participant { has_logo: false, ..p })
}

/// One more insertable participant keeps the batch insertable.
proof fn lemma_participants_insertable_push(ps: Seq<Participant>, ts: Seq<Tournament>, done: Seq<Participant>, x: Participant)
    requires
        participants_insertable(ps, ts, done),
        !has_participant(ps + stored_participants(done), x.id@),
        has_tournament(ts, x.tournament_id@),
    ensures
        participants_insertable(ps, ts, done.push(x)),
{
    let nd = done.push(x);
    let sd = stored_participants(done);
    assert forall|i: int| 0 <= i < nd.len() implies has_tournament(ts, #[trigger] nd[i].tournament_id@) && !has_participant(ps, nd[i].id@) by {
        if i < done.len() {
            assert(nd[i] == done[i]);
        } else if has_participant(ps, x.id@) {
            let j = choose|j: int| 0 <= j < ps.len() && #[trigger] ps[j].id@ == x.id@;
            assert((ps + sd)[j] == ps[j]);
        }
    }
    assert forall|i: int, j: int| 0 <= i < j < nd.len() implies #[trigger] nd[i].id@ != #[trigger] nd[j].id@ by {
        if j < done.len() {
            assert(nd[i] == done[i] && nd[j] == done[j]);
        } else {
            assert(nd[i] == done[i]);
            assert((ps + sd)[ps.len() + i] == sd[i]);
            assert(sd[i].id == done[i].id);
        }
    }
}

/// One more insertable round keeps the batch insertable.
proof fn lemma_rounds_insertable_push(rs: Seq<Round>, ts: Seq<Tournament>, done: Seq<Round>, x: Round)
    requires
        rounds_insertable(rs, ts, done),
        !has_round(rs + done, x.id@),
        has_tournament(ts, x.tournament_id@),
    ensures
        rounds_insertable(rs, ts, done.push(x)),
{
    let nd = done.push(x);
    assert forall|i: int| 0 <= i < nd.len() implies has_tournament(ts, #[trigger] nd[i].tournament_id@) && !has_round(rs, nd[i].id@) by {
        if i < done.len() {
            assert(nd[i] == done[i]);
        } else if has_round(rs, x.id@) {
            let j = choose|j: int| 0 <= j < rs.len() && #[trigger] rs[j].id@ == x.id@;
            assert((rs + done)[j] == rs[j]);
        }
    }
    assert forall|i: int, j: int| 0 <= i < j < nd.len() implies #[trigger] nd[i].id@ != #[trigger] nd[j].id@ by {
        if j < done.len() {
            assert(nd[i] == done[i] && nd[j] == done[j]);
        } else {
            assert(nd[i] == done[i]);
            assert((rs + done)[rs.len() + i] == done[i]);
        }
    }
}

/// One more insertable match keeps the batch insertable.
proof fn lemma_matches_insertable_push(ms: Seq<Match>, rs: Seq<Round>, ts: Seq<Tournament>, done: Seq<Match>, x: Match)
    requires
        matches_insertable(ms, rs, ts, done),
        !has_match(ms + done, x.id@),
        has_tournament(ts, x.tournament_id@),
        has_round(rs, x.round_id@),
    ensures
        matches_insertable(ms, rs, ts, done.push(x)),
{
    let nd = done.push(x);
    assert forall|i: int| 0 <= i < nd.len() implies has_tournament(ts, #[trigger] nd[i].tournament_id@) && has_round(rs, nd[i].round_id@)
        && !has_match(ms, nd[i].id@) by {
        if i < done.len() {
            assert(nd[i] == done[i]);
        } else if has_match(ms, x.id@) {
            let j = choose|j: int| 0 <= j < ms.len() && #[trigger] ms[j].id@ == x.id@;
            assert((ms + done)[j] == ms[j]);
        }
    }
    assert forall|i: int, j: int| 0 <= i < j < nd.len() implies #[trigger] nd[i].id@ != #[trigger] nd[j].id@ by {
        if j < done.len() {
            assert(nd[i] == done[i] && nd[j] == done[j]);
        } else {
            assert(nd[i] == done[i]);
            assert((ms + done)[ms.len() + i] == done[i]);
        }
    }
}

/// The error SQLite reports for a row that refers to a missing row.
pub open spec fn foreign_key_violation() -> Seq<char> {
    "FOREIGN KEY constraint failed"@
}

/// The in-memory tables of tournaments, participants, rounds and matches, with the semantics of the SQLite schema: identifiers
/// are primary keys, rows refer to existing tournaments and rounds, and
/// deleting a round deletes its matches.
pub struct TournamentStore {
    tournaments: Vec<Tournament>,
    participants: Vec<Participant>,
    rounds: Vec<Round>,
    matches: Vec<Match>,
}

impl TournamentStore {
    pub closed spec fn tournament_rows(&self) -> Seq<Tournament> {
        self.tournaments@
    }

    pub closed spec fn participant_rows(&self) -> Seq<Participant> {
        self.participants@
    }

    pub closed spec fn round_rows(&self) -> Seq<Round> {
        self.rounds@
    }

    pub closed spec fn match_rows(&self) -> Seq<Match> {
        self.matches@
    }

    /// Primary keys are unique and foreign keys point at existing rows.
    pub closed spec fn wf(&self) -> bool {
        let ts = self.tournaments@;
        let ps = self.participants@;
        let rs = self.rounds@;
        let ms = self.matches@;
        &&& forall|i: int, j: int| 0 <= i < j < ts.len() ==> #[trigger] ts[i].id@ != #[trigger] ts[j].id@
        &&& forall|i: int, j: int| 0 <= i < j < ps.len() ==> #[trigger] ps[i].id@ != #[trigger] ps[j].id@
        &&& forall|i: int, j: int| 0 <= i < j < rs.len() ==> #[trigger] rs[i].id@ != #[trigger] rs[j].id@
        &&& forall|i: int, j: int| 0 <= i < j < ms.len() ==> #[trigger] ms[i].id@ != #[trigger] ms[j].id@
        &&& forall|i: int| 0 <= i < ps.len() ==> has_tournament(ts, #[trigger] ps[i].tournament_id@)
        &&& forall|i: int| 0 <= i < rs.len() ==> has_tournament(ts, #[trigger] rs[i].tournament_id@)
        &&& forall|i: int| 0 <= i < ms.len() ==> has_tournament(ts, #[trigger] ms[i].tournament_id@)
            && has_round(rs, ms[i].round_id@)
    }

    /// Only the match table differs between the two stores.
    pub open spec fn same_but_matches(&self, other: &Self) -> bool {
        &&& self.tournament_rows() == other.tournament_rows()
        &&& self.participant_rows() == other.participant_rows()
        &&& self.round_rows() == other.round_rows()
    }

    /// Only the tournament table differs between the two stores.
    pub open spec fn same_but_tournaments(&self, other: &Self) -> bool {
        &&& self.participant_rows() == other.participant_rows()
        &&& self.round_rows() == other.round_rows()
        &&& self.match_rows() == other.match_rows()
    }

    /// Only the participant table differs.
    pub open spec fn same_but_participants(&self, other: &Self) -> bool {
        &&& self.tournament_rows() == other.tournament_rows()
        &&& self.round_rows() == other.round_rows()
        &&& self.match_rows() == other.match_rows()
    }

    /// The two stores hold the same rows.
    pub open spec fn same_rows(&self, other: &Self) -> bool {
        &&& self.same_but_matches(other)
        &&& self.match_rows() == other.match_rows()
    }

    /// An empty store.
    pub fn new() -> (s: Self)
        ensures
            s.wf(),
            s.tournament_rows().len() == 0,
            s.participant_rows().len() == 0,
            s.round_rows().len() == 0,
            s.match_rows().len() == 0,
    {
        TournamentStore {
            tournaments: Vec::new(),
            participants: Vec::new(),
            rounds: Vec::new(),
            matches: Vec::new(),
        }
    }
}

proof fn lemma_has_tournament_push(ts: Seq<Tournament>, t: Tournament, id: Seq<char>)
    requires
        has_tournament(ts, id),
    ensures
        has_tournament(ts.push(t), id),
{
    let j = choose|j: int| 0 <= j < ts.len() && #[trigger] ts[j].id@ == id;
    assert(ts.push(t)[j].id@ == id);
}

proof fn lemma_has_round_push(rs: Seq<Round>, r: Round, id: Seq<char>)
    requires
        has_round(rs, id),
    ensures
        has_round(rs.push(r), id),
{
    let j = choose|j: int| 0 <= j < rs.len() && #[trigger] rs[j].id@ == id;
    assert(rs.push(r)[j].id@ == id);
}

proof fn lemma_tournament_with_id(ts: Seq<Tournament>, i: int)
    requires
        0 <= i < ts.len(),
        forall|a: int, b: int| 0 <= a < b < ts.len() ==> #[trigger] ts[a].id@ != #[trigger] ts[b].id@,
    ensures
        tournament_with_id(ts, ts[i].id@) == Some(ts[i]),
{
    let j = choose|j: int| 0 <= j < ts.len() && #[trigger] ts[j].id@ == ts[i].id@;
    if j < i {
        assert(ts[j].id@ != ts[i].id@);
    } else if i < j {
        assert(ts[i].id@ != ts[j].id@);
    }
}

proof fn lemma_match_with_id(ms: Seq<Match>, i: int)
    requires
        0 <= i < ms.len(),
        forall|a: int, b: int| 0 <= a < b < ms.len() ==> #[trigger] ms[a].id@ != #[trigger] ms[b].id@,
    ensures
        match_with_id(ms, ms[i].id@) == Some(ms[i]),
{
    let j = choose|j: int| 0 <= j < ms.len() && #[trigger] ms[j].id@ == ms[i].id@;
    if j < i {
        assert(ms[j].id@ != ms[i].id@);
    } else if i < j {
        assert(ms[i].id@ != ms[j].id@);
    }
}

proof fn lemma_round_number_in(rs: Seq<Round>, i: int)
    requires
        0 <= i < rs.len(),
        forall|a: int, b: int| 0 <= a < b < rs.len() ==> #[trigger] rs[a].id@ != #[trigger] rs[b].id@,
    ensures
        round_number_in(rs, rs[i].id@) == rs[i].round_number,
{
    let j = choose|j: int| 0 <= j < rs.len() && #[trigger] rs[j].id@ == rs[i].id@;
    if j < i {
        assert(rs[j].id@ != rs[i].id@);
    } else if i < j {
        assert(rs[i].id@ != rs[j].id@);
    }
}

impl TournamentStore {
    // ─── Finding rows ────────────────────────────────────────────────────

    fn tournament_index(&self, id: &str) -> (r: Option<usize>)
        ensures
            r matches Some(i) ==> i < self.tournament_rows().len() && self.tournament_rows()[i as int].id@ == id@,
            r is None ==> !has_tournament(self.tournament_rows(), id@),
    {
        let mut i: usize = 0;
        while i < self.tournaments.len()
            invariant
                i <= self.tournaments@.len(),
                forall|j: int| 0 <= j < i ==> #[trigger] self.tournaments@[j].id@ != id@,
            decreases self.tournaments@.len() - i,
        {
            if str_eq(self.tournaments[i].id.as_str(), id) {
                return Some(i);
            }
            i = i + 1;
        }
        None
    }

    fn round_index(&self, id: &str) -> (r: Option<usize>)
        ensures
            r matches Some(i) ==> i < self.round_rows().len() && self.round_rows()[i as int].id@ == id@,
            r is None ==> !has_round(self.round_rows(), id@),
    {
        let mut i: usize = 0;
        while i < self.rounds.len()
            invariant
                i <= self.rounds@.len(),
                forall|j: int| 0 <= j < i ==> #[trigger] self.rounds@[j].id@ != id@,
            decreases self.rounds@.len() - i,
        {
            if str_eq(self.rounds[i].id.as_str(), id) {
                return Some(i);
            }
            i = i + 1;
        }
        None
    }

    fn participant_index(&self, id: &str) -> (r: Option<usize>)
        ensures
            r matches Some(i) ==> i < self.participant_rows().len() && self.participant_rows()[i as int].id@ == id@,
            r is None ==> !has_participant(self.participant_rows(), id@),
    {
        let mut i: usize = 0;
        while i < self.participants.len()
            invariant
                i <= self.participants@.len(),
                forall|j: int| 0 <= j < i ==> #[trigger] self.participants@[j].id@ != id@,
            decreases self.participants@.len() - i,
        {
            if str_eq(self.participants[i].id.as_str(), id) {
                return Some(i);
            }
            i = i + 1;
        }
        None
    }

    fn match_index(&self, id: &str) -> (r: Option<usize>)
        ensures
            r matches Some(i) ==> i < self.match_rows().len() && self.match_rows()[i as int].id@ == id@,
            r is None ==> !has_match(self.match_rows(), id@),
    {
        let mut i: usize = 0;
        while i < self.matches.len()
            invariant
                i <= self.matches@.len(),
                forall|j: int| 0 <= j < i ==> #[trigger] self.matches@[j].id@ != id@,
            decreases self.matches@.len() - i,
        {
            if str_eq(self.matches[i].id.as_str(), id) {
                return Some(i);
            }
            i = i + 1;
        }
        None
    }
}

impl TournamentStore {
    // ─── Tournaments ─────────────────────────────────────────────────────

    /// Inserts a tournament row; a second row with the same identifier is
    /// refused.
    pub fn create_tournament(&mut self, t: &Tournament) -> (r: Result<(), String>)
        requires
            old(self).wf(),
        ensures
            final(self).wf(),
            has_tournament(old(self).tournament_rows(), t.id@) ==> is_err_with(r, "UNIQUE constraint failed: tournaments.id"@)
                && final(self).same_rows(old(self)),
            !has_tournament(old(self).tournament_rows(), t.id@) ==> r is Ok
                && final(self).tournament_rows() == old(self).tournament_rows().push(*t)
                && final(self).same_but_tournaments(old(self)),
    {
        if self.tournament_index(t.id.as_str()).is_some() {
            return Err(String::from_str("UNIQUE constraint failed: tournaments.id"));
        }
        let ghost old_ts = self.tournaments@;
        let ghost pre = *self;
        self.tournaments.push(t.clone());
        proof {
            let ts = self.tournaments@;
            assert(self.participants@ == pre.participants@);
            assert(self.rounds@ == pre.rounds@);
            assert(self.matches@ == pre.matches@);
            assert(ts == old_ts.push(*t));
            assert forall|i: int, j: int| 0 <= i < j < ts.len() implies #[trigger] ts[i].id@ != #[trigger] ts[j].id@ by {
                assert(ts[i] == old_ts[i]);
                if j < old_ts.len() {
                    assert(ts[j] == old_ts[j]);
                } else {
                    assert(old_ts[i].id@ != t.id@);
                }
            }
            assert forall|i: int| 0 <= i < self.participants@.len() implies has_tournament(ts, #[trigger] self.participants@[i].tournament_id@) by {
                assert(has_tournament(old_ts, pre.participants@[i].tournament_id@));
                lemma_has_tournament_push(old_ts, *t, self.participants@[i].tournament_id@);
            }
            assert forall|i: int| 0 <= i < self.rounds@.len() implies has_tournament(ts, #[trigger] self.rounds@[i].tournament_id@) by {
                assert(has_tournament(old_ts, pre.rounds@[i].tournament_id@));
                lemma_has_tournament_push(old_ts, *t, self.rounds@[i].tournament_id@);
            }
            assert forall|i: int| 0 <= i < self.matches@.len() implies has_tournament(ts, #[trigger] self.matches@[i].tournament_id@)
                && has_round(self.rounds@, self.matches@[i].round_id@) by {
                assert(has_tournament(old_ts, pre.matches@[i].tournament_id@));
                assert(has_round(pre.rounds@, pre.matches@[i].round_id@));
                lemma_has_tournament_push(old_ts, *t, self.matches@[i].tournament_id@);
            }
        }
        Ok(())
    }

    /// The tournament with identifier `id`, if any.
    pub fn get_tournament(&self, id: &str) -> (r: Result<Option<Tournament>, String>)
        requires
            self.wf(),
        ensures
            r == Ok::<Option<Tournament>, String>(tournament_with_id(self.tournament_rows(), id@)),
    {
        match self.tournament_index(id) {
            Some(i) => {
                proof {
                    lemma_tournament_with_id(self.tournaments@, i as int);
                }
                Ok(Some(self.tournaments[i].clone()))
            },
            None => Ok(None),
        }
    }

    // ─── Participants ────────────────────────────────────────────────────

    /// Inserts a participant row, at first without a logo; the identifier
    /// must be new and the tournament must exist.
    pub fn create_participant(&mut self, p: &Participant) -> (r: Result<(), String>)
        requires
            old(self).wf(),
        ensures
            final(self).wf(),
            has_participant(old(self).participant_rows(), p.id@) ==> is_err_with(r, "UNIQUE constraint failed: participants.id"@)
                && final(self).same_rows(old(self)),
            !has_participant(old(self).participant_rows(), p.id@) && !has_tournament(old(self).tournament_rows(), p.tournament_id@)
                ==> is_err_with(r, foreign_key_violation()) && final(self).same_rows(old(self)),
            !has_participant(old(self).participant_rows(), p.id@) && has_tournament(old(self).tournament_rows(), p.tournament_id@)
                ==> r is Ok
                && final(self).participant_rows() == old(self).participant_rows().push(Participant { has_logo: false, ..*p })
                && final(self).same_but_participants(old(self)),
    {
        if self.participant_index(p.id.as_str()).is_some() {
            return Err(String::from_str("UNIQUE constraint failed: participants.id"));
        }
        if self.tournament_index(p.tournament_id.as_str()).is_none() {
            return Err(String::from_str("FOREIGN KEY constraint failed"));
        }
        let ghost old_ps = self.participants@;
        let ghost pre = *self;
        let mut row = p.clone();
        row.has_logo = false;
        self.participants.push(row);
        proof {
            let ps = self.participants@;
            assert forall|i: int, j: int| 0 <= i < j < ps.len() implies #[trigger] ps[i].id@ != #[trigger] ps[j].id@ by {
                assert(ps[i] == old_ps[i]);
                if j < old_ps.len() {
                    assert(ps[j] == old_ps[j]);
                } else {
                    assert(old_ps[i].id@ != p.id@);
                }
            }
            assert(self.tournaments@ == pre.tournaments@);
            assert forall|i: int| 0 <= i < ps.len() implies has_tournament(self.tournaments@, #[trigger] ps[i].tournament_id@) by {
                if i < old_ps.len() {
                    assert(ps[i] == old_ps[i]);
                    assert(has_tournament(pre.tournaments@, pre.participants@[i].tournament_id@));
                }
            }
        }
        Ok(())
    }

    /// The participants of tournament `tid`, ordered by seed.
    pub fn get_participants_by_tournament(&self, tid: &str) -> (r: Result<Vec<Participant>, String>)
        requires
            self.wf(),
        ensures
            r matches Ok(v) && v@ == tournament_participants_in(self.participant_rows(), tid@),
    {
        let n = self.participants.len();
        let mut keys: Vec<(i32, i32)> = Vec::new();
        let mut keep: Vec<bool> = Vec::new();
        let mut k: usize = 0;
        while k < n
            invariant
                n == self.participants@.len(),
                k <= n,
                keys@.len() == k,
                keep@.len() == k,
                forall|i: int| 0 <= i < k ==> #[trigger] keys@[i] == participant_keys(self.participants@)[i],
                forall|i: int| 0 <= i < k ==> #[trigger] keep@[i] == participant_keep(self.participants@, tid@)[i],
            decreases n - k,
        {
            keys.push((self.participants[k].seed, 0i32));
            keep.push(str_eq(self.participants[k].tournament_id.as_str(), tid));
            k = k + 1;
        }
        assert(keys@ =~= participant_keys(self.participants@));
        assert(keep@ =~= participant_keep(self.participants@, tid@));
        let q = select_sorted(&keys, &keep);
        let ghost sel = sorted_selection(keys@, keep@);
        let mut out: Vec<Participant> = Vec::new();
        let mut i: usize = 0;
        while i < q.len()
            invariant
                n == self.participants@.len(),
                q@.len() == sel.len(),
                forall|t: int| 0 <= t < q@.len() ==> #[trigger] q@[t] as int == sel[t],
                is_sorted_selection(keys@, keep@, sel),
                keys@.len() == n,
                i <= q@.len(),
                out@.len() == i,
                forall|t: int| 0 <= t < i ==> #[trigger] out@[t] == self.participants@[sel[t]],
            decreases q@.len() - i,
        {
            assert(0 <= sel[i as int] < n);
            out.push(self.participants[q[i]].clone());
            i = i + 1;
        }
        assert(out@ =~= sel.map_values(|k: int| self.participants@[k]));
        Ok(out)
    }

    // ─── Rounds ──────────────────────────────────────────────────────────

    /// Inserts a round row; the identifier must be new and the tournament
    /// must exist.
    pub fn create_round(&mut self, r: &Round) -> (res: Result<(), String>)
        requires
            old(self).wf(),
        ensures
            final(self).wf(),
            has_round(old(self).round_rows(), r.id@) ==> is_err_with(res, "UNIQUE constraint failed: rounds.id"@)
                && final(self).same_rows(old(self)),
            !has_round(old(self).round_rows(), r.id@) && !has_tournament(old(self).tournament_rows(), r.tournament_id@)
                ==> is_err_with(res, foreign_key_violation()) && final(self).same_rows(old(self)),
            !has_round(old(self).round_rows(), r.id@) && has_tournament(old(self).tournament_rows(), r.tournament_id@)
                ==> res is Ok
                && final(self).round_rows() == old(self).round_rows().push(*r)
                && final(self).tournament_rows() == old(self).tournament_rows()
                && final(self).participant_rows() == old(self).participant_rows()
                && final(self).match_rows() == old(self).match_rows(),
    {
        if self.round_index(r.id.as_str()).is_some() {
            return Err(String::from_str("UNIQUE constraint failed: rounds.id"));
        }
        if self.tournament_index(r.tournament_id.as_str()).is_none() {
            return Err(String::from_str("FOREIGN KEY constraint failed"));
        }
        let ghost old_rs = self.rounds@;
        let ghost pre = *self;
        self.rounds.push(r.clone());
        proof {
            let rs = self.rounds@;
            assert(rs == old_rs.push(*r));
            assert forall|i: int, j: int| 0 <= i < j < rs.len() implies #[trigger] rs[i].id@ != #[trigger] rs[j].id@ by {
                assert(rs[i] == old_rs[i]);
                if j < old_rs.len() {
                    assert(rs[j] == old_rs[j]);
                } else {
                    assert(old_rs[i].id@ != r.id@);
                }
            }
            assert(self.tournaments@ == pre.tournaments@);
            assert(self.matches@ == pre.matches@);
            assert forall|i: int| 0 <= i < rs.len() implies has_tournament(self.tournaments@, #[trigger] rs[i].tournament_id@) by {
                if i < old_rs.len() {
                    assert(rs[i] == old_rs[i]);
                    assert(has_tournament(pre.tournaments@, pre.rounds@[i].tournament_id@));
                }
            }
            assert forall|i: int| 0 <= i < self.matches@.len() implies has_tournament(self.tournaments@, #[trigger] self.matches@[i].tournament_id@)
                && has_round(rs, self.matches@[i].round_id@) by {
                assert(has_tournament(pre.tournaments@, pre.matches@[i].tournament_id@));
                assert(has_round(pre.rounds@, pre.matches@[i].round_id@));
                lemma_has_round_push(old_rs, *r, self.matches@[i].round_id@);
            }
        }
        Ok(())
    }

    /// Inserts `ps[from..to]` one by one, stopping at the first refusal.
    /// All of them go in exactly when they are insertable.
    pub fn create_participants(&mut self, ps: &Vec<Participant>, from: usize, to: usize) -> (r: Result<(), String>)
        requires
            old(self).wf(),
            from <= to <= ps@.len(),
        ensures
            final(self).wf(),
            final(self).same_but_participants(old(self)),
            r is Ok <==> participants_insertable(old(self).participant_rows(), old(self).tournament_rows(), ps@.subrange(from as int, to as int)),
            r is Ok ==> final(self).participant_rows() == old(self).participant_rows() + stored_participants(ps@.subrange(from as int, to as int)),
    {
        let ghost pre = *self;
        let ghost new = ps@.subrange(from as int, to as int);
        let mut k: usize = from;
        while k < to
            invariant
                self.wf(),
                pre == *old(self),
                from <= k <= to <= ps@.len(),
                new == ps@.subrange(from as int, to as int),
                self.same_but_participants(&pre),
                self.participant_rows() == pre.participant_rows() + stored_participants(ps@.subrange(from as int, k as int)),
                participants_insertable(pre.participant_rows(), pre.tournament_rows(), ps@.subrange(from as int, k as int)),
            decreases to - k,
        {
            let ghost cur = self.participant_rows();
            let ghost done = ps@.subrange(from as int, k as int);
            let ghost before = *self;
            let res = self.create_participant(&ps[k]);
            match res {
                Ok(()) => {},
                Err(e) => {
                    proof {
                        assert(self.same_rows(&before));
                        let x = ps@[k as int];
                        let i0 = k - from;
                        let plen = pre.participant_rows().len();
                        assert(new[i0] == x);
                        if !has_tournament(pre.tournament_rows(), x.tournament_id@) {
                            assert(!has_tournament(pre.tournament_rows(), new[i0].tournament_id@));
                        } else {
                            assert(has_participant(cur, x.id@));
                            let j = choose|j: int| 0 <= j < cur.len() && #[trigger] cur[j].id@ == x.id@;
                            if j >= plen {
                                let i1 = j - plen;
                                assert(cur[j] == stored_participants(done)[i1]);
                                assert(done[i1] == new[i1]);
                                assert(new[i1].id@ == new[i0].id@);
                            } else {
                                assert(cur[j] == pre.participant_rows()[j]);
                                assert(has_participant(pre.participant_rows(), new[i0].id@));
                            }
                        }
                        assert(!participants_insertable(pre.participant_rows(), pre.tournament_rows(), new));
                    }
                    return Err(e);
                },
            }
            proof {
                let x = ps@[k as int];
                let nd = ps@.subrange(from as int, k + 1);
                assert(nd =~= done.push(x));
                assert(stored_participants(nd) =~= stored_participants(done).push(Participant { has_logo: false, ..x }));
                assert(self.participant_rows() =~= pre.participant_rows() + stored_participants(nd));
                assert(!has_participant(cur, x.id@));
                lemma_participants_insertable_push(pre.participant_rows(), pre.tournament_rows(), done, x);
            }
            k = k + 1;
        }
        proof {
            assert(ps@.subrange(from as int, from as int) =~= Seq::<Participant>::empty());
        }
        Ok(())
    }

    /// Inserts `rs[from..to]` one by one, stopping at the first refusal.
    /// All of them go in exactly when they are insertable.
    pub fn create_rounds(&mut self, rs: &Vec<Round>, from: usize, to: usize) -> (r: Result<(), String>)
        requires
            old(self).wf(),
            from <= to <= rs@.len(),
        ensures
            final(self).wf(),
            final(self).tournament_rows() == old(self).tournament_rows(),
            final(self).participant_rows() == old(self).participant_rows(),
            final(self).match_rows() == old(self).match_rows(),
            r is Ok <==> rounds_insertable(old(self).round_rows(), old(self).tournament_rows(), rs@.subrange(from as int, to as int)),
            r is Ok ==> final(self).round_rows() == old(self).round_rows() + rs@.subrange(from as int, to as int),
            r matches Err(e) ==> exists|k: int| #[trigger] rounds_stop_at(old(self).round_rows(), old(self).tournament_rows(),
                rs@.subrange(from as int, to as int), k)
                && final(self).round_rows() == old(self).round_rows() + rs@.subrange(from as int, to as int).take(k)
                && e@ == round_refusal(old(self).round_rows() + rs@.subrange(from as int, to as int).take(k),
                rs@.subrange(from as int, to as int)[k]),
    {
        let ghost pre = *self;
        let ghost new = rs@.subrange(from as int, to as int);
        let mut k: usize = from;
        while k < to
            invariant
                self.wf(),
                pre == *old(self),
                from <= k <= to <= rs@.len(),
                new == rs@.subrange(from as int, to as int),
                self.tournament_rows() == pre.tournament_rows(),
                self.participant_rows() == pre.participant_rows(),
                self.match_rows() == pre.match_rows(),
                self.round_rows() == pre.round_rows() + rs@.subrange(from as int, k as int),
                rounds_insertable(pre.round_rows(), pre.tournament_rows(), rs@.subrange(from as int, k as int)),
            decreases to - k,
        {
            let ghost cur = self.round_rows();
            let ghost done = rs@.subrange(from as int, k as int);
            let ghost before = *self;
            let res = self.create_round(&rs[k]);
            match res {
                Ok(()) => {},
                Err(e) => {
                    proof {
                        assert(self.same_rows(&before));
                        let x = rs@[k as int];
                        let i0 = k - from;
                        let plen = pre.round_rows().len();
                        assert(new[i0] == x);
                        if !has_tournament(pre.tournament_rows(), x.tournament_id@) {
                            assert(!has_tournament(pre.tournament_rows(), new[i0].tournament_id@));
                        } else {
                            assert(has_round(cur, x.id@));
                            let j = choose|j: int| 0 <= j < cur.len() && #[trigger] cur[j].id@ == x.id@;
                            if j >= plen {
                                let i1 = j - plen;
                                assert(cur[j] == done[i1]);
                                assert(done[i1] == new[i1]);
                                assert(new[i1].id@ == new[i0].id@);
                            } else {
                                assert(cur[j] == pre.round_rows()[j]);
                                assert(has_round(pre.round_rows(), new[i0].id@));
                            }
                        }
                        assert(!rounds_insertable(pre.round_rows(), pre.tournament_rows(), new));
                        assert(new.take(i0 as int) =~= done);
                        assert(!round_fits(cur, pre.tournament_rows(), x));
                        assert(rounds_stop_at(pre.round_rows(), pre.tournament_rows(), new, i0 as int));
                    }
                    return Err(e);
                },
            }
            proof {
                let x = rs@[k as int];
                let nd = rs@.subrange(from as int, k + 1);
                assert(nd =~= done.push(x));
                assert(self.round_rows() =~= pre.round_rows() + nd);
                assert(!has_round(cur, x.id@));
                lemma_rounds_insertable_push(pre.round_rows(), pre.tournament_rows(), done, x);
            }
            k = k + 1;
        }
        Ok(())
    }

    /// Inserts `ms[from..to]` one by one, stopping at the first refusal.
    /// All of them go in exactly when they are insertable.
    pub fn create_matches(&mut self, ms: &Vec<Match>, from: usize, to: usize) -> (r: Result<(), String>)
        requires
            old(self).wf(),
            from <= to <= ms@.len(),
        ensures
            final(self).wf(),
            final(self).same_but_matches(old(self)),
            r is Ok <==> matches_insertable(old(self).match_rows(), old(self).round_rows(), old(self).tournament_rows(),
                ms@.subrange(from as int, to as int)),
            r is Ok ==> final(self).match_rows() == old(self).match_rows() + ms@.subrange(from as int, to as int),
            r matches Err(e) ==> exists|k: int| #[trigger] matches_stop_at(old(self).match_rows(), old(self).round_rows(),
                old(self).tournament_rows(), ms@.subrange(from as int, to as int), k)
                && final(self).match_rows() == old(self).match_rows() + ms@.subrange(from as int, to as int).take(k)
                && e@ == match_refusal(old(self).match_rows() + ms@.subrange(from as int, to as int).take(k),
                ms@.subrange(from as int, to as int)[k]),
    {
        let ghost pre = *self;
        let ghost new = ms@.subrange(from as int, to as int);
        let mut k: usize = from;
        while k < to
            invariant
                self.wf(),
                pre == *old(self),
                from <= k <= to <= ms@.len(),
                new == ms@.subrange(from as int, to as int),
                self.same_but_matches(&pre),
                self.match_rows() == pre.match_rows() + ms@.subrange(from as int, k as int),
                matches_insertable(pre.match_rows(), pre.round_rows(), pre.tournament_rows(), ms@.subrange(from as int, k as int)),
            decreases to - k,
        {
            let ghost cur = self.match_rows();
            let ghost done = ms@.subrange(from as int, k as int);
            let ghost before = *self;
            let res = self.create_match(&ms[k]);
            match res {
                Ok(()) => {},
                Err(e) => {
                    proof {
                        assert(self.same_rows(&before));
                        let x = ms@[k as int];
                        let i0 = k - from;
                        let plen = pre.match_rows().len();
                        assert(new[i0] == x);
                        if !has_tournament(pre.tournament_rows(), x.tournament_id@) {
                            assert(!has_tournament(pre.tournament_rows(), new[i0].tournament_id@));
                        } else if !has_round(pre.round_rows(), x.round_id@) {
                            assert(!has_round(pre.round_rows(), new[i0].round_id@));
                        } else {
                            assert(has_match(cur, x.id@));
                            let j = choose|j: int| 0 <= j < cur.len() && #[trigger] cur[j].id@ == x.id@;
                            if j >= plen {
                                let i1 = j - plen;
                                assert(cur[j] == done[i1]);
                                assert(done[i1] == new[i1]);
                                assert(new[i1].id@ == new[i0].id@);
                            } else {
                                assert(cur[j] == pre.match_rows()[j]);
                                assert(has_match(pre.match_rows(), new[i0].id@));
                            }
                        }
                        assert(!matches_insertable(pre.match_rows(), pre.round_rows(), pre.tournament_rows(), new));
                        assert(new.take(i0 as int) =~= done);
                        assert(!match_fits(cur, pre.round_rows(), pre.tournament_rows(), x));
                        assert(matches_stop_at(pre.match_rows(), pre.round_rows(), pre.tournament_rows(), new, i0 as int));
                    }
                    return Err(e);
                },
            }
            proof {
                let x = ms@[k as int];
                let nd = ms@.subrange(from as int, k + 1);
                assert(nd =~= done.push(x));
                assert(self.match_rows() =~= pre.match_rows() + nd);
                assert(!has_match(cur, x.id@));
                lemma_matches_insertable_push(pre.match_rows(), pre.round_rows(), pre.tournament_rows(), done, x);
            }
            k = k + 1;
        }
        Ok(())
    }

    /// The rounds of tournament `tid`, ordered by round number.
    pub fn get_rounds_by_tournament(&self, tid: &str) -> (r: Result<Vec<Round>, String>)
        requires
            self.wf(),
        ensures
            r matches Ok(v) && v@ == tournament_rounds_in(self.round_rows(), tid@),
    {
        let n = self.rounds.len();
        let mut keys: Vec<(i32, i32)> = Vec::new();
        let mut keep: Vec<bool> = Vec::new();
        let mut k: usize = 0;
        while k < n
            invariant
                n == self.rounds@.len(),
                k <= n,
                keys@.len() == k,
                keep@.len() == k,
                forall|i: int| 0 <= i < k ==> #[trigger] keys@[i] == round_keys(self.rounds@)[i],
                forall|i: int| 0 <= i < k ==> #[trigger] keep@[i] == round_keep(self.rounds@, tid@)[i],
            decreases n - k,
        {
            keys.push((self.rounds[k].round_number, 0i32));
            keep.push(str_eq(self.rounds[k].tournament_id.as_str(), tid));
            k = k + 1;
        }
        assert(keys@ =~= round_keys(self.rounds@));
        assert(keep@ =~= round_keep(self.rounds@, tid@));
        let q = select_sorted(&keys, &keep);
        let ghost sel = sorted_selection(keys@, keep@);
        let mut out: Vec<Round> = Vec::new();
        let mut i: usize = 0;
        while i < q.len()
            invariant
                n == self.rounds@.len(),
                q@.len() == sel.len(),
                forall|t: int| 0 <= t < q@.len() ==> #[trigger] q@[t] as int == sel[t],
                is_sorted_selection(keys@, keep@, sel),
                keys@.len() == n,
                i <= q@.len(),
                out@.len() == i,
                forall|t: int| 0 <= t < i ==> #[trigger] out@[t] == self.rounds@[sel[t]],
            decreases q@.len() - i,
        {
            assert(0 <= sel[i as int] < n);
            out.push(self.rounds[q[i]].clone());
            i = i + 1;
        }
        assert(out@ =~= sel.map_values(|k: int| self.rounds@[k]));
        Ok(out)
    }

    // ─── Matches ─────────────────────────────────────────────────────────

    /// Inserts a match row; the identifier must be new and its tournament and
    /// round must exist.
    pub fn create_match(&mut self, m: &Match) -> (r: Result<(), String>)
        requires
            old(self).wf(),
        ensures
            final(self).wf(),
            has_match(old(self).match_rows(), m.id@) ==> is_err_with(r, "UNIQUE constraint failed: matches.id"@)
                && final(self).same_rows(old(self)),
            !has_match(old(self).match_rows(), m.id@) && !(has_tournament(old(self).tournament_rows(), m.tournament_id@)
                && has_round(old(self).round_rows(), m.round_id@)) ==> is_err_with(r, foreign_key_violation())
                && final(self).same_rows(old(self)),
            !has_match(old(self).match_rows(), m.id@) && has_tournament(old(self).tournament_rows(), m.tournament_id@)
                && has_round(old(self).round_rows(), m.round_id@) ==> r is Ok
                && final(self).match_rows() == old(self).match_rows().push(*m)
                && final(self).same_but_matches(old(self)),
    {
        if self.match_index(m.id.as_str()).is_some() {
            return Err(String::from_str("UNIQUE constraint failed: matches.id"));
        }
        if self.tournament_index(m.tournament_id.as_str()).is_none() || self.round_index(m.round_id.as_str()).is_none() {
            return Err(String::from_str("FOREIGN KEY constraint failed"));
        }
        let ghost old_ms = self.matches@;
        let ghost pre = *self;
        self.matches.push(m.clone());
        proof {
            assert forall|i: int| 0 <= i < old_ms.len() implies #[trigger] self.matches@[i] == old_ms[i] by {}
            assert forall|i: int| 0 <= i < self.matches@.len() implies has_tournament(self.tournaments@, #[trigger] self.matches@[i].tournament_id@)
                && has_round(self.rounds@, self.matches@[i].round_id@) by {
                if i < old_ms.len() {
                    assert(self.matches@[i] == old_ms[i]);
                    assert(has_tournament(pre.tournaments@, pre.matches@[i].tournament_id@));
                    assert(has_round(pre.rounds@, pre.matches@[i].round_id@));
                }
            }
            assert forall|i: int, j: int| 0 <= i < j < self.matches@.len() implies #[trigger] self.matches@[i].id@ != #[trigger] self.matches@[j].id@ by {
                if j == old_ms.len() {
                    assert(self.matches@[i] == old_ms[i]);
                    assert(old_ms[i].id@ != m.id@);
                } else {
                    assert(self.matches@[i] == old_ms[i]);
                    assert(self.matches@[j] == old_ms[j]);
                }
            }
        }
        Ok(())
    }

    /// The matches of tournament `tid`, ordered by round number and then by
    /// match order.
    pub fn get_matches_by_tournament(&self, tid: &str) -> (r: Result<Vec<Match>, String>)
        requires
            self.wf(),
        ensures
            r matches Ok(v) && v@ == tournament_matches_in(self.round_rows(), self.match_rows(), tid@),
            is_sorted_selection(match_keys(self.round_rows(), self.match_rows()), match_keep(self.round_rows(), self.match_rows(), tid@),
                sorted_selection(match_keys(self.round_rows(), self.match_rows()), match_keep(self.round_rows(), self.match_rows(), tid@))),
    {
        let n = self.matches.len();
        let mut keys: Vec<(i32, i32)> = Vec::new();
        let mut keep: Vec<bool> = Vec::new();
        let mut k: usize = 0;
        while k < n
            invariant
                self.wf(),
                n == self.matches@.len(),
                k <= n,
                keys@.len() == k,
                keep@.len() == k,
                forall|i: int| 0 <= i < k ==> #[trigger] keys@[i] == match_keys(self.rounds@, self.matches@)[i],
                forall|i: int| 0 <= i < k ==> #[trigger] keep@[i] == match_keep(self.rounds@, self.matches@, tid@)[i],
            decreases n - k,
        {
            let (rn, found) = match self.round_index(self.matches[k].round_id.as_str()) {
                Some(ri) => {
                    proof {
                        lemma_round_number_in(self.rounds@, ri as int);
                    }
                    (self.rounds[ri].round_number, true)
                },
                None => (0i32, false),
            };
            keys.push((rn, self.matches[k].match_order));
            keep.push(found && str_eq(self.matches[k].tournament_id.as_str(), tid));
            k = k + 1;
        }
        assert(keys@ =~= match_keys(self.rounds@, self.matches@));
        assert(keep@ =~= match_keep(self.rounds@, self.matches@, tid@));
        let q = select_sorted(&keys, &keep);
        let ghost sel = sorted_selection(keys@, keep@);
        let mut out: Vec<Match> = Vec::new();
        let mut i: usize = 0;
        while i < q.len()
            invariant
                n == self.matches@.len(),
                q@.len() == sel.len(),
                forall|t: int| 0 <= t < q@.len() ==> #[trigger] q@[t] as int == sel[t],
                is_sorted_selection(keys@, keep@, sel),
                keys@.len() == n,
                i <= q@.len(),
                out@.len() == i,
                forall|t: int| 0 <= t < i ==> #[trigger] out@[t] == self.matches@[sel[t]],
            decreases q@.len() - i,
        {
            assert(0 <= sel[i as int] < n);
            out.push(self.matches[q[i]].clone());
            i = i + 1;
        }
        assert(out@ =~= sel.map_values(|k: int| self.matches@[k]));
        Ok(out)
    }

    /// The match with identifier `id`, if any.
    pub fn get_match_by_id(&self, id: &str) -> (r: Result<Option<Match>, String>)
        requires
            self.wf(),
        ensures
            r == Ok::<Option<Match>, String>(match_with_id(self.match_rows(), id@)),
    {
        match self.match_index(id) {
            Some(i) => {
                proof {
                    lemma_match_with_id(self.matches@, i as int);
                }
                Ok(Some(self.matches[i].clone()))
            },
            None => Ok(None),
        }
    }
}

impl TournamentStore {
    proof fn lemma_match_update(&self, i: int, new_m: Match, f: spec_fn(Match) -> Match)
        requires
            self.wf(),
            0 <= i < self.matches@.len(),
            new_m == f(self.matches@[i]),
        ensures
            self.matches@.update(i, new_m) == update_match_rows(self.matches@, self.matches@[i].id@, f),
    {
        let ms = self.matches@;
        let id = ms[i].id@;
        assert forall|k: int| 0 <= k < ms.len() && k != i implies ms[k].id@ != id by {
            if k < i {
                assert(ms[k].id@ != ms[i].id@);
            } else {
                assert(ms[i].id@ != ms[k].id@);
            }
        }
        assert(ms.update(i, new_m) =~= update_match_rows(ms, id, f));
    }

    proof fn lemma_no_match_update(&self, id: Seq<char>, f: spec_fn(Match) -> Match)
        requires
            !has_match(self.matches@, id),
        ensures
            self.matches@ == update_match_rows(self.matches@, id, f),
    {
        assert forall|k: int| 0 <= k < self.matches@.len() implies self.matches@[k].id@ != id by {
            if self.matches@[k].id@ == id {
                assert(has_match(self.matches@, id));
            }
        }
        assert(self.matches@ =~= update_match_rows(self.matches@, id, f));
    }

    /// Records the scores, status and winner of the match with identifier
    /// `id` (no row changes when there is none).
    pub fn put_match_score(&mut self, id: &str, score1: i32, score2: i32, status: MatchStatus, winner_id: &Option<String>) -> (r: Result<(), String>)
        requires
            old(self).wf(),
        ensures
            final(self).wf(),
            r is Ok,
            final(self).match_rows() == update_match_rows(old(self).match_rows(), id@,
                |m: Match| with_score(m, score1, score2, status, *winner_id)),
            final(self).same_but_matches(old(self)),
    {
        let ghost f = |m: Match| with_score(m, score1, score2, status, *winner_id);
        let ghost pre = *self;
        match self.match_index(id) {
            Some(i) => {
                let mut m = self.matches[i].clone();
                m.score1 = score1;
                m.score2 = score2;
                m.status = status;
                m.winner_id = crate::text::copy_opt_string(winner_id);
                proof {
                    self.lemma_match_update(i as int, m, f);
                }
                self.matches.set(i, m);
                proof {
                    self.lemma_wf_after_match_change(pre, i as int);
                }
            },
            None => {
                proof {
                    self.lemma_no_match_update(id@, f);
                }
            },
        }
        Ok(())
    }

    /// Puts a player into slot `slot` (1, or any other value for slot 2) of
    /// the match with identifier `id`; a match whose other slot holds a
    /// player becomes in progress, unless it is completed.
    pub fn put_match_player(&mut self, id: &str, slot: i32, player_id: &String, player_name: &String) -> (r: Result<(), String>)
        requires
            old(self).wf(),
        ensures
            final(self).wf(),
            r is Ok,
            final(self).match_rows() == update_match_rows(old(self).match_rows(), id@,
                |m: Match| with_player(m, slot, *player_id, *player_name)),
            final(self).same_but_matches(old(self)),
    {
        let ghost f = |m: Match| with_player(m, slot, *player_id, *player_name);
        let ghost pre = *self;
        match self.match_index(id) {
            Some(i) => {
                let mut m = self.matches[i].clone();
                if slot == 1 {
                    if m.player2_id.is_some() && m.status != MatchStatus::Completed {
                        m.status = MatchStatus::InProgress;
                    }
                    m.player1_id = Some(player_id.clone());
                    m.player1_name = player_name.clone();
                } else {
                    if m.player1_id.is_some() && m.status != MatchStatus::Completed {
                        m.status = MatchStatus::InProgress;
                    }
                    m.player2_id = Some(player_id.clone());
                    m.player2_name = player_name.clone();
                }
                proof {
                    self.lemma_match_update(i as int, m, f);
                }
                self.matches.set(i, m);
                proof {
                    self.lemma_wf_after_match_change(pre, i as int);
                }
            },
            None => {
                proof {
                    self.lemma_no_match_update(id@, f);
                }
            },
        }
        Ok(())
    }

    /// Changing the non-key fields of one match keeps the store well formed.
    proof fn lemma_wf_after_match_change(&self, pre: Self, i: int)
        requires
            pre.wf(),
            self.tournaments@ == pre.tournaments@,
            self.participants@ == pre.participants@,
            self.rounds@ == pre.rounds@,
            0 <= i < pre.matches@.len(),
            self.matches@.len() == pre.matches@.len(),
            forall|k: int| 0 <= k < pre.matches@.len() && k != i ==> self.matches@[k] == pre.matches@[k],
            self.matches@[i].id == pre.matches@[i].id,
            self.matches@[i].tournament_id == pre.matches@[i].tournament_id,
            self.matches@[i].round_id == pre.matches@[i].round_id,
        ensures
            self.wf(),
    {
        let ms = self.matches@;
        assert forall|a: int, b: int| 0 <= a < b < ms.len() implies #[trigger] ms[a].id@ != #[trigger] ms[b].id@ by {
            assert(pre.matches@[a].id@ != pre.matches@[b].id@);
        }
        assert forall|a: int| 0 <= a < ms.len() implies has_tournament(self.tournaments@, #[trigger] ms[a].tournament_id@)
            && has_round(self.rounds@, ms[a].round_id@) by {
            assert(has_tournament(pre.tournaments@, pre.matches@[a].tournament_id@));
            assert(has_round(pre.rounds@, pre.matches@[a].round_id@));
        }
    }
}

fn ascii_lower_code(c: char) -> (r: u32)
    ensures
        r as int == ascii_lower(c),
{
    let x = c as u32;
    if 65 <= x && x <= 90 {
        x + 32
    } else {
        x
    }
}

/// Compares two names with ASCII letters folded to lower case.
pub fn same_name_ignoring_ascii_case_exec(a: &str, b: &str) -> (r: bool)
    ensures
        r == same_name_ignoring_ascii_case(a@, b@),
{
    let n = a.unicode_len();
    if n != b.unicode_len() {
        return false;
    }
    let mut i: usize = 0;
    while i < n
        invariant
            n == a@.len(),
            n == b@.len(),
            i <= n,
            forall|k: int| 0 <= k < i ==> ascii_lower(#[trigger] a@[k]) == ascii_lower(b@[k]),
        decreases n - i,
    {
        if ascii_lower_code(a.get_char(i)) != ascii_lower_code(b.get_char(i)) {
            return false;
        }
        i = i + 1;
    }
    true
}

impl TournamentStore {
    proof fn lemma_wf_tables(&self, pre: Self, m_idx: Seq<int>, r_idx: Seq<int>, p_idx: Seq<int>, t_idx: Seq<int>)
        requires
            pre.wf(),
            subsequence_via(pre.matches@, self.matches@, m_idx),
            subsequence_via(pre.rounds@, self.rounds@, r_idx),
            subsequence_via(pre.participants@, self.participants@, p_idx),
            subsequence_via(pre.tournaments@, self.tournaments@, t_idx),
            forall|i: int| 0 <= i < self.participants@.len() ==> has_tournament(self.tournaments@, #[trigger] self.participants@[i].tournament_id@),
            forall|i: int| 0 <= i < self.rounds@.len() ==> has_tournament(self.tournaments@, #[trigger] self.rounds@[i].tournament_id@),
            forall|i: int| 0 <= i < self.matches@.len() ==> has_tournament(self.tournaments@, #[trigger] self.matches@[i].tournament_id@)
                && has_round(self.rounds@, self.matches@[i].round_id@),
        ensures
            self.wf(),
    {
        let ts = self.tournaments@;
        let ps = self.participants@;
        let rs = self.rounds@;
        let ms = self.matches@;
        assert forall|a: int, b: int| 0 <= a < b < ts.len() implies #[trigger] ts[a].id@ != #[trigger] ts[b].id@ by {
            assert(pre.tournaments@[t_idx[a]].id@ != pre.tournaments@[t_idx[b]].id@);
        }
        assert forall|a: int, b: int| 0 <= a < b < ps.len() implies #[trigger] ps[a].id@ != #[trigger] ps[b].id@ by {
            assert(pre.participants@[p_idx[a]].id@ != pre.participants@[p_idx[b]].id@);
        }
        assert forall|a: int, b: int| 0 <= a < b < rs.len() implies #[trigger] rs[a].id@ != #[trigger] rs[b].id@ by {
            assert(pre.rounds@[r_idx[a]].id@ != pre.rounds@[r_idx[b]].id@);
        }
        assert forall|a: int, b: int| 0 <= a < b < ms.len() implies #[trigger] ms[a].id@ != #[trigger] ms[b].id@ by {
            assert(pre.matches@[m_idx[a]].id@ != pre.matches@[m_idx[b]].id@);
        }
    }

    /// Deletes every match of tournament `tid`.
    pub fn delete_all_matches(&mut self, tid: &str) -> (r: Result<(), String>)
        requires
            old(self).wf(),
        ensures
            final(self).wf(),
            r is Ok,
            final(self).match_rows() == old(self).match_rows().filter(|m: Match| m.tournament_id@ != tid@),
            final(self).same_but_matches(old(self)),
    {
        let ghost pre = *self;
        let ghost pred = |m: Match| m.tournament_id@ != tid@;
        let mut keep: Vec<bool> = Vec::new();
        let mut k: usize = 0;
        while k < self.matches.len()
            invariant
                pred == (|m: Match| m.tournament_id@ != tid@),
                k <= self.matches@.len(),
                keep@.len() == k,
                forall|i: int| 0 <= i < k ==> keep@[i] == pred(#[trigger] self.matches@[i]),
            decreases self.matches@.len() - k,
        {
            keep.push(!str_eq(self.matches[k].tournament_id.as_str(), tid));
            k = k + 1;
        }
        retain_marked(&mut self.matches, &keep, Ghost(pred));
        proof {
            let m_idx = choose|idx: Seq<int>| subsequence_via(pre.matches@, self.matches@, idx);
            let id_t = Seq::new(self.tournaments@.len(), |i: int| i);
            let id_r = Seq::new(self.rounds@.len(), |i: int| i);
            let id_p = Seq::new(self.participants@.len(), |i: int| i);
            assert forall|i: int| 0 <= i < self.matches@.len() implies has_tournament(self.tournaments@, #[trigger] self.matches@[i].tournament_id@)
                && has_round(self.rounds@, self.matches@[i].round_id@) by {
                assert(has_tournament(pre.tournaments@, pre.matches@[m_idx[i]].tournament_id@));
                assert(has_round(pre.rounds@, pre.matches@[m_idx[i]].round_id@));
            }
            assert forall|i: int| 0 <= i < self.participants@.len() implies has_tournament(self.tournaments@, #[trigger] self.participants@[i].tournament_id@) by {
                assert(has_tournament(pre.tournaments@, pre.participants@[i].tournament_id@));
            }
            assert forall|i: int| 0 <= i < self.rounds@.len() implies has_tournament(self.tournaments@, #[trigger] self.rounds@[i].tournament_id@) by {
                assert(has_tournament(pre.tournaments@, pre.rounds@[i].tournament_id@));
            }
            self.lemma_wf_tables(pre, m_idx, id_r, id_p, id_t);
        }
        Ok(())
    }

    /// Deletes every round of tournament `tid`, and with them every match
    /// played in one of those rounds.
    pub fn delete_all_rounds(&mut self, tid: &str) -> (r: Result<(), String>)
        requires
            old(self).wf(),
        ensures
            final(self).wf(),
            r is Ok,
            final(self).round_rows() == old(self).round_rows().filter(|x: Round| x.tournament_id@ != tid@),
            final(self).match_rows() == old(self).match_rows().filter(
                |m: Match| !round_of_tournament(old(self).round_rows(), m.round_id@, tid@)),
            final(self).tournament_rows() == old(self).tournament_rows(),
            final(self).participant_rows() == old(self).participant_rows(),
    {
        let ghost pre = *self;
        let ghost rs0 = self.rounds@;
        let ghost mpred = |m: Match| !round_of_tournament(rs0, m.round_id@, tid@);
        let mut keep: Vec<bool> = Vec::new();
        let mut k: usize = 0;
        while k < self.matches.len()
            invariant
                self.wf(),
                rs0 == self.rounds@,
                mpred == (|m: Match| !round_of_tournament(rs0, m.round_id@, tid@)),
                k <= self.matches@.len(),
                keep@.len() == k,
                forall|i: int| 0 <= i < k ==> keep@[i] == mpred(#[trigger] self.matches@[i]),
            decreases self.matches@.len() - k,
        {
            let in_tournament = match self.round_index(self.matches[k].round_id.as_str()) {
                Some(ri) => {
                    let b = str_eq(self.rounds[ri].tournament_id.as_str(), tid);
                    proof {
                        let rid = self.matches@[k as int].round_id@;
                        if !b && round_of_tournament(rs0, rid, tid@) {
                            let j = choose|j: int| 0 <= j < rs0.len() && #[trigger] rs0[j].id@ == rid && rs0[j].tournament_id@ == tid@;
                            if j < ri {
                                assert(rs0[j].id@ != rs0[ri as int].id@);
                            } else if ri < j {
                                assert(rs0[ri as int].id@ != rs0[j].id@);
                            }
                        }
                    }
                    b
                },
                None => false,
            };
            keep.push(!in_tournament);
            k = k + 1;
        }
        retain_marked(&mut self.matches, &keep, Ghost(mpred));
        let ghost rpred = |x: Round| x.tournament_id@ != tid@;
        let mut rkeep: Vec<bool> = Vec::new();
        let mut k: usize = 0;
        while k < self.rounds.len()
            invariant
                rpred == (|x: Round| x.tournament_id@ != tid@),
                k <= self.rounds@.len(),
                rkeep@.len() == k,
                forall|i: int| 0 <= i < k ==> rkeep@[i] == rpred(#[trigger] self.rounds@[i]),
            decreases self.rounds@.len() - k,
        {
            rkeep.push(!str_eq(self.rounds[k].tournament_id.as_str(), tid));
            k = k + 1;
        }
        retain_marked(&mut self.rounds, &rkeep, Ghost(rpred));
        proof {
            let m_idx = choose|idx: Seq<int>| subsequence_via(pre.matches@, self.matches@, idx);
            let r_idx = choose|idx: Seq<int>| subsequence_via(pre.rounds@, self.rounds@, idx);
            let id_t = Seq::new(self.tournaments@.len(), |i: int| i);
            let id_p = Seq::new(self.participants@.len(), |i: int| i);
            assert forall|i: int| 0 <= i < self.matches@.len() implies has_tournament(self.tournaments@, #[trigger] self.matches@[i].tournament_id@)
                && has_round(self.rounds@, self.matches@[i].round_id@) by {
                let m = pre.matches@[m_idx[i]];
                assert(has_tournament(pre.tournaments@, m.tournament_id@));
                assert(has_round(pre.rounds@, m.round_id@));
                let j = choose|j: int| 0 <= j < rs0.len() && #[trigger] rs0[j].id@ == m.round_id@;
                assert(mpred(m));
                assert(rpred(rs0[j]));
                rs0.lemma_filter_contains(rpred, j);
                let jj = choose|jj: int| 0 <= jj < self.rounds@.len() && self.rounds@[jj] == rs0[j];
                assert(self.rounds@[jj].id@ == m.round_id@);
            }
            assert forall|i: int| 0 <= i < self.participants@.len() implies has_tournament(self.tournaments@, #[trigger] self.participants@[i].tournament_id@) by {
                assert(has_tournament(pre.tournaments@, pre.participants@[i].tournament_id@));
            }
            assert forall|i: int| 0 <= i < self.rounds@.len() implies has_tournament(self.tournaments@, #[trigger] self.rounds@[i].tournament_id@) by {
                assert(has_tournament(pre.tournaments@, pre.rounds@[r_idx[i]].tournament_id@));
            }
            self.lemma_wf_tables(pre, m_idx, r_idx, id_p, id_t);
        }
        Ok(())
    }

    /// Deletes every participant of tournament `tid`.
    pub fn delete_all_participants(&mut self, tid: &str) -> (r: Result<(), String>)
        requires
            old(self).wf(),
        ensures
            final(self).wf(),
            r is Ok,
            final(self).participant_rows() == old(self).participant_rows().filter(|p: Participant| p.tournament_id@ != tid@),
            final(self).same_but_participants(old(self)),
    {
        let ghost pred = |p: Participant| p.tournament_id@ != tid@;
        let mut keep: Vec<bool> = Vec::new();
        let mut k: usize = 0;
        while k < self.participants.len()
            invariant
                pred == (|p: Participant| p.tournament_id@ != tid@),
                k <= self.participants@.len(),
                keep@.len() == k,
                forall|i: int| 0 <= i < k ==> keep@[i] == pred(#[trigger] self.participants@[i]),
            decreases self.participants@.len() - k,
        {
            keep.push(!str_eq(self.participants[k].tournament_id.as_str(), tid));
            k = k + 1;
        }
        self.retain_participants(&keep, Ghost(pred));
        Ok(())
    }

    /// Deletes the participant with identifier `id`.
    pub fn delete_participant(&mut self, id: &str) -> (r: Result<(), String>)
        requires
            old(self).wf(),
        ensures
            final(self).wf(),
            r is Ok,
            final(self).participant_rows() == old(self).participant_rows().filter(|p: Participant| p.id@ != id@),
            final(self).same_but_participants(old(self)),
    {
        let ghost pred = |p: Participant| p.id@ != id@;
        let mut keep: Vec<bool> = Vec::new();
        let mut k: usize = 0;
        while k < self.participants.len()
            invariant
                pred == (|p: Participant| p.id@ != id@),
                k <= self.participants@.len(),
                keep@.len() == k,
                forall|i: int| 0 <= i < k ==> keep@[i] == pred(#[trigger] self.participants@[i]),
            decreases self.participants@.len() - k,
        {
            keep.push(!str_eq(self.participants[k].id.as_str(), id));
            k = k + 1;
        }
        self.retain_participants(&keep, Ghost(pred));
        Ok(())
    }

    fn retain_participants(&mut self, keep: &Vec<bool>, Ghost(pred): Ghost<spec_fn(Participant) -> bool>)
        requires
            old(self).wf(),
            keep@.len() == old(self).participants@.len(),
            forall|i: int| 0 <= i < keep@.len() ==> keep@[i] == pred(#[trigger] old(self).participants@[i]),
        ensures
            final(self).wf(),
            final(self).participants@ == old(self).participants@.filter(pred),
            final(self).tournaments@ == old(self).tournaments@,
            final(self).rounds@ == old(self).rounds@,
            final(self).matches@ == old(self).matches@,
    {
        let ghost pre = *self;
        retain_marked(&mut self.participants, keep, Ghost(pred));
        proof {
            let p_idx = choose|idx: Seq<int>| subsequence_via(pre.participants@, self.participants@, idx);
            let id_t = Seq::new(self.tournaments@.len(), |i: int| i);
            let id_r = Seq::new(self.rounds@.len(), |i: int| i);
            let id_m = Seq::new(self.matches@.len(), |i: int| i);
            assert forall|i: int| 0 <= i < self.matches@.len() implies has_tournament(self.tournaments@, #[trigger] self.matches@[i].tournament_id@)
                && has_round(self.rounds@, self.matches@[i].round_id@) by {
                assert(has_tournament(pre.tournaments@, pre.matches@[i].tournament_id@));
                assert(has_round(pre.rounds@, pre.matches@[i].round_id@));
            }
            assert forall|i: int| 0 <= i < self.participants@.len() implies has_tournament(self.tournaments@, #[trigger] self.participants@[i].tournament_id@) by {
                assert(has_tournament(pre.tournaments@, pre.participants@[p_idx[i]].tournament_id@));
            }
            assert forall|i: int| 0 <= i < self.rounds@.len() implies has_tournament(self.tournaments@, #[trigger] self.rounds@[i].tournament_id@) by {
                assert(has_tournament(pre.tournaments@, pre.rounds@[i].tournament_id@));
            }
            self.lemma_wf_tables(pre, id_m, id_r, p_idx, id_t);
        }
    }

    /// Deletes tournament `id` together with its matches, rounds and
    /// participants.
    pub fn delete_tournament(&mut self, id: &str) -> (r: Result<(), String>)
        requires
            old(self).wf(),
        ensures
            final(self).wf(),
            r is Ok,
            final(self).tournament_rows() == old(self).tournament_rows().filter(|t: Tournament| t.id@ != id@),
            final(self).participant_rows() == old(self).participant_rows().filter(|p: Participant| p.tournament_id@ != id@),
            final(self).round_rows() == old(self).round_rows().filter(|x: Round| x.tournament_id@ != id@),
            final(self).match_rows() == old(self).match_rows().filter(|m: Match| m.tournament_id@ != id@).filter(
                |m: Match| !round_of_tournament(old(self).round_rows(), m.round_id@, id@)),
    {
        let ghost s0 = *self;
        let _ = self.delete_all_matches(id);
        let ghost s1 = *self;
        let _ = self.delete_all_rounds(id);
        let _ = self.delete_all_participants(id);
        let ghost pre = *self;
        let ghost pred = |t: Tournament| t.id@ != id@;
        let mut keep: Vec<bool> = Vec::new();
        let mut k: usize = 0;
        while k < self.tournaments.len()
            invariant
                pred == (|t: Tournament| t.id@ != id@),
                k <= self.tournaments@.len(),
                keep@.len() == k,
                forall|i: int| 0 <= i < k ==> keep@[i] == pred(#[trigger] self.tournaments@[i]),
            decreases self.tournaments@.len() - k,
        {
            keep.push(!str_eq(self.tournaments[k].id.as_str(), id));
            k = k + 1;
        }
        retain_marked(&mut self.tournaments, &keep, Ghost(pred));
        proof {
            let ts0 = pre.tournaments@;
            let t_idx = choose|idx: Seq<int>| subsequence_via(ts0, self.tournaments@, idx);
            let id_p = Seq::new(self.participants@.len(), |i: int| i);
            let id_r = Seq::new(self.rounds@.len(), |i: int| i);
            let id_m = Seq::new(self.matches@.len(), |i: int| i);
            assert forall|x: Seq<char>| has_tournament(ts0, x) && x != id@ implies has_tournament(self.tournaments@, x) by {
                let j = choose|j: int| 0 <= j < ts0.len() && #[trigger] ts0[j].id@ == x;
                assert(pred(ts0[j]));
                ts0.lemma_filter_contains(pred, j);
                let jj = choose|jj: int| 0 <= jj < self.tournaments@.len() && self.tournaments@[jj] == ts0[j];
                assert(self.tournaments@[jj].id@ == x);
            }
            assert forall|i: int| 0 <= i < self.matches@.len() implies has_tournament(self.tournaments@, #[trigger] self.matches@[i].tournament_id@)
                && has_round(self.rounds@, self.matches@[i].round_id@) by {
                let m = self.matches@[i];
                assert(has_tournament(ts0, pre.matches@[i].tournament_id@));
                assert(has_round(pre.rounds@, pre.matches@[i].round_id@));
                let p1 = |mm: Match| mm.tournament_id@ != id@;
                let p2 = |mm: Match| !round_of_tournament(s1.rounds@, mm.round_id@, id@);
                assert(s1.matches@ == s0.matches@.filter(p1));
                assert(self.matches@ == s1.matches@.filter(p2));
                lemma_filter_member(s1.matches@, p2, i);
                let j = choose|j: int| 0 <= j < s1.matches@.len() && s1.matches@[j] == m;
                lemma_filter_member(s0.matches@, p1, j);
                assert(m.tournament_id@ != id@);
            }
            assert forall|i: int| 0 <= i < self.participants@.len() implies has_tournament(self.tournaments@, #[trigger] self.participants@[i].tournament_id@) by {
                assert(has_tournament(ts0, pre.participants@[i].tournament_id@));
                lemma_filter_member(s0.participants@, |p: Participant| p.tournament_id@ != id@, i);
            }
            assert forall|i: int| 0 <= i < self.rounds@.len() implies has_tournament(self.tournaments@, #[trigger] self.rounds@[i].tournament_id@) by {
                assert(has_tournament(ts0, pre.rounds@[i].tournament_id@));
                lemma_filter_member(s0.rounds@, |x: Round| x.tournament_id@ != id@, i);
            }
            self.lemma_wf_tables(pre, id_m, id_r, id_p, t_idx);
        }
        Ok(())
    }

    /// Rewriting rows of the tournament table without touching their
    /// identifiers keeps the store well formed.
    proof fn lemma_wf_same_keys(pre: Self, post: Self)
        requires
            pre.wf(),
            post.participants@ == pre.participants@,
            post.rounds@ == pre.rounds@,
            post.matches@ == pre.matches@,
            post.tournaments@.len() == pre.tournaments@.len(),
            forall|k: int| 0 <= k < pre.tournaments@.len() ==> #[trigger] post.tournaments@[k].id == pre.tournaments@[k].id,
        ensures
            post.wf(),
    {
        let ts = pre.tournaments@;
        let nts = post.tournaments@;
        assert forall|a: int, b: int| 0 <= a < b < nts.len() implies #[trigger] nts[a].id@ != #[trigger] nts[b].id@ by {
            assert(ts[a].id@ != ts[b].id@);
        }
        assert forall|x: Seq<char>| has_tournament(ts, x) implies has_tournament(nts, x) by {
            let j = choose|j: int| 0 <= j < ts.len() && #[trigger] ts[j].id@ == x;
            assert(nts[j].id@ == x);
        }
    }

    fn set_tournament_row(&mut self, id: &str, Ghost(f): Ghost<spec_fn(Tournament) -> Tournament>, status: Option<TournamentStatus>, count: Option<usize>)
        requires
            old(self).wf(),
            forall|t: Tournament| #[trigger] f(t) == (Tournament {
                status: match status { Some(s) => s, None => t.status },
                participant_count: match count { Some(c) => c, None => t.participant_count },
                ..t
            }),
        ensures
            final(self).wf(),
            final(self).tournament_rows() == update_tournament_rows(old(self).tournament_rows(), id@, f),
            final(self).same_but_tournaments(old(self)),
    {
        let ghost pre = *self;
        let ghost ts = self.tournaments@;
        match self.tournament_index(id) {
            Some(i) => {
                let mut t = self.tournaments[i].clone();
                match status {
                    Some(s) => { t.status = s; },
                    None => {},
                }
                match count {
                    Some(c) => { t.participant_count = c; },
                    None => {},
                }
                self.tournaments.set(i, t);
                proof {
                    assert forall|k: int| 0 <= k < ts.len() && k != i implies ts[k].id@ != id@ by {
                        if k < i {
                            assert(ts[k].id@ != ts[i as int].id@);
                        } else {
                            assert(ts[i as int].id@ != ts[k].id@);
                        }
                    }
                    assert(self.tournaments@ =~= update_tournament_rows(ts, id@, f));
                    Self::lemma_wf_same_keys(pre, *self);
                }
            },
            None => {
                proof {
                    assert forall|k: int| 0 <= k < ts.len() implies ts[k].id@ != id@ by {
                        if ts[k].id@ == id@ {
                            assert(has_tournament(ts, id@));
                        }
                    }
                    assert(ts =~= update_tournament_rows(ts, id@, f));
                }
            },
        }
    }

    /// Sets the status of tournament `id`.
    pub fn put_tournament_status(&mut self, id: &str, status: TournamentStatus) -> (r: Result<(), String>)
        requires
            old(self).wf(),
        ensures
            final(self).wf(),
            r is Ok,
            final(self).tournament_rows() == update_tournament_rows(old(self).tournament_rows(), id@,
                |t: Tournament| Tournament { status, ..t }),
            final(self).same_but_tournaments(old(self)),
    {
        let ghost f = |t: Tournament| Tournament { status, ..t };
        self.set_tournament_row(id, Ghost(f), Some(status), None);
        Ok(())
    }

    /// Records the number of participants of tournament `id`.
    pub fn update_tournament_participant_count(&mut self, id: &str, count: usize) -> (r: Result<(), String>)
        requires
            old(self).wf(),
        ensures
            final(self).wf(),
            r is Ok,
            final(self).tournament_rows() == update_tournament_rows(old(self).tournament_rows(), id@,
                |t: Tournament| Tournament { participant_count: count, ..t }),
            final(self).same_but_tournaments(old(self)),
    {
        let ghost f = |t: Tournament| Tournament { participant_count: count, ..t };
        self.set_tournament_row(id, Ghost(f), None, Some(count));
        Ok(())
    }

    /// Renames and reseeds participant `id`.
    pub fn put_participant(&mut self, id: &str, name: &String, seed: i32) -> (r: Result<(), String>)
        requires
            old(self).wf(),
        ensures
            final(self).wf(),
            r is Ok,
            final(self).participant_rows() == update_participant_rows(old(self).participant_rows(), id@,
                |p: Participant| Participant { name: *name, seed, ..p }),
            final(self).same_but_participants(old(self)),
    {
        let ghost f = |p: Participant| Participant { name: *name, seed, ..p };
        let ghost pre = *self;
        let ghost ps = self.participants@;
        match self.participant_index(id) {
            Some(i) => {
                let mut p = self.participants[i].clone();
                p.name = name.clone();
                p.seed = seed;
                self.participants.set(i, p);
                proof {
                    assert forall|k: int| 0 <= k < ps.len() && k != i implies ps[k].id@ != id@ by {
                        if k < i {
                            assert(ps[k].id@ != ps[i as int].id@);
                        } else {
                            assert(ps[i as int].id@ != ps[k].id@);
                        }
                    }
                    assert(self.participants@ =~= update_participant_rows(ps, id@, f));
                    let nps = self.participants@;
                    assert forall|a: int, b: int| 0 <= a < b < nps.len() implies #[trigger] nps[a].id@ != #[trigger] nps[b].id@ by {
                        assert(ps[a].id@ != ps[b].id@);
                    }
                    assert forall|k: int| 0 <= k < nps.len() implies has_tournament(self.tournaments@, #[trigger] nps[k].tournament_id@) by {
                        assert(has_tournament(pre.tournaments@, ps[k].tournament_id@));
                    }
                }
            },
            None => {
                proof {
                    assert forall|k: int| 0 <= k < ps.len() implies ps[k].id@ != id@ by {
                        if ps[k].id@ == id@ {
                            assert(has_participant(ps, id@));
                        }
                    }
                    assert(ps =~= update_participant_rows(ps, id@, f));
                }
            },
        }
        Ok(())
    }

    /// Whether tournament `tid` has a participant named `name`, ignoring the
    /// case of ASCII letters.
    pub fn participant_exists(&self, tid: &str, name: &str) -> (r: Result<bool, String>)
        requires
            self.wf(),
        ensures
            r == Ok::<bool, String>(participant_named(self.participant_rows(), tid@, name@)),
    {
        let mut k: usize = 0;
        while k < self.participants.len()
            invariant
                k <= self.participants@.len(),
                forall|i: int| 0 <= i < k ==> !(#[trigger] self.participants@[i].tournament_id@ == tid@
                    && same_name_ignoring_ascii_case(self.participants@[i].name@, name@)),
            decreases self.participants@.len() - k,
        {
            if str_eq(self.participants[k].tournament_id.as_str(), tid)
                && same_name_ignoring_ascii_case_exec(self.participants[k].name.as_str(), name) {
                return Ok(true);
            }
            k = k + 1;
        }
        Ok(false)
    }

    /// The number of participants of tournament `tid`.
    pub fn get_participant_count(&self, tid: &str) -> (r: Result<usize, String>)
        requires
            self.wf(),
        ensures
            r matches Ok(c) && c == participant_count_in(self.participant_rows(), tid@),
    {
        let ghost pred = |p: Participant| p.tournament_id@ == tid@;
        let mut k: usize = 0;
        let mut count: usize = 0;
        while k < self.participants.len()
            invariant
                pred == (|p: Participant| p.tournament_id@ == tid@),
                k <= self.participants@.len(),
                count == self.participants@.take(k as int).filter(pred).len(),
                count <= k,
            decreases self.participants@.len() - k,
        {
            proof {
                reveal_with_fuel(Seq::filter, 1);
                assert(self.participants@.take(k + 1).drop_last() =~= self.participants@.take(k as int));
                self.participants@.take(k as int).lemma_filter_len(pred);
            }
            if str_eq(self.participants[k].tournament_id.as_str(), tid) {
                count = count + 1;
            }
            k = k + 1;
        }
        assert(self.participants@.take(k as int) =~= self.participants@);
        Ok(count)
    }

    /// Every tournament, newest first.
    pub fn get_all_tournaments(&self) -> (r: Result<Vec<Tournament>, String>)
        requires
            self.wf(),
        ensures
            r matches Ok(v) && v@ == tournaments_newest_first(self.tournament_rows()),
    {
        let n = self.tournaments.len();
        let mut keys: Vec<String> = Vec::new();
        let mut k: usize = 0;
        while k < n
            invariant
                n == self.tournaments@.len(),
                k <= n,
                keys@.len() == k,
                forall|i: int| 0 <= i < k ==> #[trigger] keys@[i]@ == self.tournaments@[i].created_at@,
            decreases n - k,
        {
            keys.push(copy_string(&self.tournaments[k].created_at));
            k = k + 1;
        }
        assert(keys@.map_values(|s: String| s@) =~= created_keys(self.tournaments@));
        let p = text_desc_positions(&keys);
        let ghost ord = text_desc_order(created_keys(self.tournaments@));
        let mut out: Vec<Tournament> = Vec::new();
        let mut i: usize = 0;
        while i < p.len()
            invariant
                n == self.tournaments@.len(),
                p@.len() == n,
                ord.len() == n,
                forall|t: int| 0 <= t < p@.len() ==> #[trigger] p@[t] as int == ord[t],
                is_text_desc_order(created_keys(self.tournaments@), ord),
                i <= p@.len(),
                out@.len() == i,
                forall|t: int| 0 <= t < i ==> #[trigger] out@[t] == self.tournaments@[ord[t]],
            decreases p@.len() - i,
        {
            assert(0 <= ord[i as int] < n);
            out.push(self.tournaments[p[i]].clone());
            i = i + 1;
        }
        assert(out@ =~= ord.map_values(|k: int| self.tournaments@[k]));
        Ok(out)
    }

    /// In a well-formed store no two matches share an identifier.
    pub proof fn lemma_match_ids_distinct(&self)
        requires
            self.wf(),
        ensures
            forall|i: int, j: int| 0 <= i < j < self.match_rows().len() ==> #[trigger] self.match_rows()[i].id@ != #[trigger] self.match_rows()[j].id@,
    {
    }

    /// In a well-formed store no two participants share an identifier.
    pub proof fn lemma_participant_ids_distinct(&self)
        requires
            self.wf(),
        ensures
            forall|i: int, j: int| 0 <= i < j < self.participant_rows().len() ==> #[trigger] self.participant_rows()[i].id@ != #[trigger] self.participant_rows()[j].id@,
    {
    }

    /// In a well-formed store no two rounds share an identifier.
    pub proof fn lemma_round_ids_distinct(&self)
        requires
            self.wf(),
        ensures
            forall|i: int, j: int| 0 <= i < j < self.round_rows().len() ==> #[trigger] self.round_rows()[i].id@ != #[trigger] self.round_rows()[j].id@,
    {
    }
}

/// A tournament stored under a fresh identifier is what a read of that
/// identifier gives back.
pub proof fn lemma_tournament_read_after_create(ts: Seq<Tournament>, t: Tournament)
    requires
        !has_tournament(ts, t.id@),
    ensures
        tournament_with_id(ts.push(t), t.id@) == Some(t),
{
    let all = ts.push(t);
    assert(all[ts.len() as int].id@ == t.id@);
    let i = choose|i: int| 0 <= i < all.len() && #[trigger] all[i].id@ == t.id@;
    if i < ts.len() {
        assert(ts[i].id@ == t.id@);
    }
}

/// Once a score is recorded for a match, reading the match gives it back
/// with that score, status and winner (match identifiers being distinct).
pub proof fn lemma_match_read_after_score(
    ms: Seq<Match>,
    id: Seq<char>,
    score1: i32,
    score2: i32,
    status: MatchStatus,
    winner_id: Option<String>,
)
    requires
        forall|i: int, j: int| 0 <= i < j < ms.len() ==> #[trigger] ms[i].id@ != #[trigger] ms[j].id@,
        match_with_id(ms, id) is Some,
    ensures
        match_with_id(update_match_rows(ms, id, |m: Match| with_score(m, score1, score2, status, winner_id)), id)
            == Some(with_score(match_with_id(ms, id)->Some_0, score1, score2, status, winner_id)),
{
    let f = |m: Match| with_score(m, score1, score2, status, winner_id);
    let after = update_match_rows(ms, id, f);
    let i = choose|i: int| 0 <= i < ms.len() && #[trigger] ms[i].id@ == id;
    assert(after[i].id@ == id);
    let j = choose|j: int| 0 <= j < after.len() && #[trigger] after[j].id@ == id;
    assert(ms[j].id@ == id);
    if i < j {
        assert(ms[i].id@ != ms[j].id@);
    } else if j < i {
        assert(ms[j].id@ != ms[i].id@);
    }
}

} // verus!
