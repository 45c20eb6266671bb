use vstd::prelude::*;
use vstd::string::*;
use crate::domain::match_model::{Match, MatchStatus};
use crate::domain::round::Round;
use crate::domain::tournament::{Tournament, TournamentStatus};
use crate::services::match_service::count_status;
use crate::text::{copy_string, str_eq, trim, trim_text};

verus! {

/// Kind of a notification shown to the user.
#[derive(Debug, Clone, Copy, PartialEq, Eq, Structural)]
pub enum ToastType {
    Success,
    Error,
    Info,
}

/// Colour scheme of the interface.
#[derive(Debug, Clone, Copy, PartialEq, Eq, Structural)]
pub enum ThemeMode {
    Dark,
    Light,
    Custom,
}

/// Match counts of a tournament by status.
#[derive(Debug, Clone, Copy)]
pub struct MatchCounts {
    pub total: usize,
    pub completed: usize,
    pub pending: usize,
    pub in_progress: usize,
    pub bye: usize,
}

fn count_of(ms: &Vec<Match>, st: MatchStatus) -> (c: usize)
    ensures
        c == count_status(ms@, st),
{
    let mut c: usize = 0;
    let mut k: usize = 0;
    while k < ms.len()
        invariant
            k <= ms@.len(),
            c == count_status(ms@.take(k as int), st),
            c <= k,
        decreases ms@.len() - k,
    {
        proof {
            assert(ms@.take(k + 1).drop_last() =~= ms@.take(k as int));
        }
        if ms[k].status == st {
            c = c + 1;
        }
        k = k + 1;
    }
    proof {
        assert(ms@.take(ms@.len() as int) =~= ms@);
    }
    c
}

/// Every status count is at most the number of matches, and the four add
/// up to it.
pub proof fn lemma_status_counts(ms: Seq<Match>)
    ensures
        count_status(ms, MatchStatus::Completed) + count_status(ms, MatchStatus::Pending) + count_status(ms, MatchStatus::InProgress)
            + count_status(ms, MatchStatus::Bye) == ms.len(),
    decreases ms.len(),
{
    if ms.len() > 0 {
        lemma_status_counts(ms.drop_last());
    }
}

impl MatchCounts {
    /// The counts of the matches `matches`.
    pub fn from_matches(matches: &Vec<Match>) -> (c: Self)
        ensures
            c.total == matches@.len(),
            c.completed == count_status(matches@, MatchStatus::Completed),
            c.pending == count_status(matches@, MatchStatus::Pending),
            c.in_progress == count_status(matches@, MatchStatus::InProgress),
            c.bye == count_status(matches@, MatchStatus::Bye),
    {
        MatchCounts {
            total: matches.len(),
            completed: count_of(matches, MatchStatus::Completed),
            pending: count_of(matches, MatchStatus::Pending),
            in_progress: count_of(matches, MatchStatus::InProgress),
            bye: count_of(matches, MatchStatus::Bye),
        }
    }

    /// Matches that need no more play: completed ones and BYEs.
    pub fn resolved(&self) -> (r: usize)
        requires
            self.completed + self.bye <= usize::MAX,
        ensures
            r == self.completed + self.bye,
    {
        self.completed + self.bye
    }
}

/// The first position of `ms` whose match satisfies `p`.
pub open spec fn first_where(ms: Seq<Match>, p: spec_fn(Match) -> bool) -> Option<int> {
    if exists|i: int| 0 <= i < ms.len() && #[trigger] p(ms[i]) {
        Some(choose|i: int| 0 <= i < ms.len() && #[trigger] p(ms[i]) && forall|j: int| 0 <= j < i ==> !p(ms[j]))
    } else {
        None
    }
}

/// The last position of `ms` whose match satisfies `p`.
pub open spec fn last_where(ms: Seq<Match>, p: spec_fn(Match) -> bool) -> Option<int> {
    if exists|i: int| 0 <= i < ms.len() && #[trigger] p(ms[i]) {
        Some(choose|i: int| 0 <= i < ms.len() && #[trigger] p(ms[i]) && forall|j: int| i < j < ms.len() ==> !p(ms[j]))
    } else {
        None
    }
}

/// A match in play.
pub open spec fn live(m: Match) -> bool {
    m.status == MatchStatus::InProgress
}

/// A pending match whose two players are known.
pub open spec fn ready_to_play(m: Match) -> bool {
    m.status == MatchStatus::Pending && m.player1_name@.len() > 0 && m.player2_name@.len() > 0
}

/// A pending match.
pub open spec fn pending(m: Match) -> bool {
    m.status == MatchStatus::Pending
}

/// A completed match.
pub open spec fn finished(m: Match) -> bool {
    m.status == MatchStatus::Completed
}

/// The position of the match to feature: the first one in play, else the
/// first pending one with both players, else the first pending one, else
/// the last completed one.
pub open spec fn focus_index(ms: Seq<Match>) -> Option<int> {
    match first_where(ms, |m: Match| live(m)) {
        Some(i) => Some(i),
        None => match first_where(ms, |m: Match| ready_to_play(m)) {
            Some(i) => Some(i),
            None => match first_where(ms, |m: Match| pending(m)) {
                Some(i) => Some(i),
                None => last_where(ms, |m: Match| finished(m)),
            },
        },
    }
}

fn find_first(ms: &Vec<Match>, Ghost(p): Ghost<spec_fn(Match) -> bool>, kind: u8) -> (r: Option<usize>)
    requires
        kind == 0 ==> p == (|m: Match| live(m)),
        kind == 1 ==> p == (|m: Match| ready_to_play(m)),
        kind == 2 ==> p == (|m: Match| pending(m)),
        kind <= 2,
    ensures
        match r {
            Some(i) => i < ms@.len() && first_where(ms@, p) == Some(i as int),
            None => first_where(ms@, p) is None,
        },
{
    let mut k: usize = 0;
    while k < ms.len()
        invariant
            k <= ms@.len(),
            kind == 0 ==> p == (|m: Match| live(m)),
            kind == 1 ==> p == (|m: Match| ready_to_play(m)),
            kind == 2 ==> p == (|m: Match| pending(m)),
            kind <= 2,
            forall|j: int| 0 <= j < k ==> !p(#[trigger] ms@[j]),
        decreases ms@.len() - k,
    {
        let m = &ms[k];
        let hit = if kind == 0 {
            m.status == MatchStatus::InProgress
        } else if kind == 1 {
            m.status == MatchStatus::Pending && m.player1_name.as_str().unicode_len() > 0 && m.player2_name.as_str().unicode_len() > 0
        } else {
            m.status == MatchStatus::Pending
        };
        if hit {
            proof {
                assert(p(ms@[k as int]));
                let c = choose|i: int| 0 <= i < ms@.len() && #[trigger] p(ms@[i]) && forall|j: int| 0 <= j < i ==> !p(ms@[j]);
                if c < k {
                } else if c > k {
                    assert(!p(ms@[k as int]));
                }
            }
            return Some(k);
        }
        k = k + 1;
    }
    None
}

fn find_last_finished(ms: &Vec<Match>) -> (r: Option<usize>)
    ensures
        match r {
            Some(i) => i < ms@.len() && last_where(ms@, |m: Match| finished(m)) == Some(i as int),
            None => last_where(ms@, |m: Match| finished(m)) is None,
        },
{
    let ghost p = |m: Match| finished(m);
    let mut k: usize = ms.len();
    while k > 0
        invariant
            k <= ms@.len(),
            p == (|m: Match| finished(m)),
            forall|j: int| k <= j < ms@.len() ==> !p(#[trigger] ms@[j]),
        decreases k,
    {
        if ms[k - 1].status == MatchStatus::Completed {
            proof {
                let i = k - 1;
                assert(p(ms@[i]));
                let c = choose|c: int| 0 <= c < ms@.len() && #[trigger] p(ms@[c]) && forall|j: int| c < j < ms@.len() ==> !p(ms@[j]);
                if c < i {
                    assert(!p(ms@[i]));
                } else if c > i {
                }
            }
            return Some(k - 1);
        }
        k = k - 1;
    }
    None
}

/// The position of the match to feature (see `focus_index`).
fn focus_match_index(matches: &Vec<Match>) -> (r: Option<usize>)
    ensures
        r matches Some(i) ==> i < matches@.len() && focus_index(matches@) == Some(i as int),
        r is None ==> focus_index(matches@) is None,
{
    match find_first(matches, Ghost(|m: Match| live(m)), 0) {
        Some(i) => Some(i),
        None => match find_first(matches, Ghost(|m: Match| ready_to_play(m)), 1) {
            Some(i) => Some(i),
            None => match find_first(matches, Ghost(|m: Match| pending(m)), 2) {
                Some(i) => Some(i),
                None => find_last_finished(matches),
            },
        },
    }
}

/// The match to feature on the overview (see `focus_index`).
pub fn focus_match(matches: &Vec<Match>) -> (r: Option<Match>)
    ensures
        match focus_index(matches@) {
            Some(i) => r == Some(matches@[i]),
            None => r is None,
        },
{
    let found = match find_first(matches, Ghost(|m: Match| live(m)), 0) {
        Some(i) => Some(i),
        None => match find_first(matches, Ghost(|m: Match| ready_to_play(m)), 1) {
            Some(i) => Some(i),
            None => match find_first(matches, Ghost(|m: Match| pending(m)), 2) {
                Some(i) => Some(i),
                None => find_last_finished(matches),
            },
        },
    };
    match found {
        Some(i) => Some(matches[i].clone()),
        None => None,
    }
}

// ─── Scoreboard ─────────────────────────────────────────────────────────

/// The matches a scoreboard can show: all but the BYEs, in order.
pub open spec fn without_byes(ms: Seq<Match>) -> Seq<Match>
    decreases ms.len(),
{
    if ms.len() == 0 {
        Seq::empty()
    } else if ms.last().status != MatchStatus::Bye {
        without_byes(ms.drop_last()).push(ms.last())
    } else {
        without_byes(ms.drop_last())
    }
}

/// The matches a scoreboard can show.
pub fn selectable_matches(matches: &Vec<Match>) -> (r: Vec<Match>)
    ensures
        r@ == without_byes(matches@),
{
    let mut out: Vec<Match> = Vec::new();
    let mut k: usize = 0;
    proof {
        assert(matches@.take(0) =~= Seq::<Match>::empty());
    }
    while k < matches.len()
        invariant
            k <= matches@.len(),
            out@ == without_byes(matches@.take(k as int)),
        decreases matches@.len() - k,
    {
        proof {
            assert(matches@.take(k + 1).drop_last() =~= matches@.take(k as int));
            assert(matches@.take(k + 1).last() == matches@[k as int]);
        }
        if matches[k].status != MatchStatus::Bye {
            out.push(matches[k].clone());
        }
        k = k + 1;
    }
    proof {
        assert(matches@.take(matches@.len() as int) =~= matches@);
    }
    out
}

/// The first position at or after `lo` and before `hi` whose match is open
/// (in play or pending).
pub open spec fn first_open_between(ms: Seq<Match>, lo: int, hi: int) -> Option<int>
    decreases hi - lo,
{
    if lo >= hi {
        None
    } else if ms[lo].status == MatchStatus::InProgress || ms[lo].status == MatchStatus::Pending {
        Some(lo)
    } else {
        first_open_between(ms, lo + 1, hi)
    }
}

/// The first position at or after `lo` whose match has identifier `id`.
pub open spec fn position_of(ms: Seq<Match>, id: Seq<char>, lo: int) -> Option<int>
    decreases ms.len() - lo,
{
    if lo >= ms.len() {
        None
    } else if ms[lo].id@ == id {
        Some(lo)
    } else {
        position_of(ms, id, lo + 1)
    }
}

/// The open match that follows match `current` on the scoreboard, going
/// round to the start; none when `current` is not shown or nothing else
/// is open.
pub open spec fn next_open(ms: Seq<Match>, current: Seq<char>) -> Option<Match> {
    let sel = without_byes(ms);
    match position_of(sel, current, 0) {
        None => None,
        Some(c) => match first_open_between(sel, c + 1, sel.len() as int) {
            Some(i) => Some(sel[i]),
            None => match first_open_between(sel, 0, c) {
                Some(i) => Some(sel[i]),
                None => None,
            },
        },
    }
}

fn find_open(ms: &Vec<Match>, lo: usize, hi: usize) -> (r: Option<usize>)
    requires
        lo <= hi <= ms@.len(),
    ensures
        r matches Some(i) ==> i < ms@.len() && first_open_between(ms@, lo as int, hi as int) == Some(i as int),
        r is None ==> first_open_between(ms@, lo as int, hi as int) is None,
    decreases hi - lo,
{
    if lo >= hi {
        return None;
    }
    if ms[lo].status == MatchStatus::InProgress || ms[lo].status == MatchStatus::Pending {
        return Some(lo);
    }
    find_open(ms, lo + 1, hi)
}

fn find_id(ms: &Vec<Match>, id: &str, lo: usize) -> (r: Option<usize>)
    requires
        lo <= ms@.len(),
    ensures
        r matches Some(i) ==> i < ms@.len() && position_of(ms@, id@, lo as int) == Some(i as int),
        r is None ==> position_of(ms@, id@, lo as int) is None,
    decreases ms@.len() - lo,
{
    if lo >= ms.len() {
        return None;
    }
    if crate::text::str_eq(ms[lo].id.as_str(), id) {
        return Some(lo);
    }
    find_id(ms, id, lo + 1)
}

/// The next open match after match `current_id` on the scoreboard.
pub fn next_match(matches: &Vec<Match>, current_id: &str) -> (r: Option<Match>)
    ensures
        r == next_open(matches@, current_id@),
{
    let sel = selectable_matches(matches);
    let c = match find_id(&sel, current_id, 0) {
        Some(c) => c,
        None => {
            return None;
        },
    };
    match find_open(&sel, c + 1, sel.len()) {
        Some(i) => Some(sel[i].clone()),
        None => match find_open(&sel, 0, c) {
            Some(i) => Some(sel[i].clone()),
            None => None,
        },
    }
}

/// The scoreboard's match after checking the selection `selected`: none
/// when nothing can be shown; the selection itself when it is shown;
/// otherwise the featured match (see `focus_index`), or the first one.
/// The flag tells whether the selection changed, so that typed scores are
/// cleared.
pub open spec fn scoreboard_choice(ms: Seq<Match>, selected: Option<Seq<char>>) -> (Option<Seq<char>>, bool) {
    let sel = without_byes(ms);
    if sel.len() == 0 {
        (None, false)
    } else if selected matches Some(id) && position_of(sel, id, 0) is Some {
        (selected, false)
    } else {
        let k = match focus_index(sel) {
            Some(i) => i,
            None => 0,
        };
        (Some(sel[k].id@), selected != Some(sel[k].id@))
    }
}

/// The text of an optional string.
pub open spec fn opt_id(o: Option<String>) -> Option<Seq<char>> {
    match o {
        Some(s) => Some(s@),
        None => None,
    }
}

/// Keeps the scoreboard's selection on a match it can show (see
/// `scoreboard_choice`).
pub fn scoreboard_selection(matches: &Vec<Match>, selected: &Option<String>) -> (r: (Option<String>, bool))
    ensures
        (opt_id(r.0), r.1) == scoreboard_choice(matches@, opt_id(*selected)),
{
    let sel = selectable_matches(matches);
    if sel.len() == 0 {
        return (None, false);
    }
    match selected {
        Some(id) => {
            if find_id(&sel, id.as_str(), 0).is_some() {
                return (Some(crate::text::copy_string(id)), false);
            }
        },
        None => {},
    }
    let k = match focus_match_index(&sel) {
        Some(i) => i,
        None => 0,
    };
    let chosen = crate::text::copy_string(&sel[k].id);
    let changed = match selected {
        Some(id) => !crate::text::str_eq(id.as_str(), chosen.as_str()),
        None => true,
    };
    (Some(chosen), changed)
}

/// The name to show for a player slot: "TBD" while it is blank.
pub open spec fn shown_player(name: Seq<char>) -> Seq<char> {
    if trim_text(name).len() == 0 {
        "TBD"@
    } else {
        name
    }
}

/// The name to show for a player slot.
pub fn player_name(name: &str) -> (r: &str)
    ensures
        r@ == shown_player(name@),
{
    if trim(name).as_str().unicode_len() == 0 {
        "TBD"
    } else {
        name
    }
}

/// `value`, or `default` while `value` is blank.
pub fn value_or_default<'a>(value: &'a str, default: &'a str) -> (r: &'a str)
    ensures
        r@ == if trim_text(value@).len() == 0 {
            default@
        } else {
            value@
        },
{
    if trim(value).as_str().unicode_len() == 0 {
        default
    } else {
        value
    }
}

/// The date part of a creation time: the text before its first space.
pub open spec fn date_part(s: Seq<char>) -> Seq<char> {
    if exists|i: int| 0 <= i < s.len() && s[i] == ' ' {
        s.take(choose|i: int| 0 <= i < s.len() && s[i] == ' ' && forall|j: int| 0 <= j < i ==> s[j] != ' ')
    } else {
        s
    }
}

/// The date part of a creation time.
pub fn created_date(created_at: &str) -> (r: &str)
    ensures
        r@ == date_part(created_at@),
{
    let n = created_at.unicode_len();
    let mut k: usize = 0;
    while k < n
        invariant
            n == created_at@.len(),
            k <= n,
            forall|j: int| 0 <= j < k ==> created_at@[j] != ' ',
        decreases n - k,
    {
        if created_at.get_char(k) == ' ' {
            proof {
                let s = created_at@;
                let c = choose|i: int| 0 <= i < s.len() && s[i] == ' ' && forall|j: int| 0 <= j < i ==> s[j] != ' ';
                if c < k {
                } else if c > k {
                    assert(s[k as int] == ' ');
                }
                assert(s.take(k as int) =~= s.subrange(0, k as int));
            }
            return created_at.substring_char(0, k);
        }
        k = k + 1;
    }
    created_at
}

/// `s` cut to `max_chars` characters, the last one an ellipsis, when it is
/// longer.
pub open spec fn truncated(s: Seq<char>, max_chars: nat) -> Seq<char> {
    if s.len() > max_chars {
        s.take(max_chars - 1) + seq!['\u{2026}']
    } else {
        s
    }
}

/// `s` cut to at most `max_chars` characters.
pub fn truncate(s: &str, max_chars: usize) -> (r: String)
    requires
        s@.len() > max_chars ==> max_chars >= 1,
    ensures
        r@ == truncated(s@, max_chars as nat),
{
    if s.unicode_len() > max_chars {
        let head = s.substring_char(0, max_chars - 1);
        let r = String::from_str(head).concat("\u{2026}");
        proof {
            reveal_strlit("\u{2026}");
            assert(s@.take(max_chars - 1) =~= s@.subrange(0, max_chars - 1));
        }
        r
    } else {
        String::from_str(s)
    }
}

/// The name of round `round_id` among `rounds`, or "Match" when it is not
/// there.
pub open spec fn round_label_text(rounds: Seq<Round>, round_id: Seq<char>) -> Seq<char> {
    if exists|i: int| 0 <= i < rounds.len() && #[trigger] rounds[i].id@ == round_id {
        rounds[choose|i: int| 0 <= i < rounds.len() && #[trigger] rounds[i].id@ == round_id
            && forall|j: int| 0 <= j < i ==> rounds[j].id@ != round_id].name@
    } else {
        "Match"@
    }
}

/// The name of round `round_id` among `rounds`.
pub fn round_label(rounds: &Vec<Round>, round_id: &str) -> (r: String)
    ensures
        r@ == round_label_text(rounds@, round_id@),
{
    let mut k: usize = 0;
    while k < rounds.len()
        invariant
            k <= rounds@.len(),
            forall|j: int| 0 <= j < k ==> rounds@[j].id@ != round_id@,
        decreases rounds@.len() - k,
    {
        if str_eq(rounds[k].id.as_str(), round_id) {
            proof {
                let c = choose|i: int| 0 <= i < rounds@.len() && #[trigger] rounds@[i].id@ == round_id@
                    && forall|j: int| 0 <= j < i ==> rounds@[j].id@ != round_id@;
                if c < k {
                } else if c > k {
                    assert(rounds@[k as int].id@ == round_id@);
                }
            }
            return copy_string(&rounds[k].name);
        }
        k = k + 1;
    }
    String::from_str("Match")
}

/// How many of the tournaments `ts` have status `st`.
pub open spec fn tournaments_with_status(ts: Seq<Tournament>, st: TournamentStatus) -> nat {
    ts.filter(|t: Tournament| t.status == st).len()
}

/// The dashboard's counts of the tournaments `ts`: all of them, those in
/// progress, those completed, and the drafts.
pub fn dashboard_counts(ts: &Vec<Tournament>) -> (r: (usize, usize, usize, usize))
    ensures
        r.0 == ts@.len(),
        r.1 == tournaments_with_status(ts@, TournamentStatus::InProgress),
        r.2 == tournaments_with_status(ts@, TournamentStatus::Completed),
        r.3 == tournaments_with_status(ts@, TournamentStatus::Draft),
{
    let ghost pa = |t: Tournament| t.status == TournamentStatus::InProgress;
    let ghost pc = |t: Tournament| t.status == TournamentStatus::Completed;
    let ghost pd = |t: Tournament| t.status == TournamentStatus::Draft;
    let mut active: usize = 0;
    let mut completed: usize = 0;
    let mut draft: usize = 0;
    let mut k: usize = 0;
    while k < ts.len()
        invariant
            pa == (|t: Tournament| t.status == TournamentStatus::InProgress),
            pc == (|t: Tournament| t.status == TournamentStatus::Completed),
            pd == (|t: Tournament| t.status == TournamentStatus::Draft),
            k <= ts@.len(),
            active == ts@.take(k as int).filter(pa).len(),
            completed == ts@.take(k as int).filter(pc).len(),
            draft == ts@.take(k as int).filter(pd).len(),
            active <= k,
            completed <= k,
            draft <= k,
        decreases ts@.len() - k,
    {
        proof {
            reveal_with_fuel(Seq::filter, 1);
            assert(ts@.take(k + 1).drop_last() =~= ts@.take(k as int));
            ts@.take(k as int).lemma_filter_len(pa);
            ts@.take(k as int).lemma_filter_len(pc);
            ts@.take(k as int).lemma_filter_len(pd);
        }
        match ts[k].status {
            TournamentStatus::InProgress => active = active + 1,
            TournamentStatus::Completed => completed = completed + 1,
            TournamentStatus::Draft => draft = draft + 1,
        }
        k = k + 1;
    }
    assert(ts@.take(k as int) =~= ts@);
    (ts.len(), active, completed, draft)
}

} // verus!
