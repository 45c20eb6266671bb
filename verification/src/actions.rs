use vstd::prelude::*;
use vstd::string::*;
use rand::seq::SliceRandom;
use crate::domain::ids::is_uuid_text;
use crate::domain::participant::Participant;
use crate::domain::tournament::{Tournament, TournamentStatus};
use crate::services::bracket_generator::starts_with;
use crate::store::{
    has_tournament, has_participant, participant_count_in, participant_named, same_name_ignoring_ascii_case, update_participant_rows, update_tournament_rows, TournamentStore,
    same_name_ignoring_ascii_case_exec,
};
use crate::text::{copy_string, i32_value, is_err_with, is_white_space, parse_i32, prefixed, trim, trim_text, white_space};
use crate::domain::match_model::Match;
use crate::services::match_service::{all_settled, score_refusal, scored, swept, MatchService};
use crate::services::tournament_service::TournamentService;
use crate::store::{match_with_id, tournament_matches_in};
use crate::domain::round::Round;
use crate::domain::tournament::{tournament_status_text, TournamentType};
use crate::services::bracket_generator::{cleared_matches, cleared_rounds, elimination_outcome, round_robin_outcome, BracketGeneratorService};
use crate::text::{contains_text, has_substring, lowercase, to_lowercase};

verus! {

// ─── Adding participants ────────────────────────────────────────────────

/// "'name' already exists."
pub open spec fn already_exists_text(name: Seq<char>) -> Seq<char> {
    "'"@ + name + "' already exists."@
}

/// Adds a participant named `raw_name` (trimmed; blank names are refused,
/// and so are names already taken in the tournament, ignoring ASCII case)
/// to tournament `tid` with the next seed after the `current_count`
/// participants shown, then records the tournament's participant count.
pub fn add_participant(store: &mut TournamentStore, tid: &str, raw_name: &str, current_count: usize) -> (r: Result<Participant, String>)
    requires
        old(store).wf(),
        current_count < 0x7fff_ffff,
    ensures
        final(store).wf(),
        trim_text(raw_name@).len() == 0 ==> is_err_with(r, "Name cannot be empty."@) && final(store).same_rows(old(store)),
        trim_text(raw_name@).len() > 0 && participant_named(old(store).participant_rows(), tid@, trim_text(raw_name@))
            ==> is_err_with(r, already_exists_text(trim_text(raw_name@))) && final(store).same_rows(old(store)),
        trim_text(raw_name@).len() > 0 && !participant_named(old(store).participant_rows(), tid@, trim_text(raw_name@)) ==> match r {
            Ok(p) => {
                &&& p.name@ == trim_text(raw_name@)
                &&& p.tournament_id@ == tid@
                &&& p.seed == current_count + 1
                &&& !p.has_logo
                &&& is_uuid_text(p.id@)
                &&& final(store).participant_rows() == old(store).participant_rows().push(p)
                &&& final(store).tournament_rows() == update_tournament_rows(old(store).tournament_rows(), tid@,
                    |t: Tournament| Tournament { participant_count: participant_count_in(old(store).participant_rows().push(p), tid@) as usize, ..t })
                &&& final(store).round_rows() == old(store).round_rows()
                &&& final(store).match_rows() == old(store).match_rows()
            },
            Err(e) => starts_with(e@, "Failed to add: "@) && final(store).same_rows(old(store)),
        },
{
    let name = trim(raw_name);
    if name.as_str().unicode_len() == 0 {
        return Err(String::from_str("Name cannot be empty."));
    }
    match store.participant_exists(tid, name.as_str()) {
        Ok(true) => {
            let msg = String::from_str("'").concat(name.as_str()).concat("' already exists.");
            return Err(msg);
        },
        Ok(false) => {},
        Err(e) => {
            return Err(prefixed("Database error: ", e));
        },
    }
    let seed = current_count as i32 + 1;
    let participant = Participant::new(String::from_str(tid), copy_string(&name), seed);
    proof {
        reveal_strlit("Failed to add: ");
    }
    match store.create_participant(&participant) {
        Ok(()) => {},
        Err(e) => {
            proof {
                assert(("Failed to add: "@ + e@).subrange(0, "Failed to add: "@.len() as int) =~= "Failed to add: "@);
            }
            return Err(prefixed("Failed to add: ", e));
        },
    }
    let count = match store.get_participant_count(tid) {
        Ok(c) => c,
        Err(_) => 0,
    };
    let _ = store.update_tournament_participant_count(tid, count);
    Ok(participant)
}

/// Once a participant is in a tournament, its name is taken there in any
/// ASCII case: adding it again is refused.
pub proof fn lemma_added_name_taken(ps: Seq<Participant>, p: Participant, name: Seq<char>)
    requires
        same_name_ignoring_ascii_case(p.name@, name),
    ensures
        participant_named(ps.push(p), p.tournament_id@, name),
{
    assert(ps.push(p)[ps.len() as int] == p);
}

// ─── Bulk adding ────────────────────────────────────────────────────────

/// The position of the first line break in `s` (its length when there is
/// none).
pub open spec fn newline_at(s: Seq<char>) -> nat
    decreases s.len(),
{
    if s.len() == 0 {
        0
    } else if s[0] == '\n' {
        0
    } else {
        1 + newline_at(s.drop_first())
    }
}

proof fn lemma_newline_at(s: Seq<char>, k: int)
    requires
        0 <= k <= s.len(),
        forall|j: int| 0 <= j < k ==> s[j] != '\n',
        k < s.len() ==> s[k] == '\n',
    ensures
        newline_at(s) == k,
    decreases k,
{
    if k > 0 {
        assert forall|j: int| 0 <= j < k - 1 implies s.drop_first()[j] != '\n' by {
            assert(s.drop_first()[j] == s[j + 1]);
        }
        if k < s.len() {
            assert(s.drop_first()[k - 1] == s[k]);
        }
        lemma_newline_at(s.drop_first(), k - 1);
    }
}

/// The names listed one per line in `text`: each line trimmed, blank lines
/// skipped.
pub open spec fn listed_names(text: Seq<char>) -> Seq<Seq<char>>
    decreases text.len(),
{
    let i = newline_at(text);
    let line = trim_text(text.take(i as int));
    let rest = if i < text.len() {
        listed_names(text.skip(i + 1 as int))
    } else {
        Seq::empty()
    };
    if line.len() > 0 {
        seq![line] + rest
    } else {
        rest
    }
}

/// The names listed one per line in `text`.
pub fn parse_names(text: &str) -> (names: Vec<String>)
    ensures
        names@.map_values(|s: String| s@) == listed_names(text@),
{
    let n = text.unicode_len();
    let mut names: Vec<String> = Vec::new();
    let mut start: usize = 0;
    let mut done = false;
    proof {
        assert(text@.skip(0) =~= text@);
        assert(names@.map_values(|s: String| s@) =~= Seq::<Seq<char>>::empty());
    }
    while !done
        invariant
            n == text@.len(),
            start <= n,
            !done ==> names@.map_values(|s: String| s@) + listed_names(text@.skip(start as int)) == listed_names(text@),
            done ==> names@.map_values(|s: String| s@) == listed_names(text@),
        decreases n - start + if done { 0int } else { 1int },
    {
        let ghost rest = text@.skip(start as int);
        let mut k: usize = start;
        while k < n && text.get_char(k) != '\n'
            invariant
                n == text@.len(),
                start <= k <= n,
                rest == text@.skip(start as int),
                forall|j: int| start <= j < k ==> text@[j] != '\n',
            decreases n - k,
        {
            k = k + 1;
        }
        proof {
            assert forall|j: int| 0 <= j < k - start implies rest[j] != '\n' by {
                assert(rest[j] == text@[start + j]);
            }
            if k < n {
                assert(rest[k - start] == text@[k as int]);
            }
            lemma_newline_at(rest, k - start);
            assert(rest.take(k - start) =~= text@.subrange(start as int, k as int));
            if k < n {
                assert(rest.skip(k - start + 1) =~= text@.skip(k + 1));
            }
        }
        let line = trim(text.substring_char(start, k));
        let ghost before = names@.map_values(|s: String| s@);
        let ghost tail = if k < n { listed_names(text@.skip(k + 1)) } else { Seq::<Seq<char>>::empty() };
        if line.as_str().unicode_len() > 0 {
            names.push(line);
            proof {
                assert(names@.map_values(|s: String| s@) =~= before.push(trim_text(text@.subrange(start as int, k as int))));
                assert(before + listed_names(rest) =~= names@.map_values(|s: String| s@) + tail);
            }
        } else {
            proof {
                assert(before + listed_names(rest) =~= names@.map_values(|s: String| s@) + tail);
            }
        }
        if k < n {
            start = k + 1;
        } else {
            proof {
                assert(names@.map_values(|s: String| s@) + tail =~= names@.map_values(|s: String| s@));
            }
            start = n;
            done = true;
        }
    }
    names
}

/// What bulk-adding the first `k` of `names` to tournament `tid` (which
/// exists when `exists_t`) adds to the participant rows `old`, given the
/// fresh identifier `ids[i]` drawn for name `i`: the names added and their
/// identifiers, in order. A name already taken in the tournament (ignoring
/// ASCII case, counting those just added) is skipped, and so is one whose
/// insertion is refused: when the tournament is missing or its identifier
/// is in use.
pub open spec fn bulk_fold(
    old: Seq<Participant>,
    tid: Seq<char>,
    exists_t: bool,
    names: Seq<Seq<char>>,
    ids: Seq<Seq<char>>,
    k: int,
) -> (Seq<Seq<char>>, Seq<Seq<char>>)
    decreases k,
{
    if k <= 0 {
        (Seq::empty(), Seq::empty())
    } else {
        let prev = bulk_fold(old, tid, exists_t, names, ids, k - 1);
        let name = names[k - 1];
        let taken = participant_named(old, tid, name) || exists|j: int|
            0 <= j < prev.0.len() && same_name_ignoring_ascii_case(#[trigger] prev.0[j], name);
        let id_used = has_participant(old, ids[k - 1]) || prev.1.contains(ids[k - 1]);
        if taken || !exists_t || id_used {
            prev
        } else {
            (prev.0.push(name), prev.1.push(ids[k - 1]))
        }
    }
}

/// `new` is `old` followed by participants of tournament `tid` with the
/// given names and identifiers, seeded from `first_seed` on, without logos.
pub open spec fn appended_participants(
    old: Seq<Participant>,
    new: Seq<Participant>,
    tid: Seq<char>,
    names: Seq<Seq<char>>,
    ids: Seq<Seq<char>>,
    first_seed: int,
) -> bool {
    &&& names.len() == ids.len()
    &&& new.len() == old.len() + names.len()
    &&& forall|i: int| 0 <= i < old.len() ==> #[trigger] new[i] == old[i]
    &&& forall|j: int| 0 <= j < names.len() ==> {
        let p = #[trigger] new[old.len() + j];
        &&& p.id@ == ids[j]
        &&& p.name@ == names[j]
        &&& p.tournament_id@ == tid
        &&& p.seed == first_seed + j
        &&& !p.has_logo
        &&& is_uuid_text(ids[j])
    }
}

proof fn lemma_appended_lookups(
    old: Seq<Participant>,
    new: Seq<Participant>,
    tid: Seq<char>,
    names: Seq<Seq<char>>,
    ids: Seq<Seq<char>>,
    first_seed: int,
    name: Seq<char>,
    id: Seq<char>,
)
    requires
        appended_participants(old, new, tid, names, ids, first_seed),
    ensures
        participant_named(new, tid, name) <==> (participant_named(old, tid, name)
            || exists|j: int| 0 <= j < names.len() && same_name_ignoring_ascii_case(#[trigger] names[j], name)),
        has_participant(new, id) <==> (has_participant(old, id) || ids.contains(id)),
{
    if participant_named(new, tid, name) {
        let i = choose|i: int| 0 <= i < new.len() && #[trigger] new[i].tournament_id@ == tid
            && same_name_ignoring_ascii_case(new[i].name@, name);
        if i < old.len() {
            assert(old[i] == new[i]);
        } else {
            let j = i - old.len();
            assert(new[old.len() + j].name@ == names[j]);
        }
    }
    if participant_named(old, tid, name) {
        let i = choose|i: int| 0 <= i < old.len() && #[trigger] old[i].tournament_id@ == tid
            && same_name_ignoring_ascii_case(old[i].name@, name);
        assert(new[i] == old[i]);
    }
    if exists|j: int| 0 <= j < names.len() && same_name_ignoring_ascii_case(#[trigger] names[j], name) {
        let j = choose|j: int| 0 <= j < names.len() && same_name_ignoring_ascii_case(#[trigger] names[j], name);
        assert(new[old.len() + j].tournament_id@ == tid);
    }
    if has_participant(new, id) {
        let i = choose|i: int| 0 <= i < new.len() && #[trigger] new[i].id@ == id;
        if i < old.len() {
            assert(old[i] == new[i]);
        } else {
            let j = i - old.len();
            assert(new[old.len() + j].id@ == ids[j]);
        }
    }
    if has_participant(old, id) {
        let i = choose|i: int| 0 <= i < old.len() && #[trigger] old[i].id@ == id;
        assert(new[i] == old[i]);
    }
    if ids.contains(id) {
        let j = choose|j: int| 0 <= j < ids.len() && ids[j] == id;
        assert(new[old.len() + j].id@ == ids[j]);
    }
}

/// Adds the participants named one per line in `text` to tournament `tid`,
/// seeded after the `current_count` participants shown: names already
/// taken (ignoring ASCII case) are skipped, and so are names whose insertion
/// is refused; then records the tournament's participant count. Returns how
/// many were added.
pub fn bulk_add_participants(store: &mut TournamentStore, tid: &str, text: &str, current_count: usize) -> (r: Result<usize, String>)
    requires
        old(store).wf(),
        current_count + text@.len() < 0x7fff_ffff,
    ensures
        final(store).wf(),
        listed_names(text@).len() == 0 ==> is_err_with(r, "No names provided."@) && final(store).same_rows(old(store)),
        listed_names(text@).len() > 0 ==> (r matches Ok(added) && exists|ids: Seq<Seq<char>>| #![trigger bulk_fold(old(store).participant_rows(), tid@,
            has_tournament(old(store).tournament_rows(), tid@), listed_names(text@), ids, listed_names(text@).len() as int)] {
            let listed = listed_names(text@);
            let f = bulk_fold(old(store).participant_rows(), tid@, has_tournament(old(store).tournament_rows(), tid@),
                listed, ids, listed.len() as int);
            &&& ids.len() == listed.len()
            &&& added == f.0.len()
            &&& appended_participants(old(store).participant_rows(), final(store).participant_rows(), tid@, f.0, f.1,
                current_count + 1)
            &&& final(store).tournament_rows() == update_tournament_rows(old(store).tournament_rows(), tid@,
                |t: Tournament| Tournament { participant_count: participant_count_in(final(store).participant_rows(), tid@) as usize, ..t })
            &&& final(store).round_rows() == old(store).round_rows()
            &&& final(store).match_rows() == old(store).match_rows()
        }),
{
    let names = parse_names(text);
    let ghost listed = listed_names(text@);
    if names.len() == 0 {
        return Err(String::from_str("No names provided."));
    }
    proof {
        lemma_listed_names_len(text@);
    }
    let ghost pre = *store;
    let ghost exists_t = has_tournament(pre.tournament_rows(), tid@);
    let ghost mut ids: Seq<Seq<char>> = Seq::empty();
    let mut added: usize = 0;
    let mut current_seed: i32 = current_count as i32 + 1;
    let mut k: usize = 0;
    proof {
        assert(appended_participants(pre.participant_rows(), store.participant_rows(), tid@, Seq::empty(), Seq::empty(),
            current_count + 1)) by {
            assert(store.participant_rows().len() == pre.participant_rows().len());
        }
    }
    while k < names.len()
        invariant
            store.wf(),
            listed == names@.map_values(|s: String| s@),
            listed.len() <= text@.len(),
            current_count + text@.len() < 0x7fff_ffff,
            k <= names@.len(),
            ids.len() == k,
            exists_t == has_tournament(pre.tournament_rows(), tid@),
            added == bulk_fold(pre.participant_rows(), tid@, exists_t, listed, ids, k as int).0.len(),
            added <= k,
            current_seed == current_count + 1 + added,
            store.tournament_rows() == pre.tournament_rows(),
            store.round_rows() == pre.round_rows(),
            store.match_rows() == pre.match_rows(),
            appended_participants(pre.participant_rows(), store.participant_rows(), tid@,
                bulk_fold(pre.participant_rows(), tid@, exists_t, listed, ids, k as int).0,
                bulk_fold(pre.participant_rows(), tid@, exists_t, listed, ids, k as int).1, current_count + 1),
        decreases names@.len() - k,
    {
        let ghost f = bulk_fold(pre.participant_rows(), tid@, exists_t, listed, ids, k as int);
        let ghost rows = store.participant_rows();
        assert(listed[k as int] == names@[k as int]@);
        let taken = match store.participant_exists(tid, names[k].as_str()) {
            Ok(b) => b,
            Err(_) => true,
        };
        if !taken {
            let p = Participant::new(String::from_str(tid), copy_string(&names[k]), current_seed);
            proof {
                lemma_appended_lookups(pre.participant_rows(), rows, tid@, f.0, f.1, current_count + 1, listed[k as int], p.id@);
                let ghost old_ids = ids;
                ids = ids.push(p.id@);
                assert(ids.take(ids.len() - 1) =~= old_ids);
                lemma_bulk_fold_prefix(pre.participant_rows(), tid@, exists_t, listed, ids, k as int);
            }
            match store.create_participant(&p) {
                Ok(()) => {
                    proof {
                        let nf = bulk_fold(pre.participant_rows(), tid@, exists_t, listed, ids, k + 1);
                        assert(nf.0 =~= f.0.push(listed[k as int]));
                        assert(nf.1 =~= f.1.push(p.id@));
                        let nrows = store.participant_rows();
                        assert(nrows == rows.push(Participant { has_logo: false, ..p }));
                        assert forall|i: int| 0 <= i < pre.participant_rows().len() implies #[trigger] nrows[i]
                            == pre.participant_rows()[i] by {
                            assert(nrows[i] == rows[i]);
                        }
                        assert forall|j: int| 0 <= j < nf.0.len() implies {
                            let q = #[trigger] nrows[pre.participant_rows().len() + j];
                            &&& q.id@ == nf.1[j]
                            &&& q.name@ == nf.0[j]
                            &&& q.tournament_id@ == tid@
                            &&& q.seed == current_count + 1 + j
                            &&& !q.has_logo
                            &&& is_uuid_text(nf.1[j])
                        } by {
                            if j < f.0.len() {
                                assert(nrows[pre.participant_rows().len() + j] == rows[pre.participant_rows().len() + j]);
                            }
                        }
                    }
                    added = added + 1;
                    current_seed = current_seed + 1;
                },
                Err(_) => {
                    proof {
                        let nf = bulk_fold(pre.participant_rows(), tid@, exists_t, listed, ids, k + 1);
                        assert(nf == f);
                    }
                },
            }
        } else {
            proof {
                lemma_appended_lookups(pre.participant_rows(), rows, tid@, f.0, f.1, current_count + 1, listed[k as int],
                    Seq::empty());
                let ghost old_ids = ids;
                ids = ids.push(Seq::empty());
                assert(ids.take(ids.len() - 1) =~= old_ids);
                lemma_bulk_fold_prefix(pre.participant_rows(), tid@, exists_t, listed, ids, k as int);
                let nf = bulk_fold(pre.participant_rows(), tid@, exists_t, listed, ids, k + 1);
                assert(nf == f);
            }
        }
        k = k + 1;
    }
    let count = match store.get_participant_count(tid) {
        Ok(c) => c,
        Err(_) => 0,
    };
    let _ = store.update_tournament_participant_count(tid, count);
    Ok(added)
}

/// The fold over the first `k` names reads only the first `k` identifiers.
proof fn lemma_bulk_fold_prefix(
    old: Seq<Participant>,
    tid: Seq<char>,
    exists_t: bool,
    names: Seq<Seq<char>>,
    ids: Seq<Seq<char>>,
    k: int,
)
    requires
        0 <= k < ids.len(),
    ensures
        bulk_fold(old, tid, exists_t, names, ids, k) == bulk_fold(old, tid, exists_t, names, ids.take(ids.len() - 1), k),
    decreases k,
{
    if k > 0 {
        lemma_bulk_fold_prefix(old, tid, exists_t, names, ids, k - 1);
        assert(ids.take(ids.len() - 1)[k - 1] == ids[k - 1]);
    }
}

/// A text lists no more names than it has characters.
proof fn lemma_listed_names_len(text: Seq<char>)
    ensures
        listed_names(text).len() <= text.len(),
    decreases text.len(),
{
    let i = newline_at(text);
    lemma_newline_at_bound(text);
    if i < text.len() {
        lemma_listed_names_len(text.skip(i + 1 as int));
    }
}

proof fn lemma_newline_at_bound(s: Seq<char>)
    ensures
        newline_at(s) <= s.len(),
        newline_at(s) < s.len() ==> s[newline_at(s) as int] == '\n',
    decreases s.len(),
{
    if s.len() > 0 && s[0] != '\n' {
        lemma_newline_at_bound(s.drop_first());
    }
}

// ─── Reordering seeds ───────────────────────────────────────────────────

/// The participant rows after giving the first `k` entries of `order` the
/// seeds 1, 2, ...: each entry whose seed differs is rewritten (name and
/// seed) by identifier.
pub open spec fn reseeded(rows: Seq<Participant>, order: Seq<Participant>, k: int) -> Seq<Participant>
    decreases k,
{
    if k <= 0 {
        rows
    } else {
        let prev = reseeded(rows, order, k - 1);
        let p = order[k - 1];
        if p.seed != k {
            update_participant_rows(prev, p.id@, |x: Participant| Participant { name: p.name, seed: k as i32, ..x })
        } else {
            prev
        }
    }
}

/// `ps` with the entry at `from` moved to `to`.
pub open spec fn moved(ps: Seq<Participant>, from: int, to: int) -> Seq<Participant> {
    ps.remove(from).insert(to, ps[from])
}

/// The entries of `order` carry distinct identifiers.
pub open spec fn ids_distinct(order: Seq<Participant>) -> bool {
    forall|a: int, b: int| 0 <= a < b < order.len() ==> #[trigger] order[a].id@ != #[trigger] order[b].id@
}

/// Every row carrying the identifier of an entry of `order` has that
/// entry's seed: the list shows the stored seeds.
pub open spec fn seeds_shown(rows: Seq<Participant>, order: Seq<Participant>) -> bool {
    forall|r: int, k: int| 0 <= r < rows.len() && 0 <= k < order.len() && #[trigger] rows[r].id@ == #[trigger] order[k].id@
        ==> rows[r].seed == order[k].seed
}

/// Reseeding by `order` gives the row of the `k`-th entry the seed `k+1`,
/// keeps every row's identifier, and leaves rows of no entry alone.
proof fn lemma_reseeded_seeds(rows: Seq<Participant>, order: Seq<Participant>, n: int)
    requires
        0 <= n <= order.len(),
        n < 0x7fff_ffff,
        ids_distinct(order),
        seeds_shown(rows, order),
    ensures
        reseeded(rows, order, n).len() == rows.len(),
        forall|r: int| 0 <= r < rows.len() ==> #[trigger] reseeded(rows, order, n)[r].id == rows[r].id,
        forall|r: int, k: int| 0 <= r < rows.len() && 0 <= k < n && #[trigger] rows[r].id@ == #[trigger] order[k].id@
            ==> reseeded(rows, order, n)[r].seed == k + 1,
        forall|r: int| 0 <= r < rows.len() && (forall|k: int| 0 <= k < n ==> #[trigger] order[k].id@ != rows[r].id@)
            ==> #[trigger] reseeded(rows, order, n)[r] == rows[r],
    decreases n,
{
    if n > 0 {
        lemma_reseeded_seeds(rows, order, n - 1);
        let prev = reseeded(rows, order, n - 1);
        let p = order[n - 1];
        let res = reseeded(rows, order, n);
        assert forall|r: int| 0 <= r < rows.len() implies #[trigger] res[r].id == rows[r].id by {
            assert(prev[r].id == rows[r].id);
        }
        assert forall|r: int, k: int| 0 <= r < rows.len() && 0 <= k < n && #[trigger] rows[r].id@ == #[trigger] order[k].id@
            implies res[r].seed == k + 1 by {
            assert(prev[r].id == rows[r].id);
            if k < n - 1 {
                assert(order[k].id@ != order[n - 1].id@);
                assert(prev[r].seed == k + 1);
                if p.seed != n {
                    assert(res[r] == prev[r]);
                } else {
                    assert(res == prev);
                }
            } else if p.seed != n {
                assert(prev[r].id@ == p.id@);
                assert(res[r].seed == n);
            } else {
                assert forall|j: int| 0 <= j < n - 1 implies #[trigger] order[j].id@ != rows[r].id@ by {
                    assert(order[j].id@ != order[n - 1].id@);
                }
                assert(prev[r] == rows[r]);
            }
        }
        assert forall|r: int| 0 <= r < rows.len() && (forall|k: int| 0 <= k < n ==> #[trigger] order[k].id@ != rows[r].id@)
            implies #[trigger] res[r] == rows[r] by {
            assert(order[n - 1].id@ != rows[r].id@);
            assert(forall|k: int| 0 <= k < n - 1 ==> #[trigger] order[k].id@ != rows[r].id@);
            assert(prev[r] == rows[r]);
        }
    }
}

/// Where entry `i` of `ps` stands once the entry at `from` is moved to `to`.
pub open spec fn moved_position(from: int, to: int, i: int) -> int {
    if i == from {
        to
    } else {
        let q = if i < from { i } else { i - 1 };
        if q < to { q } else { q + 1 }
    }
}

/// Which entry of `ps` stands at `t` once the entry at `from` is moved to
/// `to`.
pub open spec fn moved_source(from: int, to: int, t: int) -> int {
    if t == to {
        from
    } else {
        let q = if t < to { t } else { t - 1 };
        if q < from { q } else { q + 1 }
    }
}

proof fn lemma_moved_positions(ps: Seq<Participant>, from: int, to: int)
    requires
        0 <= from < ps.len(),
        0 <= to < ps.len(),
    ensures
        moved(ps, from, to).len() == ps.len(),
        forall|i: int| 0 <= i < ps.len() ==> 0 <= #[trigger] moved_position(from, to, i) < ps.len()
            && moved(ps, from, to)[moved_position(from, to, i)] == ps[i],
        forall|t: int| 0 <= t < ps.len() ==> 0 <= #[trigger] moved_source(from, to, t) < ps.len()
            && moved_position(from, to, moved_source(from, to, t)) == t,
{
    let mv = moved(ps, from, to);
    let q = ps.remove(from);
    assert forall|i: int| 0 <= i < ps.len() implies 0 <= #[trigger] moved_position(from, to, i) < ps.len()
        && mv[moved_position(from, to, i)] == ps[i] by {
        if i != from {
            let qi = if i < from { i } else { i - 1 };
            assert(q[qi] == ps[i]);
        }
    }
}

/// Moving the entry at `from` to `to` and renumbering the seeds gives the
/// moved participant the seed `to + 1`, and keeps every other participant
/// in the order it had: of two others, the one listed first keeps the
/// lower seed.
pub proof fn lemma_move_keeps_order(rows: Seq<Participant>, ps: Seq<Participant>, from: int, to: int, after: Seq<Participant>)
    requires
        0 <= from < ps.len() < 0x7fff_ffff,
        0 <= to < ps.len(),
        ids_distinct(ps),
        seeds_shown(rows, ps),
        after == reseeded(rows, moved(ps, from, to), ps.len() as int),
    ensures
        after.len() == rows.len(),
        forall|r: int| 0 <= r < rows.len() ==> #[trigger] after[r].id == rows[r].id,
        forall|r: int| 0 <= r < after.len() && #[trigger] after[r].id@ == ps[from].id@ ==> after[r].seed == to + 1,
        forall|r1: int, r2: int, i: int, j: int|
            0 <= r1 < after.len() && 0 <= r2 < after.len() && 0 <= i < j < ps.len() && i != from && j != from
            && #[trigger] after[r1].id@ == #[trigger] ps[i].id@ && #[trigger] after[r2].id@ == #[trigger] ps[j].id@
            ==> after[r1].seed < after[r2].seed,
{
    let mv = moved(ps, from, to);
    lemma_moved_positions(ps, from, to);
    assert(ids_distinct(mv)) by {
        assert forall|a: int, b: int| 0 <= a < b < mv.len() implies #[trigger] mv[a].id@ != #[trigger] mv[b].id@ by {
            let ia = moved_source(from, to, a);
            let ib = moved_source(from, to, b);
            assert(mv[a] == ps[ia] && mv[b] == ps[ib]);
            assert(ia != ib);
            if ia < ib {
                assert(ps[ia].id@ != ps[ib].id@);
            } else {
                assert(ps[ib].id@ != ps[ia].id@);
            }
        }
    }
    assert(seeds_shown(rows, mv)) by {
        assert forall|r: int, k: int| 0 <= r < rows.len() && 0 <= k < mv.len() && #[trigger] rows[r].id@ == #[trigger] mv[k].id@
            implies rows[r].seed == mv[k].seed by {
            let i = moved_source(from, to, k);
            assert(mv[k] == ps[i]);
        }
    }
    lemma_reseeded_seeds(rows, mv, ps.len() as int);
    assert forall|r: int| 0 <= r < after.len() && #[trigger] after[r].id@ == ps[from].id@ implies after[r].seed == to + 1 by {
        assert(moved_position(from, to, from) == to);
        assert(mv[to] == ps[from]);
        assert(rows[r].id == after[r].id);
        assert(rows[r].id@ == mv[to].id@);
    }
    assert forall|r1: int, r2: int, i: int, j: int|
        0 <= r1 < after.len() && 0 <= r2 < after.len() && 0 <= i < j < ps.len() && i != from && j != from
        && #[trigger] after[r1].id@ == #[trigger] ps[i].id@ && #[trigger] after[r2].id@ == #[trigger] ps[j].id@
        implies after[r1].seed < after[r2].seed by {
        let pi = moved_position(from, to, i);
        let pj = moved_position(from, to, j);
        assert(mv[pi] == ps[i] && mv[pj] == ps[j]);
        assert(rows[r1].id == after[r1].id && rows[r2].id == after[r2].id);
        assert(rows[r1].id@ == mv[pi].id@);
        assert(rows[r2].id@ == mv[pj].id@);
        assert(pi < pj);
    }
}

/// Moves the participant at `from` in the list `participants` to `to` and
/// renumbers the seeds in list order (only changed seeds are written).
/// Nothing happens for equal or out-of-range positions.
pub fn move_participant_to(store: &mut TournamentStore, participants: &Vec<Participant>, from_idx: usize, to_idx: usize)
    requires
        old(store).wf(),
        participants@.len() < 0x7fff_ffff,
    ensures
        final(store).wf(),
        from_idx == to_idx || from_idx >= participants@.len() || to_idx >= participants@.len() ==> final(store).same_rows(old(store)),
        !(from_idx == to_idx || from_idx >= participants@.len() || to_idx >= participants@.len()) ==> {
            &&& final(store).participant_rows() == reseeded(old(store).participant_rows(),
                moved(participants@, from_idx as int, to_idx as int), participants@.len() as int)
            &&& final(store).same_but_participants(old(store))
        },
{
    if from_idx == to_idx || from_idx >= participants.len() || to_idx >= participants.len() {
        return;
    }
    let mut new_order: Vec<Participant> = Vec::new();
    let mut i: usize = 0;
    while i < participants.len()
        invariant
            i <= participants@.len(),
            new_order@ == participants@.take(i as int),
        decreases participants@.len() - i,
    {
        new_order.push(participants[i].clone());
        proof {
            assert(participants@.take(i + 1) =~= participants@.take(i as int).push(participants@[i as int]));
        }
        i = i + 1;
    }
    proof {
        assert(participants@.take(participants@.len() as int) =~= participants@);
    }
    let item = new_order.remove(from_idx);
    new_order.insert(to_idx, item);
    proof {
        assert(new_order@ =~= moved(participants@, from_idx as int, to_idx as int));
    }
    apply_seeds(store, &new_order);
}

/// Gives the entries of `order` the seeds 1, 2, ... in turn, writing only
/// changed seeds.
fn apply_seeds(store: &mut TournamentStore, order: &Vec<Participant>)
    requires
        old(store).wf(),
        order@.len() < 0x7fff_ffff,
    ensures
        final(store).wf(),
        final(store).participant_rows() == reseeded(old(store).participant_rows(), order@, order@.len() as int),
        final(store).same_but_participants(old(store)),
{
    let ghost pre = *store;
    let mut i: usize = 0;
    while i < order.len()
        invariant
            store.wf(),
            order@.len() < 0x7fff_ffff,
            i <= order@.len(),
            store.participant_rows() == reseeded(pre.participant_rows(), order@, i as int),
            store.same_but_participants(&pre),
        decreases order@.len() - i,
    {
        let new_seed = (i + 1) as i32;
        let p = &order[i];
        if p.seed != new_seed {
            let _ = store.put_participant(p.id.as_str(), &p.name, new_seed);
        }
        i = i + 1;
    }
}

/// Moves the participant at `idx` one place up.
pub fn move_participant_up(store: &mut TournamentStore, participants: &Vec<Participant>, idx: usize)
    requires
        old(store).wf(),
        participants@.len() < 0x7fff_ffff,
    ensures
        final(store).wf(),
        idx == 0 || idx >= participants@.len() ==> final(store).same_rows(old(store)),
        !(idx == 0 || idx >= participants@.len()) ==> {
            &&& final(store).participant_rows() == reseeded(old(store).participant_rows(),
                moved(participants@, idx as int, idx - 1), participants@.len() as int)
            &&& final(store).same_but_participants(old(store))
        },
{
    if idx == 0 || idx >= participants.len() {
        return;
    }
    move_participant_to(store, participants, idx, idx - 1);
}

/// Moves the participant at `idx` one place down.
pub fn move_participant_down(store: &mut TournamentStore, participants: &Vec<Participant>, idx: usize)
    requires
        old(store).wf(),
        participants@.len() < 0x7fff_ffff,
    ensures
        final(store).wf(),
        idx + 1 >= participants@.len() ==> final(store).same_rows(old(store)),
        idx + 1 < participants@.len() ==> {
            &&& final(store).participant_rows() == reseeded(old(store).participant_rows(),
                moved(participants@, idx as int, idx + 1), participants@.len() as int)
            &&& final(store).same_but_participants(old(store))
        },
{
    if idx >= participants.len() || idx + 1 >= participants.len() {
        return;
    }
    move_participant_to(store, participants, idx, idx + 1);
}


// ─── Scoring a match ────────────────────────────────────────────────────

/// The match rows once match `mid` is scored `s1`–`s2` and the BYEs this
/// uncovers are resolved.
pub open spec fn rows_after_score(rs: Seq<crate::domain::round::Round>, ms: Seq<Match>, mid: Seq<char>, s1: i32, s2: i32, rows: Seq<Match>) -> bool {
    let m = match_with_id(ms, mid)->Some_0;
    exists|bye_id: String, bye_name: String| bye_id@ == "BYE_ID"@ && bye_name@ == "BYE"@
        && rows == swept(rs, scored(ms, mid, m, s1, s2), m.tournament_id@, bye_id, bye_name)
}

/// Submits the score typed for the selected match `match_id` (each score
/// trimmed and read as an `i32`), then, when every match of the open
/// tournament `tournament_id` is completed or a BYE, marks it completed.
/// Returns whether the tournament was marked completed.
pub fn submit_match_score(
    store: &mut TournamentStore,
    tournament_id: Option<&str>,
    match_id: &str,
    score1_text: &str,
    score2_text: &str,
) -> (r: Result<bool, String>)
    requires
        old(store).wf(),
    ensures
        final(store).wf(),
        i32_value(trim_text(score1_text@)) is None ==> is_err_with(r, "Invalid score for Player 1."@) && final(store).same_rows(old(store)),
        i32_value(trim_text(score1_text@)) is Some && i32_value(trim_text(score2_text@)) is None
            ==> is_err_with(r, "Invalid score for Player 2."@) && final(store).same_rows(old(store)),
        i32_value(trim_text(score1_text@)) matches Some(s1) ==> i32_value(trim_text(score2_text@)) matches Some(s2) ==> {
            let refusal = score_refusal(old(store).match_rows(), old(store).tournament_rows(), match_id@, s1, s2);
            &&& refusal matches Some(msg) ==> is_err_with(r, msg) && final(store).same_rows(old(store))
            &&& refusal is None ==> {
                let done = match tournament_id {
                    Some(tid) => all_settled(tournament_matches_in(final(store).round_rows(), final(store).match_rows(), tid@)),
                    None => false,
                };
                &&& r == Ok::<bool, String>(done)
                &&& rows_after_score(old(store).round_rows(), old(store).match_rows(), match_id@, s1, s2, final(store).match_rows())
                &&& final(store).participant_rows() == old(store).participant_rows()
                &&& final(store).round_rows() == old(store).round_rows()
                &&& done ==> final(store).tournament_rows() == update_tournament_rows(old(store).tournament_rows(), tournament_id->Some_0@,
                    |t: Tournament| Tournament { status: TournamentStatus::Completed, ..t })
                &&& !done ==> final(store).tournament_rows() == old(store).tournament_rows()
            }
        },
{
    let s1 = match parse_i32(trim(score1_text).as_str()) {
        Some(v) => v,
        None => {
            return Err(String::from_str("Invalid score for Player 1."));
        },
    };
    let s2 = match parse_i32(trim(score2_text).as_str()) {
        Some(v) => v,
        None => {
            return Err(String::from_str("Invalid score for Player 2."));
        },
    };
    let service = MatchService::new();
    service.submit_score(store, match_id, s1, s2)?;
    let mut done = false;
    match tournament_id {
        Some(tid) => {
            match service.is_tournament_complete(store, tid) {
                Ok(true) => {
                    let _ = TournamentService::new().update_status(store, tid, TournamentStatus::Completed);
                    done = true;
                },
                _ => {},
            }
        },
        None => {},
    }
    Ok(done)
}

// ─── Generating the bracket ─────────────────────────────────────────────

/// What the bracket generator leaves for a tournament of type `tt`.
pub open spec fn bracket_outcome(
    pre: TournamentStore,
    post: TournamentStore,
    tid: Seq<char>,
    ps: Seq<Participant>,
    tt: TournamentType,
    r: Result<(Vec<Round>, Vec<Match>), String>,
) -> bool {
    if tt == TournamentType::RoundRobin {
        round_robin_outcome(pre, post, tid, ps, r)
    } else {
        elimination_outcome(pre, post, tid, ps, tt == TournamentType::DoubleElimination, r)
    }
}

/// Generates the bracket of tournament `tid` for its `participants` and,
/// once it is built, marks the tournament in progress.
pub fn generate_bracket(store: &mut TournamentStore, tid: &str, participants: &Vec<Participant>, tournament_type: &TournamentType)
    -> (r: Result<(Vec<Round>, Vec<Match>), String>)
    requires
        old(store).wf(),
        participants@.len() <= 0x4000_0000,
        *tournament_type == TournamentType::RoundRobin ==> participants@.len() <= 0x10000,
    ensures
        final(store).wf(),
        exists|mid: TournamentStore| {
            &&& #[trigger] bracket_outcome(*old(store), mid, tid@, participants@, *tournament_type, r)
            &&& final(store).same_but_tournaments(&mid)
            &&& r is Ok ==> final(store).tournament_rows() == update_tournament_rows(mid.tournament_rows(), tid@,
                |t: Tournament| Tournament { status: TournamentStatus::InProgress, ..t })
            &&& r is Err ==> final(store).tournament_rows() == mid.tournament_rows()
        },
{
    let r = BracketGeneratorService::new().generate_bracket(store, tid, participants, tournament_type);
    let ghost mid = *store;
    if r.is_ok() {
        let _ = TournamentService::new().update_status(store, tid, TournamentStatus::InProgress);
    }
    proof {
        assert(bracket_outcome(*old(store), mid, tid@, participants@, *tournament_type, r));
    }
    r
}

// ─── Random seeding ─────────────────────────────────────────────────────

/// `rand::seq::SliceRandom::shuffle` on `order`, drawing from
/// `rand::thread_rng()`. Which order comes out is left to chance: all that
/// is claimed is that it holds the same entries as before.
#[verifier::external_body]
fn shuffle_in_place(order: &mut Vec<usize>)
    ensures
        final(order)@.to_multiset() == old(order)@.to_multiset(),
{
    let mut rng = rand::thread_rng();
    order.shuffle(&mut rng);
}

/// The indices 0, 1, ..., n - 1.
pub open spec fn index_range(n: nat) -> Seq<usize> {
    Seq::new(n, |i: int| i as usize)
}

/// The participant rows after giving `ps[order[j]]` the seed `j + 1` (and
/// its shown name) for each `j < k` in turn.
pub open spec fn seeded_in_order(rows: Seq<Participant>, ps: Seq<Participant>, order: Seq<usize>, k: int) -> Seq<Participant>
    decreases k,
{
    if k <= 0 {
        rows
    } else {
        let p = ps[order[k - 1] as int];
        update_participant_rows(seeded_in_order(rows, ps, order, k - 1), p.id@,
            |x: Participant| Participant { name: p.name, seed: k as i32, ..x })
    }
}

/// Gives `participants[order[j]]` the seed `j + 1` for each `j`.
pub fn apply_seed_order(store: &mut TournamentStore, participants: &Vec<Participant>, order: &Vec<usize>)
    requires
        old(store).wf(),
        order@.len() < 0x7fff_ffff,
        forall|j: int| 0 <= j < order@.len() ==> #[trigger] order@[j] < participants@.len(),
    ensures
        final(store).wf(),
        final(store).participant_rows() == seeded_in_order(old(store).participant_rows(), participants@, order@, order@.len() as int),
        final(store).same_but_participants(old(store)),
{
    let ghost pre = *store;
    let mut j: usize = 0;
    while j < order.len()
        invariant
            store.wf(),
            order@.len() < 0x7fff_ffff,
            forall|i: int| 0 <= i < order@.len() ==> #[trigger] order@[i] < participants@.len(),
            j <= order@.len(),
            store.participant_rows() == seeded_in_order(pre.participant_rows(), participants@, order@, j as int),
            store.same_but_participants(&pre),
        decreases order@.len() - j,
    {
        let p = &participants[order[j]];
        let _ = store.put_participant(p.id.as_str(), &p.name, (j + 1) as i32);
        j = j + 1;
    }
}

/// Gives the `participants` the seeds 1 to n in a random order.
pub fn auto_seed_participants(store: &mut TournamentStore, participants: &Vec<Participant>)
    requires
        old(store).wf(),
        participants@.len() < 0x7fff_ffff,
    ensures
        final(store).wf(),
        final(store).same_but_participants(old(store)),
        exists|order: Seq<usize>| {
            &&& order.to_multiset() == index_range(participants@.len()).to_multiset()
            &&& final(store).participant_rows() == #[trigger] seeded_in_order(old(store).participant_rows(), participants@, order,
                participants@.len() as int)
        },
{
    let n = participants.len();
    let mut order: Vec<usize> = Vec::new();
    let mut i: usize = 0;
    while i < n
        invariant
            n == participants@.len(),
            i <= n,
            order@ == index_range(i as nat),
        decreases n - i,
    {
        order.push(i);
        proof {
            assert(order@ =~= index_range((i + 1) as nat));
        }
        i = i + 1;
    }
    let ghost range = order@;
    shuffle_in_place(&mut order);
    proof {
        broadcast use vstd::seq_lib::group_to_multiset_ensures;
        assert(order@.to_multiset().len() == range.to_multiset().len());
        assert forall|j: int| 0 <= j < order@.len() implies #[trigger] order@[j] < participants@.len() by {
            let x = order@[j];
            assert(order@.contains(x));
            assert(range.to_multiset().count(x) > 0);
            assert(range.contains(x));
        }
    }
    apply_seed_order(store, participants, &order);
}

// ─── Searching the dashboard ────────────────────────────────────────────

/// Whether a tournament with the given (lowercased) name, game and status
/// text is shown for the (lowercased) query `q`.
pub open spec fn query_matches(q: Seq<char>, name: Seq<char>, game: Seq<char>, status: Seq<char>) -> bool {
    q.len() == 0 || contains_text(name, q) || contains_text(game, q) || contains_text(status, q)
}

/// Whether the lowercased query `q` selects the tournament whose
/// lowercased name, game and status text are given.
pub fn matches_query(q: &str, name: &str, game: &str, status: &str) -> (r: bool)
    ensures
        r == query_matches(q@, name@, game@, status@),
{
    q.unicode_len() == 0 || has_substring(name, q) || has_substring(game, q) || has_substring(status, q)
}

/// Whether tournament `t` is shown for the search text `query`, compared
/// without regard to case.
pub open spec fn tournament_shown(t: Tournament, query: Seq<char>) -> bool {
    query_matches(lowercase(query), lowercase(t.name@), lowercase(t.game_name@), lowercase(tournament_status_text(t.status)))
}

/// The positions, in order, of the first `k` tournaments that are shown
/// for `query`.
pub open spec fn shown_indices(ts: Seq<Tournament>, query: Seq<char>, k: int) -> Seq<usize>
    decreases k,
{
    if k <= 0 {
        Seq::empty()
    } else if tournament_shown(ts[k - 1], query) {
        shown_indices(ts, query, k - 1).push((k - 1) as usize)
    } else {
        shown_indices(ts, query, k - 1)
    }
}

/// The positions of the tournaments whose name, game or status contains
/// the search text (ignoring case); all of them for an empty search.
pub fn filtered_tournaments(tournaments: &Vec<Tournament>, search_query: &str) -> (r: Vec<usize>)
    ensures
        r@ == shown_indices(tournaments@, search_query@, tournaments@.len() as int),
{
    let query = to_lowercase(search_query);
    let mut shown: Vec<usize> = Vec::new();
    let mut i: usize = 0;
    while i < tournaments.len()
        invariant
            i <= tournaments@.len(),
            query@ == lowercase(search_query@),
            shown@ == shown_indices(tournaments@, search_query@, i as int),
        decreases tournaments@.len() - i,
    {
        let t = &tournaments[i];
        let name = to_lowercase(t.name.as_str());
        let game = to_lowercase(t.game_name.as_str());
        let status = to_lowercase(t.status.as_str());
        if matches_query(query.as_str(), name.as_str(), game.as_str(), status.as_str()) {
            shown.push(i);
        }
        i = i + 1;
    }
    shown
}

// ─── Small helpers ──────────────────────────────────────────────────────

/// Whether the open tournament (if any) is still a draft.
pub fn is_draft(active: &Option<Tournament>) -> (r: bool)
    ensures
        r == (active matches Some(t) && t.status == TournamentStatus::Draft),
{
    match active {
        Some(t) => t.status == TournamentStatus::Draft,
        None => false,
    }
}

/// Deletes the tournament at position `idx` of the dashboard list (nothing
/// happens for a position past its end).
pub fn delete_tournament_at(store: &mut TournamentStore, tournaments: &Vec<Tournament>, idx: usize) -> (r: Result<(), String>)
    requires
        old(store).wf(),
    ensures
        final(store).wf(),
        idx >= tournaments@.len() ==> r is Ok && final(store).same_rows(old(store)),
        idx < tournaments@.len() ==> {
            &&& r is Ok
            &&& final(store).tournament_rows() == old(store).tournament_rows().filter(
                |t: Tournament| t.id@ != tournaments@[idx as int].id@)
            &&& final(store).participant_rows() == old(store).participant_rows().filter(
                |p: Participant| p.tournament_id@ != tournaments@[idx as int].id@)
            &&& final(store).round_rows() == cleared_rounds(old(store).round_rows(), tournaments@[idx as int].id@)
            &&& final(store).match_rows() == cleared_matches(old(store).round_rows(), old(store).match_rows(),
                tournaments@[idx as int].id@)
        },
{
    if idx >= tournaments.len() {
        return Ok(());
    }
    TournamentService::new().delete_tournament(store, tournaments[idx].id.as_str())
}

// ─── Global roster entries ──────────────────────────────────────────────

/// Some of the names `names` equals `name` ignoring ASCII case.
pub open spec fn name_taken(names: Seq<String>, name: Seq<char>) -> bool {
    exists|i: int| 0 <= i < names.len() && same_name_ignoring_ascii_case(#[trigger] names[i]@, name)
}

/// Checks a new game's name: trimmed, not blank, and not the name of a game
/// already listed (ignoring ASCII case). Returns the trimmed name.
pub fn game_entry(raw_name: &str, existing: &Vec<String>) -> (r: Result<String, String>)
    ensures
        trim_text(raw_name@).len() == 0 ==> is_err_with(r, "Game name cannot be empty"@),
        trim_text(raw_name@).len() > 0 && name_taken(existing@, trim_text(raw_name@)) ==> is_err_with(r, "Game already exists"@),
        trim_text(raw_name@).len() > 0 && !name_taken(existing@, trim_text(raw_name@))
            ==> (r matches Ok(name) && name@ == trim_text(raw_name@)),
{
    let name = trim(raw_name);
    if name.as_str().unicode_len() == 0 {
        return Err(String::from_str("Game name cannot be empty"));
    }
    let mut k: usize = 0;
    while k < existing.len()
        invariant
            k <= existing@.len(),
            name@ == trim_text(raw_name@),
            name@.len() > 0,
            forall|i: int| 0 <= i < k ==> !same_name_ignoring_ascii_case(#[trigger] existing@[i]@, name@),
        decreases existing@.len() - k,
    {
        if same_name_ignoring_ascii_case_exec(existing[k].as_str(), name.as_str()) {
            return Err(String::from_str("Game already exists"));
        }
        k = k + 1;
    }
    Ok(name)
}

/// Checks a new roster team: its trimmed name must not be blank and a game
/// must be chosen. Returns the trimmed name and game.
pub fn roster_entry(raw_name: &str, raw_game: &str) -> (r: Result<(String, String), String>)
    ensures
        trim_text(raw_name@).len() == 0 ==> is_err_with(r, "Name cannot be empty"@),
        trim_text(raw_name@).len() > 0 && trim_text(raw_game@).len() == 0 ==> is_err_with(r, "Game must be selected"@),
        trim_text(raw_name@).len() > 0 && trim_text(raw_game@).len() > 0
            ==> (r matches Ok((name, game)) && name@ == trim_text(raw_name@) && game@ == trim_text(raw_game@)),
{
    let name = trim(raw_name);
    let game = trim(raw_game);
    if name.as_str().unicode_len() == 0 {
        Err(String::from_str("Name cannot be empty"))
    } else if game.as_str().unicode_len() == 0 {
        Err(String::from_str("Game must be selected"))
    } else {
        Ok((name, game))
    }
}

/// Checks a new roster member's name: trimmed and not blank.
pub fn member_entry(raw_name: &str) -> (r: Result<String, String>)
    ensures
        trim_text(raw_name@).len() == 0 ==> is_err_with(r, "Member name cannot be empty"@),
        trim_text(raw_name@).len() > 0 ==> (r matches Ok(name) && name@ == trim_text(raw_name@)),
{
    let name = trim(raw_name);
    if name.as_str().unicode_len() == 0 {
        Err(String::from_str("Member name cannot be empty"))
    } else {
        Ok(name)
    }
}

} // verus!
