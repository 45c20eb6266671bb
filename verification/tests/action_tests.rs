use tourvia::actions::{
    add_participant, auto_seed_participants, bulk_add_participants, delete_tournament_at, filtered_tournaments, game_entry, is_draft,
    matches_query, member_entry, roster_entry, move_participant_down, move_participant_to, move_participant_up, parse_names,
};
use tourvia::domain::participant::Participant;
use tourvia::domain::tournament::{Tournament, TournamentStatus, TournamentType};
use tourvia::services::tournament_service::TournamentService;
use tourvia::store::TournamentStore;

fn cup(store: &mut TournamentStore, name: &str, game: &str) -> Tournament {
    TournamentService::new().create_tournament(store, name, TournamentType::SingleElimination, "", game).unwrap()
}

fn roster(store: &TournamentStore, tid: &str) -> Vec<(String, i32)> {
    store.get_participants_by_tournament(tid).unwrap().into_iter().map(|p| (p.name, p.seed)).collect()
}

fn listed(store: &TournamentStore, tid: &str) -> Vec<Participant> {
    store.get_participants_by_tournament(tid).unwrap()
}

#[test]
fn adding_participants_seeds_them_in_turn() {
    let mut store = TournamentStore::new();
    let t = cup(&mut store, "Cup", "");
    let p = add_participant(&mut store, &t.id, "  Alpha ", 0).unwrap();
    assert_eq!((p.name.as_str(), p.seed, p.has_logo), ("Alpha", 1, false));
    add_participant(&mut store, &t.id, "Beta", 1).unwrap();
    assert_eq!(roster(&store, &t.id), vec![("Alpha".to_string(), 1), ("Beta".to_string(), 2)]);
    assert_eq!(store.get_tournament(&t.id).unwrap().unwrap().participant_count, 2);
}

#[test]
fn adding_refuses_blank_and_taken_names() {
    let mut store = TournamentStore::new();
    let t = cup(&mut store, "Cup", "");
    assert_eq!(add_participant(&mut store, &t.id, "   ", 0).unwrap_err(), "Name cannot be empty.");
    add_participant(&mut store, &t.id, "Alpha", 0).unwrap();
    assert_eq!(add_participant(&mut store, &t.id, " ALPHA", 1).unwrap_err(), "'ALPHA' already exists.");
    let other = cup(&mut store, "Other", "");
    assert!(add_participant(&mut store, &other.id, "alpha", 0).is_ok());
    assert_eq!(roster(&store, &t.id).len(), 1);
}

#[test]
fn names_are_read_one_per_line() {
    assert_eq!(parse_names("  a \n\n b\r\n  \nc"), vec!["a", "b", "c"]);
    assert!(parse_names(" \n \t ").is_empty());
    assert_eq!(parse_names("solo"), vec!["solo"]);
}

#[test]
fn bulk_adding_skips_taken_names() {
    let mut store = TournamentStore::new();
    let t = cup(&mut store, "Cup", "");
    add_participant(&mut store, &t.id, "Alpha", 0).unwrap();
    assert_eq!(bulk_add_participants(&mut store, &t.id, "\n  \n", 1).unwrap_err(), "No names provided.");
    assert_eq!(bulk_add_participants(&mut store, &t.id, "Beta\nalpha\n Gamma \nbeta", 1), Ok(2));
    assert_eq!(
        roster(&store, &t.id),
        vec![("Alpha".to_string(), 1), ("Beta".to_string(), 2), ("Gamma".to_string(), 3)]
    );
    assert_eq!(store.get_tournament(&t.id).unwrap().unwrap().participant_count, 3);
}

#[test]
fn moving_participants_renumbers_seeds() {
    let mut store = TournamentStore::new();
    let t = cup(&mut store, "Cup", "");
    bulk_add_participants(&mut store, &t.id, "A\nB\nC\nD", 0).unwrap();
    let ps = listed(&store, &t.id);
    move_participant_to(&mut store, &ps, 3, 0);
    let order: Vec<String> = listed(&store, &t.id).into_iter().map(|p| p.name).collect();
    assert_eq!(order, vec!["D", "A", "B", "C"]);
    let ps = listed(&store, &t.id);
    move_participant_up(&mut store, &ps, 2);
    let ps = listed(&store, &t.id);
    move_participant_down(&mut store, &ps, 0);
    assert_eq!(
        roster(&store, &t.id),
        vec![("B".to_string(), 1), ("D".to_string(), 2), ("A".to_string(), 3), ("C".to_string(), 4)]
    );
    let before = roster(&store, &t.id);
    let ps = listed(&store, &t.id);
    move_participant_up(&mut store, &ps, 0);
    move_participant_down(&mut store, &ps, 3);
    move_participant_to(&mut store, &ps, 1, 9);
    assert_eq!(roster(&store, &t.id), before);
}

#[test]
fn random_seeding_hands_out_each_seed_once() {
    let mut store = TournamentStore::new();
    let t = cup(&mut store, "Cup", "");
    bulk_add_participants(&mut store, &t.id, "A\nB\nC\nD\nE\nF", 0).unwrap();
    let ps = listed(&store, &t.id);
    auto_seed_participants(&mut store, &ps);
    let mut seeds: Vec<i32> = roster(&store, &t.id).into_iter().map(|(_, s)| s).collect();
    seeds.sort();
    assert_eq!(seeds, vec![1, 2, 3, 4, 5, 6]);
    let mut names: Vec<String> = roster(&store, &t.id).into_iter().map(|(n, _)| n).collect();
    names.sort();
    assert_eq!(names, vec!["A", "B", "C", "D", "E", "F"]);
}

#[test]
fn the_dashboard_search_ignores_case() {
    let mut store = TournamentStore::new();
    let a = cup(&mut store, "Spring Cup", "Valorant");
    let b = cup(&mut store, "Winter League", "Chess");
    TournamentService::new().update_status(&mut store, &b.id, TournamentStatus::Completed).unwrap();
    let b = store.get_tournament(&b.id).unwrap().unwrap();
    let list = vec![a, b];
    assert_eq!(filtered_tournaments(&list, ""), vec![0, 1]);
    assert_eq!(filtered_tournaments(&list, "CUP"), vec![0]);
    assert_eq!(filtered_tournaments(&list, "chess"), vec![1]);
    assert_eq!(filtered_tournaments(&list, "draft"), vec![0]);
    assert_eq!(filtered_tournaments(&list, "complete"), vec![1]);
    assert_eq!(filtered_tournaments(&list, "n"), vec![0, 1]);
    assert!(filtered_tournaments(&list, "zzz").is_empty());
}

#[test]
fn the_dashboard_search_folds_accented_letters() {
    let mut store = TournamentStore::new();
    let a = cup(&mut store, "ÄÖ Liga", "Schach");
    let b = cup(&mut store, "Open", "Go");
    let list = vec![a, b];
    assert_eq!(filtered_tournaments(&list, "äö"), vec![0]);
    assert_eq!(filtered_tournaments(&list, "LIGA"), vec![0]);
    assert_eq!(filtered_tournaments(&list, "OPEN"), vec![1]);
}

#[test]
fn query_matching_on_lowercased_texts() {
    assert!(matches_query("", "a", "b", "c"));
    assert!(matches_query("b", "a", "b", "c"));
    assert!(!matches_query("B", "a", "b", "c"));
    assert!(matches_query("in prog", "x", "y", "in progress"));
}

#[test]
fn drafts_and_deleting_by_position() {
    let mut store = TournamentStore::new();
    let t = cup(&mut store, "Cup", "");
    assert!(is_draft(&Some(t.clone())));
    assert!(!is_draft(&None));
    let mut started = t.clone();
    started.status = TournamentStatus::InProgress;
    assert!(!is_draft(&Some(started)));
    let list = vec![t.clone()];
    assert_eq!(delete_tournament_at(&mut store, &list, 5), Ok(()));
    assert!(store.get_tournament(&t.id).unwrap().is_some());
    assert_eq!(delete_tournament_at(&mut store, &list, 0), Ok(()));
    assert!(store.get_tournament(&t.id).unwrap().is_none());
}

#[test]
fn random_seeding_does_reorder() {
    let mut store = TournamentStore::new();
    let t = cup(&mut store, "Cup", "");
    bulk_add_participants(&mut store, &t.id, "A\nB\nC\nD\nE\nF\nG\nH", 0).unwrap();
    let original: Vec<String> = listed(&store, &t.id).into_iter().map(|p| p.name).collect();
    let mut changed = false;
    for _ in 0..5 {
        let ps = listed(&store, &t.id);
        auto_seed_participants(&mut store, &ps);
        let now: Vec<String> = listed(&store, &t.id).into_iter().map(|p| p.name).collect();
        if now != original {
            changed = true;
            break;
        }
    }
    assert!(changed);
}

#[test]
fn new_tournaments_carry_a_timestamp() {
    let mut store = TournamentStore::new();
    let t = cup(&mut store, "Cup", "");
    let stamp = t.created_at.as_bytes();
    assert_eq!(stamp.len(), 19);
    assert_eq!((stamp[4], stamp[7], stamp[10], stamp[13], stamp[16]), (b'-', b'-', b' ', b':', b':'));
    assert!(stamp.iter().enumerate().all(|(i, c)| [4, 7, 10, 13, 16].contains(&i) || c.is_ascii_digit()));
}

#[test]
fn roster_entries_are_checked() {
    let games = vec!["Valorant".to_string(), "Chess".to_string()];
    assert_eq!(game_entry("  Dota 2 ", &games), Ok("Dota 2".to_string()));
    assert_eq!(game_entry("   ", &games), Err("Game name cannot be empty".to_string()));
    assert_eq!(game_entry("chess", &games), Err("Game already exists".to_string()));
    assert_eq!(roster_entry(" RRQ ", " Valorant"), Ok(("RRQ".to_string(), "Valorant".to_string())));
    assert_eq!(roster_entry("", "Valorant"), Err("Name cannot be empty".to_string()));
    assert_eq!(roster_entry("RRQ", " "), Err("Game must be selected".to_string()));
    assert_eq!(member_entry(" Lemon "), Ok("Lemon".to_string()));
    assert_eq!(member_entry(""), Err("Member name cannot be empty".to_string()));
}
