use tourvia::actions::{add_participant, generate_bracket, submit_match_score};
use tourvia::domain::match_model::{BracketType, Match, MatchStatus};
use tourvia::domain::participant::Participant;
use tourvia::domain::tournament::{TournamentStatus, TournamentType};
use tourvia::services::match_service::MatchService;
use tourvia::services::tournament_service::TournamentService;
use tourvia::store::TournamentStore;

fn setup(kind: TournamentType, names: &[&str]) -> (TournamentStore, String) {
    let mut store = TournamentStore::new();
    let t = TournamentService::new().create_tournament(&mut store, "Cup", kind, "", "Chess").unwrap();
    for (k, name) in names.iter().enumerate() {
        add_participant(&mut store, &t.id, name, k).unwrap();
    }
    (store, t.id)
}

fn entrants(store: &TournamentStore, tid: &str) -> Vec<Participant> {
    store.get_participants_by_tournament(tid).unwrap()
}

fn generate(store: &mut TournamentStore, tid: &str, kind: TournamentType) {
    let ps = entrants(store, tid);
    generate_bracket(store, tid, &ps, &kind).unwrap();
}

fn matches(store: &TournamentStore, tid: &str) -> Vec<Match> {
    store.get_matches_by_tournament(tid).unwrap()
}

fn find(store: &TournamentStore, tid: &str, a: &str, b: &str) -> Match {
    matches(store, tid)
        .into_iter()
        .find(|m| (m.player1_name == a && m.player2_name == b) || (m.player1_name == b && m.player2_name == a))
        .unwrap()
}

#[test]
fn single_elimination_of_four() {
    let (mut store, tid) = setup(TournamentType::SingleElimination, &["A", "B", "C", "D"]);
    generate(&mut store, &tid, TournamentType::SingleElimination);
    let rounds = store.get_rounds_by_tournament(&tid).unwrap();
    let names: Vec<&str> = rounds.iter().map(|r| r.name.as_str()).collect();
    assert_eq!(names, vec!["Semi Final", "Final"]);
    let ms = matches(&store, &tid);
    assert_eq!(ms.len(), 3);
    assert_eq!((ms[0].player1_name.as_str(), ms[0].player2_name.as_str()), ("A", "D"));
    assert_eq!((ms[1].player1_name.as_str(), ms[1].player2_name.as_str()), ("B", "C"));
    assert_eq!(ms[0].status, MatchStatus::InProgress);
    assert_eq!(ms[2].status, MatchStatus::Pending);
    assert_eq!(ms[0].next_match_id.as_deref(), Some(ms[2].id.as_str()));
    assert_eq!((ms[0].next_match_slot, ms[1].next_match_slot), (1, 2));
    let t = store.get_tournament(&tid).unwrap().unwrap();
    assert_eq!(t.status, TournamentStatus::InProgress);
}

#[test]
fn too_few_entrants_are_refused() {
    let (mut store, tid) = setup(TournamentType::SingleElimination, &["Solo"]);
    let ps = entrants(&store, &tid);
    let r = generate_bracket(&mut store, &tid, &ps, &TournamentType::SingleElimination);
    assert_eq!(r.unwrap_err(), "Need at least 2 participants to generate a bracket.");
    let r = generate_bracket(&mut store, &tid, &ps, &TournamentType::RoundRobin);
    assert_eq!(r.unwrap_err(), "Need at least 2 participants for Round Robin.");
    assert_eq!(store.get_tournament(&tid).unwrap().unwrap().status, TournamentStatus::Draft);
}

#[test]
fn a_lone_top_seed_gets_a_bye() {
    let (mut store, tid) = setup(TournamentType::SingleElimination, &["A", "B", "C"]);
    generate(&mut store, &tid, TournamentType::SingleElimination);
    let ms = matches(&store, &tid);
    assert_eq!(ms.len(), 3);
    assert_eq!(ms[0].status, MatchStatus::Bye);
    assert_eq!(ms[0].player2_name, "BYE");
    let a = entrants(&store, &tid)[0].id.clone();
    assert_eq!(ms[0].winner_id.as_deref(), Some(a.as_str()));
    assert_eq!(ms[2].player1_name, "A");
}

#[test]
fn the_winner_advances_and_the_match_locks() {
    let (mut store, tid) = setup(TournamentType::SingleElimination, &["A", "B", "C", "D"]);
    generate(&mut store, &tid, TournamentType::SingleElimination);
    let semi = find(&store, &tid, "A", "D");
    let ms = MatchService::new();
    ms.submit_score(&mut store, &semi.id, 3, 1).unwrap();
    let fin = &matches(&store, &tid)[2];
    assert_eq!(fin.player1_name, "A");
    assert_eq!(fin.status, MatchStatus::Pending);
    let again = ms.submit_score(&mut store, &semi.id, 0, 5);
    assert_eq!(again.unwrap_err(), "This match is already completed and locked.");
    let done = store.get_match_by_id(&semi.id).unwrap().unwrap();
    assert_eq!((done.score1, done.score2, done.status), (3, 1, MatchStatus::Completed));
}

#[test]
fn score_refusals() {
    let (mut store, tid) = setup(TournamentType::SingleElimination, &["A", "B", "C", "D"]);
    generate(&mut store, &tid, TournamentType::SingleElimination);
    let ms = MatchService::new();
    let semi = find(&store, &tid, "B", "C");
    assert_eq!(ms.submit_score(&mut store, &semi.id, -1, 2).unwrap_err(), "Scores cannot be negative.");
    assert_eq!(ms.submit_score(&mut store, "nope", 1, 2).unwrap_err(), "Match not found.");
    assert_eq!(
        ms.submit_score(&mut store, &semi.id, 2, 2).unwrap_err(),
        "Ties are not allowed in elimination brackets. Please enter a decisive score."
    );
    let fin = matches(&store, &tid)[2].clone();
    assert_eq!(
        ms.submit_score(&mut store, &fin.id, 1, 0).unwrap_err(),
        "Both players must be assigned before submitting a score."
    );
}

#[test]
fn a_two_player_cup_completes_with_its_champion() {
    let (mut store, tid) = setup(TournamentType::SingleElimination, &["A", "B"]);
    generate(&mut store, &tid, TournamentType::SingleElimination);
    let only = matches(&store, &tid)[0].clone();
    assert_eq!(submit_match_score(&mut store, Some(tid.as_str()), &only.id, " 1 ", "4"), Ok(true));
    assert_eq!(store.get_tournament(&tid).unwrap().unwrap().status, TournamentStatus::Completed);
    assert_eq!(MatchService::new().get_champion(&store, &tid), Ok(Some("B".to_string())));
    assert_eq!(MatchService::new().is_tournament_complete(&store, &tid), Ok(true));
}

#[test]
fn a_bye_fed_final_stays_locked_after_the_next_sweep() {
    let (mut store, tid) = setup(TournamentType::SingleElimination, &["A", "B", "C"]);
    generate(&mut store, &tid, TournamentType::SingleElimination);
    let semi = find(&store, &tid, "B", "C");
    assert_eq!(submit_match_score(&mut store, Some(tid.as_str()), &semi.id, "2", "0"), Ok(false));
    let fin = matches(&store, &tid)[2].clone();
    assert_eq!((fin.player1_name.as_str(), fin.player2_name.as_str()), ("A", "B"));
    assert_eq!(submit_match_score(&mut store, Some(tid.as_str()), &fin.id, "3", "2"), Ok(true));
    let after = store.get_match_by_id(&fin.id).unwrap().unwrap();
    assert_eq!((after.status, after.score1, after.score2), (MatchStatus::Completed, 3, 2));
    assert_eq!(
        MatchService::new().submit_score(&mut store, &fin.id, 0, 5).unwrap_err(),
        "This match is already completed and locked."
    );
    assert_eq!(MatchService::new().get_champion(&store, &tid), Ok(Some("A".to_string())));
}

#[test]
fn submit_match_score_reports_unreadable_scores() {
    let (mut store, tid) = setup(TournamentType::SingleElimination, &["A", "B"]);
    generate(&mut store, &tid, TournamentType::SingleElimination);
    let only = matches(&store, &tid)[0].clone();
    assert_eq!(submit_match_score(&mut store, Some(tid.as_str()), &only.id, "x", "1"), Err("Invalid score for Player 1.".to_string()));
    assert_eq!(submit_match_score(&mut store, Some(tid.as_str()), &only.id, "1", ""), Err("Invalid score for Player 2.".to_string()));
    assert_eq!(matches(&store, &tid)[0].status, MatchStatus::InProgress);
}

#[test]
fn double_elimination_of_four() {
    let (mut store, tid) = setup(TournamentType::DoubleElimination, &["A", "B", "C", "D"]);
    generate(&mut store, &tid, TournamentType::DoubleElimination);
    let rounds = store.get_rounds_by_tournament(&tid).unwrap();
    assert_eq!(rounds.len(), 5);
    let ms = matches(&store, &tid);
    assert_eq!(ms.len(), 6);
    assert_eq!(ms.iter().filter(|m| m.bracket_type == BracketType::Lower).count(), 2);
    assert_eq!(ms.iter().filter(|m| m.bracket_type == BracketType::GrandFinal).count(), 1);
    let semi = find(&store, &tid, "A", "D");
    MatchService::new().submit_score(&mut store, &semi.id, 0, 2).unwrap();
    let loser_slot = store.get_match_by_id(semi.loser_next_match_id.as_deref().unwrap()).unwrap().unwrap();
    assert!(loser_slot.player1_name == "A" || loser_slot.player2_name == "A");
}

#[test]
fn round_robin_everyone_meets_everyone_once() {
    for n in 2..=7usize {
        let names: Vec<String> = (0..n).map(|i| format!("P{}", i)).collect();
        let refs: Vec<&str> = names.iter().map(|s| s.as_str()).collect();
        let (mut store, tid) = setup(TournamentType::RoundRobin, &refs);
        generate(&mut store, &tid, TournamentType::RoundRobin);
        let slots = if n % 2 == 1 { n + 1 } else { n };
        assert_eq!(store.get_rounds_by_tournament(&tid).unwrap().len(), slots - 1);
        let ms = matches(&store, &tid);
        assert_eq!(ms.len(), (slots - 1) * slots / 2);
        for i in 0..n {
            for j in (i + 1)..n {
                let (a, b) = (names[i].as_str(), names[j].as_str());
                let meetings = ms
                    .iter()
                    .filter(|m| (m.player1_name == a && m.player2_name == b) || (m.player1_name == b && m.player2_name == a))
                    .count();
                assert_eq!(meetings, 1, "{} vs {} with {} entrants", a, b, n);
            }
        }
        let byes = ms.iter().filter(|m| m.status == MatchStatus::Bye).count();
        assert_eq!(byes, if n % 2 == 1 { n } else { 0 });
    }
}

#[test]
fn round_robin_allows_ties_and_names_the_leader() {
    let (mut store, tid) = setup(TournamentType::RoundRobin, &["A", "B", "C"]);
    generate(&mut store, &tid, TournamentType::RoundRobin);
    let ab = find(&store, &tid, "A", "B");
    let ac = find(&store, &tid, "A", "C");
    let bc = find(&store, &tid, "B", "C");
    assert_eq!(submit_match_score(&mut store, Some(tid.as_str()), &ab.id, "1", "1"), Ok(false));
    let (s_a, s_c) = if ac.player1_name == "A" { ("3", "0") } else { ("0", "3") };
    assert_eq!(submit_match_score(&mut store, Some(tid.as_str()), &ac.id, s_a, s_c), Ok(false));
    let (s_b, s_c) = if bc.player1_name == "B" { ("2", "1") } else { ("1", "2") };
    assert_eq!(submit_match_score(&mut store, Some(tid.as_str()), &bc.id, s_b, s_c), Ok(true));
    assert_eq!(MatchService::new().get_champion(&store, &tid), Ok(Some("A".to_string())));
    let stats = MatchService::new().get_tournament_stats(&store, &tid).unwrap();
    assert_eq!(stats.total_matches, 6);
    assert_eq!(stats.completed_matches, 3);
    assert_eq!(stats.bye_matches, 3);
    let order: Vec<&str> = stats.standings.iter().map(|s| s.name.as_str()).collect();
    assert_eq!(order, vec!["A", "B", "C"]);
    assert_eq!((stats.standings[0].matches_won, stats.standings[0].matches_drawn), (1, 1));
    assert_eq!((stats.standings[2].games_won, stats.standings[2].games_lost), (1, 5));
}

#[test]
fn regenerating_replaces_the_bracket_and_reset_clears_it() {
    let (mut store, tid) = setup(TournamentType::SingleElimination, &["A", "B", "C", "D"]);
    generate(&mut store, &tid, TournamentType::SingleElimination);
    generate(&mut store, &tid, TournamentType::SingleElimination);
    assert_eq!(matches(&store, &tid).len(), 3);
    assert_eq!(store.get_rounds_by_tournament(&tid).unwrap().len(), 2);
    TournamentService::new().reset_bracket(&mut store, &tid).unwrap();
    assert!(matches(&store, &tid).is_empty());
    assert!(store.get_rounds_by_tournament(&tid).unwrap().is_empty());
    assert_eq!(store.get_tournament(&tid).unwrap().unwrap().status, TournamentStatus::Draft);
    assert_eq!(entrants(&store, &tid).len(), 4);
}

#[test]
fn export_then_import_restores_the_tournament() {
    let (mut store, tid) = setup(TournamentType::SingleElimination, &["A", "B", "C"]);
    generate(&mut store, &tid, TournamentType::SingleElimination);
    let ts = TournamentService::new();
    let data = ts.export_tournament_data(&store, &tid).unwrap();
    assert_eq!(data.participants.len(), 3);
    assert_eq!(data.rounds.len(), 2);
    assert_eq!(data.matches.len(), 3);
    assert_eq!(ts.import_tournament_data(&mut store, &data).unwrap_err(), "Tournament with this ID already exists. Cannot import.");
    let mut fresh = TournamentStore::new();
    assert_eq!(ts.import_tournament_data(&mut fresh, &data), Ok(tid.clone()));
    let again = ts.export_tournament_data(&fresh, &tid).unwrap();
    let ids = |ms: &Vec<Match>| ms.iter().map(|m| m.id.clone()).collect::<Vec<String>>();
    assert_eq!(ids(&again.matches), ids(&data.matches));
    let names = |ps: &Vec<Participant>| ps.iter().map(|p| (p.name.clone(), p.seed)).collect::<Vec<_>>();
    assert_eq!(names(&again.participants), names(&data.participants));
    assert_eq!(again.tournament.name, "Cup");
    assert_eq!(ts.export_tournament_data(&fresh, "missing").unwrap_err(), "Tournament not found");
}

#[test]
fn deleting_a_tournament_removes_everything_of_it() {
    let (mut store, tid) = setup(TournamentType::SingleElimination, &["A", "B"]);
    generate(&mut store, &tid, TournamentType::SingleElimination);
    TournamentService::new().delete_tournament(&mut store, &tid).unwrap();
    assert!(store.get_tournament(&tid).unwrap().is_none());
    assert!(entrants(&store, &tid).is_empty());
    assert!(matches(&store, &tid).is_empty());
}

#[test]
fn tournament_names_must_not_be_blank() {
    let mut store = TournamentStore::new();
    let r = TournamentService::new().create_tournament(&mut store, "   ", TournamentType::RoundRobin, "", "");
    assert_eq!(r.unwrap_err(), "Tournament name cannot be empty.");
    let t = TournamentService::new().create_tournament(&mut store, "  League ", TournamentType::RoundRobin, " d ", " g ").unwrap();
    assert_eq!((t.name.as_str(), t.description.as_str(), t.game_name.as_str()), ("League", "d", "g"));
    assert_eq!(t.status, TournamentStatus::Draft);
    assert_eq!(t.id.len(), 36);
}

#[test]
fn a_match_in_a_bracket_with_byes_stays_locked() {
    let (mut store, tid) = setup(TournamentType::SingleElimination, &["A", "B", "C", "D", "E"]);
    generate(&mut store, &tid, TournamentType::SingleElimination);
    let m = find(&store, &tid, "D", "E");
    let svc = MatchService::new();
    svc.submit_score(&mut store, &m.id, 2, 1).unwrap();
    for (a, b) in [(0, 0), (1, 2), (5, 3)] {
        assert_eq!(svc.submit_score(&mut store, &m.id, a, b).unwrap_err(), "This match is already completed and locked.");
    }
    let after = store.get_match_by_id(&m.id).unwrap().unwrap();
    assert_eq!((after.score1, after.score2, after.status), (2, 1, MatchStatus::Completed));
}

#[test]
fn a_failed_build_names_the_step_and_keeps_what_went_in() {
    let mut store = TournamentStore::new();
    let t = TournamentService::new().create_tournament(&mut store, "Cup", TournamentType::SingleElimination, "", "").unwrap();
    add_participant(&mut store, &t.id, "A", 0).unwrap();
    add_participant(&mut store, &t.id, "B", 1).unwrap();
    let ps = entrants(&store, &t.id);
    let e = generate_bracket(&mut store, "no-such-tournament", &ps, &TournamentType::SingleElimination).unwrap_err();
    assert_eq!(e, "Failed to create round: FOREIGN KEY constraint failed");
    let e = generate_bracket(&mut store, "no-such-tournament", &ps, &TournamentType::RoundRobin).unwrap_err();
    assert_eq!(e, "Failed to create round: FOREIGN KEY constraint failed");
    assert!(matches(&store, &t.id).is_empty());
}

#[test]
fn standings_reach_round_numbers_up_to_the_i32_limit() {
    use_round_numbers(2_147_433, true);
    use_round_numbers(-2_147_483, true);
    use_round_numbers(2_147_434, false);
}

fn use_round_numbers(round_number: i32, fits: bool) {
    let (mut store, tid) = setup(TournamentType::SingleElimination, &["A", "B"]);
    let ps = entrants(&store, &tid);
    let round = tourvia::domain::round::Round::new(tid.clone(), round_number, "Far".to_string(), BracketType::Upper);
    store.create_round(&round).unwrap();
    let m = Match {
        id: "far-match".to_string(),
        tournament_id: tid.clone(),
        round_id: round.id.clone(),
        match_order: 0,
        player1_id: Some(ps[0].id.clone()),
        player2_id: Some(ps[1].id.clone()),
        player1_name: ps[0].name.clone(),
        player2_name: ps[1].name.clone(),
        score1: 2,
        score2: 1,
        winner_id: Some(ps[0].id.clone()),
        status: MatchStatus::Completed,
        next_match_id: None,
        next_match_slot: 1,
        loser_next_match_id: None,
        loser_next_match_slot: 1,
        bracket_type: BracketType::Upper,
    };
    store.create_match(&m).unwrap();
    assert_eq!(tourvia::services::match_service::stats_within_limits(&store, &tid), fits);
    if fits {
        let stats = MatchService::new().get_tournament_stats(&store, &tid).unwrap();
        assert_eq!(stats.standings[0].name, ps[0].name);
        assert_eq!(stats.standings[0].bracket_score, (round_number * 1000 + 500).max(0));
        assert_eq!(stats.standings[1].bracket_score, round_number * 1000);
    }
}
