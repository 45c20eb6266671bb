use tourvia::presentation::dashboard_counts;
use tourvia::domain::tournament::{Tournament, TournamentStatus, TournamentType};
use tourvia::domain::match_model::{BracketType, Match, MatchStatus};
use tourvia::domain::round::Round;
use tourvia::presentation::{
    created_date, focus_match, next_match, player_name, round_label, scoreboard_selection, selectable_matches, truncate, value_or_default,
    MatchCounts,
};

fn game(id: &str, status: MatchStatus, p1: Option<&str>, p2: Option<&str>) -> Match {
    Match {
        id: id.to_string(),
        tournament_id: "t".to_string(),
        round_id: "r".to_string(),
        match_order: 0,
        player1_id: p1.map(|s| s.to_string()),
        player2_id: p2.map(|s| s.to_string()),
        player1_name: p1.unwrap_or("").to_string(),
        player2_name: p2.unwrap_or("").to_string(),
        score1: 0,
        score2: 0,
        winner_id: None,
        status,
        next_match_id: None,
        next_match_slot: 0,
        loser_next_match_id: None,
        loser_next_match_slot: 0,
        bracket_type: BracketType::Upper,
    }
}

#[test]
fn match_counts_by_status() {
    let ms = vec![
        game("1", MatchStatus::Completed, Some("a"), Some("b")),
        game("2", MatchStatus::Bye, Some("a"), None),
        game("3", MatchStatus::Pending, None, None),
        game("4", MatchStatus::InProgress, Some("c"), Some("d")),
        game("5", MatchStatus::Completed, Some("e"), Some("f")),
    ];
    let c = MatchCounts::from_matches(&ms);
    assert_eq!((c.total, c.completed, c.pending, c.in_progress, c.bye), (5, 2, 1, 1, 1));
    assert_eq!(c.resolved(), 3);
    let empty = MatchCounts::from_matches(&vec![]);
    assert_eq!((empty.total, empty.resolved()), (0, 0));
}

#[test]
fn the_featured_match() {
    let done = game("d", MatchStatus::Completed, Some("a"), Some("b"));
    let ready = game("p2", MatchStatus::Pending, Some("a"), Some("b"));
    let half = game("p1", MatchStatus::Pending, Some("a"), None);
    let live = game("l", MatchStatus::InProgress, Some("a"), Some("b"));
    assert_eq!(focus_match(&vec![done.clone(), half.clone(), ready.clone(), live.clone()]).unwrap().id, "l");
    assert_eq!(focus_match(&vec![done.clone(), half.clone(), ready.clone()]).unwrap().id, "p2");
    assert_eq!(focus_match(&vec![done.clone(), half.clone()]).unwrap().id, "p1");
    let done2 = game("d2", MatchStatus::Completed, Some("a"), Some("b"));
    assert_eq!(focus_match(&vec![done, done2]).unwrap().id, "d2");
    assert!(focus_match(&vec![]).is_none());
}

#[test]
fn display_helpers() {
    assert_eq!(player_name("  "), "TBD");
    assert_eq!(player_name("Zed"), "Zed");
    assert_eq!(value_or_default(" ", "Unknown"), "Unknown");
    assert_eq!(value_or_default("Chess", "Unknown"), "Chess");
    assert_eq!(created_date("2024-05-01 12:30:00"), "2024-05-01");
    assert_eq!(created_date("2024-05-01"), "2024-05-01");
    assert_eq!(truncate("Tournament", 5), "Tour\u{2026}");
    assert_eq!(truncate("Cup", 5), "Cup");
    assert_eq!(truncate("Cup", 3), "Cup");
}

#[test]
fn round_labels() {
    let rounds = vec![Round {
        id: "r1".to_string(),
        tournament_id: "t".to_string(),
        round_number: 1,
        name: "Semi Final".to_string(),
        bracket_type: BracketType::Upper,
    }];
    assert_eq!(round_label(&rounds, "r1"), "Semi Final");
    assert_eq!(round_label(&rounds, "r9"), "Match");
}

fn board() -> Vec<Match> {
    vec![
        game("a", MatchStatus::Completed, Some("p"), Some("q")),
        game("b", MatchStatus::Bye, Some("p"), None),
        game("c", MatchStatus::Pending, Some("r"), Some("s")),
        game("d", MatchStatus::InProgress, Some("t"), Some("u")),
        game("e", MatchStatus::Completed, Some("v"), Some("w")),
    ]
}

#[test]
fn the_scoreboard_leaves_out_byes() {
    let ids: Vec<String> = selectable_matches(&board()).into_iter().map(|m| m.id).collect();
    assert_eq!(ids, vec!["a", "c", "d", "e"]);
}

#[test]
fn the_next_open_match_goes_round() {
    let ms = board();
    assert_eq!(next_match(&ms, "c").map(|m| m.id), Some("d".to_string()));
    assert_eq!(next_match(&ms, "d").map(|m| m.id), Some("c".to_string()));
    assert_eq!(next_match(&ms, "e").map(|m| m.id), Some("c".to_string()));
    assert!(next_match(&ms, "b").is_none());
    let done = vec![game("x", MatchStatus::Completed, Some("p"), Some("q")), game("y", MatchStatus::Completed, Some("p"), Some("q"))];
    assert!(next_match(&done, "x").is_none());
}

#[test]
fn the_scoreboard_keeps_a_shown_selection() {
    let ms = board();
    assert_eq!(scoreboard_selection(&ms, &Some("c".to_string())), (Some("c".to_string()), false));
    assert_eq!(scoreboard_selection(&ms, &Some("b".to_string())), (Some("d".to_string()), true));
    assert_eq!(scoreboard_selection(&ms, &None), (Some("d".to_string()), true));
    let byes = vec![game("b", MatchStatus::Bye, Some("p"), None)];
    assert_eq!(scoreboard_selection(&byes, &Some("b".to_string())), (None, false));
    let done = vec![game("x", MatchStatus::Completed, Some("p"), Some("q")), game("y", MatchStatus::Completed, Some("p"), Some("q"))];
    assert_eq!(scoreboard_selection(&done, &Some("zz".to_string())), (Some("y".to_string()), true));
    assert_eq!(scoreboard_selection(&done, &Some("y".to_string())), (Some("y".to_string()), false));
}

#[test]
fn the_dashboard_counts_tournaments_by_status() {
    let mut ts = Vec::new();
    for (k, st) in [TournamentStatus::Draft, TournamentStatus::InProgress, TournamentStatus::Draft, TournamentStatus::Completed]
        .into_iter()
        .enumerate()
    {
        let mut t = Tournament::new(format!("T{}", k), TournamentType::SingleElimination, String::new(), String::new());
        t.status = st;
        ts.push(t);
    }
    assert_eq!(dashboard_counts(&ts), (4, 1, 1, 2));
    assert_eq!(dashboard_counts(&Vec::new()), (0, 0, 0, 0));
}
