use badminton_gamegen::{Game, Session};

fn session_of(names: &[&str]) -> Session {
    let mut s = Session::default();
    s.player_names = names.iter().map(|n| n.to_string()).collect();
    s
}

#[test]
fn default_session_is_one_court_of_doubles() {
    let s = Session::default();
    assert!(s.player_names.is_empty());
    assert!(s.games.is_empty());
    assert_eq!(s.courts, 1);
    assert_eq!(s.team_size, 2);
}

#[test]
fn removing_a_player_clears_the_game_log() {
    let mut s = session_of(&["a", "b", "c", "d"]);
    let g = s.next_game().unwrap();
    s.add_game(g);
    assert_eq!(s.games.len(), 1);
    s.remove_player("b");
    assert!(s.games.is_empty());
    assert_eq!(s.player_names, vec!["a", "c", "d"]);
}

#[test]
fn removing_an_unknown_name_changes_nothing() {
    let mut s = session_of(&["a", "b"]);
    let g = Game { team_a: vec![0], team_b: vec![1] };
    s.add_game(g);
    s.remove_player("zz");
    assert_eq!(s.player_names, vec!["a", "b"]);
    assert_eq!(s.games.len(), 1);
}

#[test]
fn removal_takes_the_first_matching_name() {
    let mut s = session_of(&["a", "b", "a"]);
    s.remove_player("a");
    assert_eq!(s.player_names, vec!["b", "a"]);
}

#[test]
fn player_game_counts_reflect_the_log() {
    let mut s = session_of(&["a", "b", "c", "d"]);
    s.add_game(Game { team_a: vec![0, 1], team_b: vec![2, 3] });
    s.add_game(Game { team_a: vec![0, 2], team_b: vec![1, 3] });
    s.add_game(Game { team_a: vec![0, 3], team_b: vec![1, 2] });
    let counts = s.player_game_counts();
    for p in 0..4 {
        assert_eq!(counts.get(&p), Some(&3));
    }
    assert_eq!(counts.get(&4), None);
}

#[test]
fn player_game_counts_of_empty_log_are_empty() {
    let s = session_of(&["a", "b"]);
    assert!(s.player_game_counts().is_empty());
}

#[test]
fn pair_game_counts_tally_each_side_once() {
    let mut s = session_of(&["a", "b", "c", "d"]);
    s.add_game(Game { team_a: vec![0, 1], team_b: vec![2, 3] });
    s.add_game(Game { team_a: vec![2, 3], team_b: vec![0, 1] });
    s.add_game(Game { team_a: vec![0, 2], team_b: vec![1, 3] });
    let tally = s.pair_game_counts();
    assert_eq!(tally.len(), 4);
    let count_of = |t: &[usize]| -> usize {
        tally
            .iter()
            .find(|(side, _)| side.as_slice() == t)
            .map(|(_, c)| *c)
            .expect("side is tallied")
    };
    assert_eq!(count_of(&[0, 1]), 2);
    assert_eq!(count_of(&[2, 3]), 2);
    assert_eq!(count_of(&[0, 2]), 1);
    assert_eq!(count_of(&[1, 3]), 1);
}

#[test]
fn format_game_joins_names_with_and_and_vs() {
    let s = session_of(&["Ann", "Bob", "Cho", "Dee"]);
    let g = Game { team_a: vec![0, 1], team_b: vec![2, 3] };
    assert_eq!(s.format_game(&g), "Ann and Bob vs. Cho and Dee");
}

#[test]
fn format_game_is_idempotent_against_an_unchanged_roster() {
    let s = session_of(&["Ann", "Bob", "Cho", "Dee"]);
    let g = Game { team_a: vec![1, 3], team_b: vec![0, 2] };
    let first = s.format_game(&g);
    let second = s.format_game(&g);
    assert_eq!(first, second);
}

#[test]
fn format_game_shows_placeholder_for_stale_indices() {
    let s = session_of(&["Ann"]);
    let g = Game { team_a: vec![0], team_b: vec![9] };
    assert_eq!(s.format_game(&g), "Ann vs. ?");
}

#[test]
fn players_lists_both_teams_in_order() {
    let g = Game { team_a: vec![4, 2], team_b: vec![7, 1] };
    assert_eq!(g.players(), vec![4, 2, 7, 1]);
}

#[test]
fn pairs_exposes_both_sides() {
    let g = Game { team_a: vec![4, 2], team_b: vec![7, 1] };
    let [a, b] = g.pairs();
    assert_eq!(a, &vec![4, 2]);
    assert_eq!(b, &vec![7, 1]);
}
