use std::collections::HashSet;

use badminton_gamegen::{Game, GenerationStrategy, Session};

const TEST_GAMES: usize = 20;

fn create_test_session() -> Session {
    Session {
        player_names: Vec::from([
            "a".to_string(),
            "b".to_string(),
            "c".to_string(),
            "d".to_string(),
            "e".to_string(),
            "f".to_string(),
            "g".to_string(),
            "h".to_string(),
            "i".to_string(),
        ]),
        games: Vec::new(),
        courts: 1,
        team_size: 2,
        generation_strategy: GenerationStrategy::Normal,
    }
}

fn generate_test_games(s: &mut Session) {
    for _ in 0..TEST_GAMES {
        let g = s.next_game().unwrap();
        s.add_game(g)
    }
}

#[test]
fn game_has_correct_number_of_pairs() {
    let mut session = create_test_session();
    generate_test_games(&mut session);

    let pairs = session
        .games
        .iter()
        .flat_map(|g| g.pairs())
        .collect::<HashSet<_>>();

    assert_eq!(pairs.len(), 36);
}

fn session_with(names: &[&str], courts: usize, team_size: usize) -> Session {
    let mut s = Session::default();
    s.player_names = names.iter().map(|n| n.to_string()).collect();
    s.courts = courts;
    s.team_size = team_size;
    s
}

#[test]
fn four_players_fill_one_doubles_game() {
    let s = session_with(&["a", "b", "c", "d"], 1, 2);
    let g = s.next_game().expect("four players fill one game");
    let mut seen: Vec<usize> = g.players();
    seen.sort();
    assert_eq!(seen, vec![0, 1, 2, 3]);
    assert_eq!(g.team_a.len(), 2);
    assert_eq!(g.team_b.len(), 2);
}

#[test]
fn first_game_of_fresh_session_is_first_candidate() {
    let s = session_with(&["a", "b", "c", "d"], 1, 2);
    let g = s.next_game().unwrap();
    assert_eq!(g.team_a, vec![0, 1]);
    assert_eq!(g.team_b, vec![2, 3]);
}

#[test]
fn too_few_players_yield_no_game() {
    let s = session_with(&["a", "b", "c"], 1, 2);
    assert!(s.next_game().is_none());
    let empty = session_with(&[], 1, 2);
    assert!(empty.next_game().is_none());
}

#[test]
fn proposed_teams_are_disjoint_and_sized() {
    let mut s = session_with(&["a", "b", "c", "d", "e", "f", "g"], 1, 2);
    for _ in 0..10 {
        let g = s.next_game().unwrap();
        assert_eq!(g.team_a.len(), 2);
        assert_eq!(g.team_b.len(), 2);
        let a: HashSet<usize> = g.team_a.iter().copied().collect();
        let b: HashSet<usize> = g.team_b.iter().copied().collect();
        assert_eq!(a.len(), 2);
        assert_eq!(b.len(), 2);
        assert!(a.is_disjoint(&b));
        s.add_game(g);
    }
}

#[test]
fn singles_game_uses_two_players() {
    let s = session_with(&["a", "b"], 1, 1);
    let g = s.next_game().unwrap();
    assert_eq!(g.team_a, vec![0]);
    assert_eq!(g.team_b, vec![1]);
}

#[test]
fn zero_team_size_is_treated_as_one() {
    let s = session_with(&["a", "b"], 1, 0);
    let g = s.next_game().expect("a singles game comes out");
    assert_eq!(g.players().len(), 2);
}

#[test]
fn zero_courts_are_treated_as_one() {
    let mut s = session_with(&["a", "b", "c", "d"], 0, 2);
    let g = s.next_game().expect("no exclusion applies");
    s.add_game(g);
    assert!(s.next_game().is_some());
}

#[test]
fn second_court_excludes_running_players() {
    let mut s = session_with(&["a", "b", "c", "d", "e", "f", "g", "h"], 2, 2);
    let first = s.next_game().unwrap();
    s.add_game(first.clone());
    let second = s.next_game().expect("four players are still free");
    let running: HashSet<usize> = first.players().into_iter().collect();
    for p in second.players() {
        assert!(!running.contains(&p), "player {p} is already on a court");
    }
}

#[test]
fn new_round_frees_all_players() {
    let mut s = session_with(&["a", "b", "c", "d", "e", "f", "g", "h"], 2, 2);
    let first = s.next_game().unwrap();
    s.add_game(first);
    let second = s.next_game().unwrap();
    s.add_game(second);
    // Both courts are filled: the round is over and everyone is eligible.
    assert!(s.next_game().is_some());
}

#[test]
fn second_court_without_enough_free_players_yields_nothing() {
    let mut s = session_with(&["a", "b", "c", "d", "e"], 2, 2);
    let first = s.next_game().unwrap();
    s.add_game(first);
    // One player is left over: no second simultaneous game fits.
    assert!(s.next_game().is_none());
}

#[test]
fn explicit_exclusions_restrict_the_pool() {
    let s = session_with(&["a", "b", "c", "d"], 1, 1);
    let g = s.generate_game(vec![0]).unwrap();
    for p in g.players() {
        assert!(p >= 1 && p <= 3);
    }
    assert!(s.generate_game(vec![0, 1, 2]).is_none());
}

#[test]
fn fairness_spread_stays_bounded_for_six_players() {
    let mut s = session_with(&["a", "b", "c", "d", "e", "f"], 1, 2);
    for _ in 0..20 {
        let g = s.next_game().unwrap();
        s.add_game(g);
    }
    let counts = s.player_game_counts();
    let values: Vec<usize> = (0..6).map(|p| *counts.get(&p).unwrap_or(&0)).collect();
    let max = *values.iter().max().unwrap();
    let min = *values.iter().min().unwrap();
    assert!(
        max - min <= 2,
        "play counts diverged: {values:?}"
    );
}

#[test]
fn fairness_spread_stays_bounded_for_five_players() {
    let mut s = session_with(&["a", "b", "c", "d", "e"], 1, 2);
    for _ in 0..25 {
        let g = s.next_game().unwrap();
        s.add_game(g);
    }
    let counts = s.player_game_counts();
    let values: Vec<usize> = (0..5).map(|p| *counts.get(&p).unwrap_or(&0)).collect();
    let max = *values.iter().max().unwrap();
    let min = *values.iter().min().unwrap();
    assert!(
        max - min <= 2,
        "play counts diverged: {values:?}"
    );
}

#[test]
fn shuffled_strategy_still_fills_the_game() {
    let s = Session {
        player_names: vec!["a".to_string(), "b".to_string(), "c".to_string(), "d".to_string()],
        games: Vec::new(),
        courts: 1,
        team_size: 2,
        generation_strategy: GenerationStrategy::Shuffled(42),
    };
    let g = s.next_game().expect("shuffling never loses candidates");
    let mut seen = g.players();
    seen.sort();
    assert_eq!(seen, vec![0, 1, 2, 3]);
}

#[test]
fn shuffled_strategy_is_reproducible_under_one_seed() {
    let make = || Session {
        player_names: (0..8).map(|i| format!("p{i}")).collect(),
        games: Vec::new(),
        courts: 1,
        team_size: 2,
        generation_strategy: GenerationStrategy::Shuffled(7),
    };
    let a = make().next_game().unwrap();
    let b = make().next_game().unwrap();
    assert_eq!(a, b);
}

#[test]
fn shuffled_strategy_respects_insufficiency() {
    let s = Session {
        player_names: vec!["a".to_string(), "b".to_string(), "c".to_string()],
        games: Vec::new(),
        courts: 1,
        team_size: 2,
        generation_strategy: GenerationStrategy::Shuffled(5),
    };
    assert!(s.next_game().is_none());
}

#[test]
fn team_size_larger_than_roster_yields_no_game() {
    let s = session_with(&["a", "b", "c", "d"], 1, 3);
    assert!(s.next_game().is_none());
}

#[test]
fn configuration_changes_apply_to_the_next_proposal() {
    let mut s = session_with(&["a", "b", "c", "d"], 1, 2);
    let doubles = s.next_game().unwrap();
    assert_eq!(doubles.players().len(), 4);
    s.add_game(doubles);
    s.team_size = 1;
    let singles = s.next_game().unwrap();
    assert_eq!(singles.players().len(), 2);
}

#[test]
fn add_game_appends_to_the_log() {
    let mut s = session_with(&["a", "b", "c", "d"], 1, 2);
    let g = Game { team_a: vec![0, 1], team_b: vec![2, 3] };
    s.add_game(g.clone());
    assert_eq!(s.games.len(), 1);
    assert_eq!(s.games[0], g);
}
