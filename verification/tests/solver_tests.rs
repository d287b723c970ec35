use wordsolve::game::Game;
use wordsolve::game::GameState;
use wordsolve::game::Guess;
use wordsolve::game::GuessState;
use wordsolve::solver::Solver;
use wordsolve::solver::pattern_index;

fn words(ws: &[&str]) -> Vec<String> {
    ws.iter().map(|w| w.to_string()).collect()
}

fn sample_game(secret_index: usize) -> Game {
    let mut game = Game::from_lexicon(
        words(&["speed", "crane", "lucky", "abbey"]),
        words(&["bobby", "spend", "tares"]),
    )
    .expect("legal pools");
    game.set_game_with_answer_index(secret_index);
    game
}

#[test]
fn round_zero_guess_is_constant_across_solvers() {
    let game_a = sample_game(0);
    let game_b = sample_game(2);
    let solver_a = Solver::bind(&game_a);
    let solver_b = Solver::bind(&game_b);
    let (guess_a, score_a) = solver_a.new_guess(0);
    let (guess_b, score_b) = solver_b.new_guess(0);
    assert_eq!(guess_a.state, "tares".to_string());
    assert_eq!(guess_b.state, "tares".to_string());
    assert_eq!(score_a, 0);
    assert_eq!(score_b, 0);
}

#[test]
fn observe_narrows_monotonically() {
    let game = sample_game(0);
    let mut solver = Solver::bind(&game);
    let before_mask = solver.valid_table.clone();
    let before_survive = solver.survive;
    let m = game.grade_guess(&Guess { state: "tares".to_string() });
    solver.observe("tares".to_string(), &m);
    assert!(solver.survive <= before_survive);
    for i in 0..before_mask.len() {
        // nothing excluded ever comes back
        if !before_mask[i] {
            assert!(!solver.valid_table[i]);
        }
    }
    let first_mask = solver.valid_table.clone();
    let m2 = game.grade_guess(&Guess { state: "crane".to_string() });
    solver.observe("crane".to_string(), &m2);
    for i in 0..first_mask.len() {
        if solver.valid_table[i] {
            assert!(first_mask[i]);
        }
    }
}

#[test]
fn scenario_speed_tares_strictly_narrows() {
    let mut game = sample_game(0);
    let mut solver = Solver::bind(&game);
    let pool_size = solver.candidates.len();
    assert_eq!(solver.survive, pool_size);
    let (guess, _score) = solver.new_guess(0);
    assert_eq!(guess.state, "tares".to_string());
    let m = solver.try_guess(guess, &mut game).expect("opening guess is legal");
    assert_eq!(
        m.states,
        [
            GuessState::Wrong,
            GuessState::Wrong,
            GuessState::Wrong,
            GuessState::Correct,
            GuessState::Misplace,
        ]
    );
    assert!(solver.survive < pool_size);
    assert_eq!(game.round(), 1);
}

#[test]
fn all_wrong_verdict_still_narrows_here() {
    // "lucky" shares no letter with "speed": the verdict is all-Wrong, yet
    // the pool holds words carrying those letters, so the valid set shrinks;
    // at the least "lucky" itself is no longer a possible secret.
    let mut game = sample_game(0);
    let mut solver = Solver::bind(&game);
    let pool_size = solver.candidates.len();
    let m = solver
        .try_guess(Guess { state: "lucky".to_string() }, &mut game)
        .expect("pool word is legal");
    assert_eq!(m.states, [GuessState::Wrong; 5]);
    assert!(solver.survive < pool_size);
    let lucky_at = solver.candidates.iter().position(|w| w == "lucky").unwrap();
    assert!(!solver.valid_table[lucky_at]);
}

#[test]
fn illegal_guess_changes_nothing() {
    let mut game = sample_game(0);
    let mut solver = Solver::bind(&game);
    let round_before = game.round();
    let survive_before = solver.survive;
    let patterns_before = solver.patterns.len();
    let r = solver.try_guess(Guess { state: "zonal".to_string() }, &mut game);
    assert!(r.is_none());
    assert_eq!(game.round(), round_before);
    assert_eq!(game.state, GameState::On);
    assert_eq!(solver.survive, survive_before);
    assert_eq!(solver.patterns.len(), patterns_before);
}

#[test]
fn entropy_scan_picks_first_argmax() {
    // pool order: bobby, spend, tares, speed, crane, lucky, abbey
    // fixed-point scores put crane and abbey level on top; crane comes first
    let mut game = Game::from_lexicon(
        words(&["speed", "crane", "lucky", "abbey", "bobby", "spend"]),
        words(&["tares"]),
    )
    .expect("legal pools");
    game.set_game_with_answer_index(0);
    let solver = Solver::bind(&game);
    let (guess, score) = solver.new_guess(1);
    assert_eq!(guess.state, "crane".to_string());
    assert!(score > 0);
}

#[test]
fn known_pool_scores_exactly() {
    // candidate pool: speed, crane, lucky, abbey, bobby, spend, tares (in order)
    let mut game = Game::from_lexicon(
        words(&["tares"]),
        words(&["speed", "crane", "lucky", "abbey", "bobby", "spend"]),
    )
    .expect("legal pools");
    game.set_game_with_answer_index(0);
    let solver = Solver::bind(&game);
    let (guess, score) = solver.new_guess(1);
    // hand-computed 16.16 fixed-point entropy scores over the 7-word pool:
    // crane scores 1287874, tied later by abbey; crane is first
    assert_eq!(guess.state, "crane".to_string());
    assert_eq!(score, 1287874);
}

#[test]
fn single_survivor_is_guessed() {
    let mut game = sample_game(0);
    let mut solver = Solver::bind(&game);
    solver
        .try_guess(Guess { state: "tares".to_string() }, &mut game)
        .expect("legal");
    solver
        .try_guess(Guess { state: "spend".to_string() }, &mut game)
        .expect("legal");
    assert_eq!(solver.survive, 1);
    let (guess, _score) = solver.new_guess(game.round() as u8);
    assert_eq!(guess.state, "speed".to_string());
}

#[test]
fn reset_restores_full_belief() {
    let mut game = sample_game(0);
    let mut solver = Solver::bind(&game);
    solver
        .try_guess(Guess { state: "tares".to_string() }, &mut game)
        .expect("legal");
    assert!(solver.survive < solver.candidates.len());
    solver.reset();
    assert_eq!(solver.survive, solver.candidates.len());
    assert!(solver.patterns.is_empty());
    assert!(solver.valid_table.iter().all(|b| *b));
}

#[test]
fn pattern_index_matches_base3_encoding() {
    assert_eq!(pattern_index(&[GuessState::Wrong; 5]), 0);
    assert_eq!(pattern_index(&[GuessState::Correct; 5]), 242);
    assert_eq!(
        pattern_index(&[
            GuessState::Wrong,
            GuessState::Wrong,
            GuessState::Wrong,
            GuessState::Correct,
            GuessState::Misplace,
        ]),
        7
    );
    assert_eq!(
        pattern_index(&[
            GuessState::Misplace,
            GuessState::Wrong,
            GuessState::Wrong,
            GuessState::Wrong,
            GuessState::Wrong,
        ]),
        81
    );
}

#[test]
fn cache_of_wrong_length_is_rejected() {
    let game = sample_game(0);
    assert!(Solver::bind_with_cache(&game, words(&["tares"])).is_none());
    let malformed = vec!["toolong".to_string(); 243];
    assert!(Solver::bind_with_cache(&game, malformed).is_none());
}

#[test]
fn cache_answers_round_one_by_lookup() {
    let mut game = sample_game(0);
    let cache = vec!["bobby".to_string(); 243];
    let mut solver = Solver::bind_with_cache(&game, cache).expect("cache accepted");
    let (opening, _score) = solver.new_guess(0);
    assert_eq!(opening.state, "tares".to_string());
    solver.try_guess(opening, &mut game).expect("legal");
    let (second, _score) = solver.new_guess(1);
    // the entropy scan would pick another word; the lookup table answers
    assert_eq!(second.state, "bobby".to_string());
}

#[test]
fn consistent_cache_matches_the_scan() {
    // two solvers bound to the same lexicon: one runs the full scan at round
    // 1, the other answers from a cache whose entry for the observed verdict
    // holds exactly the scan's choice; their guesses must agree
    let mut game_scan = sample_game(0);
    let mut plain = Solver::bind(&game_scan);
    let (opening, _s) = plain.new_guess(0);
    let verdict = plain.try_guess(opening, &mut game_scan).expect("legal");
    let (scan_pick, _s) = plain.new_guess(1);

    let mut game_cached = sample_game(0);
    let mut entries = vec!["crane".to_string(); 243];
    entries[pattern_index(&verdict.states)] = scan_pick.state.clone();
    let mut cached = Solver::bind_with_cache(&game_cached, entries).expect("cache accepted");
    let (opening2, _s) = cached.new_guess(0);
    cached.try_guess(opening2, &mut game_cached).expect("legal");
    let (cache_pick, _s) = cached.new_guess(1);
    assert_eq!(cache_pick.state, scan_pick.state);
}
