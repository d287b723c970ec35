use wordsolve::game::Game;
use wordsolve::game::GameState;
use wordsolve::game::Guess;
use wordsolve::game::is_wf_word;

fn words(ws: &[&str]) -> Vec<String> {
    ws.iter().map(|w| w.to_string()).collect()
}

#[test]
fn from_lexicon_concatenates_pools() {
    let game = Game::from_lexicon(words(&["speed", "crane"]), words(&["tares", "lucky"]))
        .expect("legal pools");
    assert_eq!(game.candidates, words(&["tares", "lucky", "speed", "crane"]));
    assert_eq!(game.answers, words(&["speed", "crane"]));
    assert_eq!(game.round, 0);
    assert_eq!(game.state, GameState::On);
}

#[test]
fn from_lexicon_rejects_empty_answer_pool() {
    assert!(Game::from_lexicon(words(&[]), words(&["tares"])).is_none());
}

#[test]
fn from_lexicon_rejects_malformed_words() {
    assert!(Game::from_lexicon(words(&["abc"]), words(&[])).is_none());
    assert!(Game::from_lexicon(words(&["speed"]), words(&["toolong"])).is_none());
    assert!(Game::from_lexicon(words(&["SPEED"]), words(&[])).is_none());
}

#[test]
fn word_well_formedness() {
    assert!(is_wf_word(&"speed".to_string()));
    assert!(!is_wf_word(&"spee".to_string()));
    assert!(!is_wf_word(&"spee1".to_string()));
    assert!(!is_wf_word(&"Speed".to_string()));
}

#[test]
fn check_valid_guess_is_membership() {
    let game = Game::from_lexicon(words(&["speed"]), words(&["tares"])).expect("legal pools");
    assert!(game.check_valid_guess(&Guess { state: "tares".to_string() }));
    assert!(game.check_valid_guess(&Guess { state: "speed".to_string() }));
    assert!(!game.check_valid_guess(&Guess { state: "crane".to_string() }));
    assert!(!game.check_valid_guess(&Guess { state: "spee".to_string() }));
}

#[test]
fn progress_game_wrong_consumes_round() {
    let mut game = Game::from_lexicon(words(&["speed"]), words(&["tares"])).expect("legal pools");
    game.set_game_with_answer_index(0);
    let m = game.grade_guess(&Guess { state: "tares".to_string() });
    game.progress_game(&m);
    assert_eq!(game.state, GameState::On);
    assert_eq!(game.round(), 1);
}

#[test]
fn progress_game_correct_keeps_round_and_ends() {
    let mut game = Game::from_lexicon(words(&["speed"]), words(&["tares"])).expect("legal pools");
    game.set_game_with_answer_index(0);
    let m = game.grade_guess(&Guess { state: "speed".to_string() });
    assert!(m.is_correct());
    game.progress_game(&m);
    assert_eq!(game.state, GameState::Correct);
    assert_eq!(game.round(), 0);
}

#[test]
fn inc_round_counts_up() {
    let mut game = Game::from_lexicon(words(&["speed"]), words(&[])).expect("legal pools");
    assert_eq!(game.round(), 0);
    game.inc_round();
    game.inc_round();
    assert_eq!(game.round(), 2);
}

#[test]
fn set_game_with_answer_index_restarts() {
    let mut game =
        Game::from_lexicon(words(&["speed", "crane"]), words(&["tares"])).expect("legal pools");
    game.inc_round();
    game.set_game_with_answer_index(1);
    assert_eq!(game.answer(), "crane".to_string());
    assert_eq!(game.round(), 0);
    assert_eq!(game.state, GameState::On);
}

#[test]
fn reset_draws_secret_from_answer_pool() {
    let answers = words(&["speed", "crane", "lucky"]);
    let mut game = Game::from_lexicon(answers.clone(), words(&["tares"])).expect("legal pools");
    for _ in 0..20 {
        game.reset();
        assert!(answers.contains(&game.answer()));
        assert_eq!(game.round(), 0);
        assert_eq!(game.state, GameState::On);
    }
}

#[test]
fn answer_reveals_the_secret() {
    let mut game = Game::from_lexicon(words(&["speed"]), words(&[])).expect("legal pools");
    game.set_game_with_answer_index(0);
    assert_eq!(game.answer(), "speed".to_string());
}

#[test]
fn submit_guess_rejects_illegal_without_cost() {
    let mut game = Game::from_lexicon(words(&["speed"]), words(&["tares"])).expect("legal pools");
    game.set_game_with_answer_index(0);
    let r = game.submit_guess(&Guess { state: "crane".to_string() });
    assert!(r.is_none());
    assert_eq!(game.round(), 0);
    assert_eq!(game.state, GameState::On);
}

#[test]
fn submit_guess_grades_and_progresses() {
    let mut game = Game::from_lexicon(words(&["speed"]), words(&["tares"])).expect("legal pools");
    game.set_game_with_answer_index(0);
    let m = game.submit_guess(&Guess { state: "tares".to_string() }).expect("legal");
    assert!(!m.is_correct());
    assert_eq!(game.round(), 1);
    assert_eq!(game.state, GameState::On);
    let m2 = game.submit_guess(&Guess { state: "speed".to_string() }).expect("legal");
    assert!(m2.is_correct());
    assert_eq!(game.round(), 1);
    assert_eq!(game.state, GameState::Correct);
}

#[test]
fn turn_limit_moves_game_over() {
    let mut game = Game::from_lexicon(words(&["speed"]), words(&["tares"])).expect("legal pools");
    game.set_game_with_answer_index(0);
    for _ in 0..6 {
        game.submit_guess(&Guess { state: "tares".to_string() }).expect("legal");
        game.enforce_turn_limit(6);
    }
    assert_eq!(game.round(), 6);
    assert_eq!(game.state, GameState::Over);
    // a won game is never moved to Over
    let mut won = Game::from_lexicon(words(&["speed"]), words(&["tares"])).expect("legal pools");
    won.set_game_with_answer_index(0);
    won.submit_guess(&Guess { state: "speed".to_string() }).expect("legal");
    won.enforce_turn_limit(0);
    assert_eq!(won.state, GameState::Correct);
}
