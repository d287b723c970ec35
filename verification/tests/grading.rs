use wordsolve::game::Game;
use wordsolve::game::Guess;
use wordsolve::game::GuessState;
use wordsolve::game::Match;
use wordsolve::game::grade_word;

fn words(ws: &[&str]) -> Vec<String> {
    ws.iter().map(|w| w.to_string()).collect()
}

fn game_with_secret(secret: &str, extra: &[&str]) -> Game {
    let mut game = Game::from_lexicon(words(&[secret]), words(extra)).expect("legal pools");
    game.set_game_with_answer_index(0);
    game
}

#[test]
fn grade_duplicate_letters_exact() {
    let game = game_with_secret("abbey", &["bobby"]);
    let m = game.grade_guess(&Guess { state: "bobby".to_string() });
    assert_eq!(
        m.states,
        [
            GuessState::Misplace,
            GuessState::Wrong,
            GuessState::Correct,
            GuessState::Wrong,
            GuessState::Correct,
        ]
    );
}

#[test]
fn grade_word_against_itself_is_all_correct() {
    for w in ["speed", "abbey", "lucky", "tares", "zonal"] {
        let m = grade_word(&w.to_string(), &w.to_string());
        assert!(m.is_correct());
    }
}

#[test]
fn grade_is_pure_across_calls() {
    let game = game_with_secret("speed", &["tares"]);
    let g = Guess { state: "tares".to_string() };
    let first = game.grade_guess(&g);
    let second = game.grade_guess(&g);
    assert_eq!(first.states, second.states);
}

#[test]
fn grade_speed_against_tares() {
    let game = game_with_secret("speed", &["tares"]);
    let m = game.grade_guess(&Guess { state: "tares".to_string() });
    assert_eq!(
        m.states,
        [
            GuessState::Wrong,
            GuessState::Wrong,
            GuessState::Wrong,
            GuessState::Correct,
            GuessState::Misplace,
        ]
    );
    assert!(!m.is_correct());
}

#[test]
fn grade_no_shared_letters_is_all_wrong() {
    let m = grade_word(&"speed".to_string(), &"lucky".to_string());
    assert_eq!(
        m.states,
        [
            GuessState::Wrong,
            GuessState::Wrong,
            GuessState::Wrong,
            GuessState::Wrong,
            GuessState::Wrong,
        ]
    );
}

#[test]
fn repeated_guess_letter_claims_secret_count_once() {
    // the secret holds a single 'e', already consumed by the exact match at
    // the last position, so the guess's earlier 'e's come out Wrong
    let m = grade_word(&"crane".to_string(), &"melee".to_string());
    assert_eq!(m.states[1], GuessState::Wrong);
    assert_eq!(m.states[3], GuessState::Wrong);
    assert_eq!(m.states[4], GuessState::Correct);
    // a spare copy goes to the leftmost unmatched occurrence only
    let m2 = grade_word(&"erode".to_string(), &"melee".to_string());
    assert_eq!(m2.states[1], GuessState::Misplace);
    assert_eq!(m2.states[3], GuessState::Wrong);
    assert_eq!(m2.states[4], GuessState::Correct);
}

#[test]
fn match_new_is_blank() {
    let m = Match::new();
    assert_eq!(m.states, [GuessState::Wrong; 5]);
    assert!(!m.is_correct());
}

#[test]
fn match_is_correct_requires_every_position() {
    let mut m = Match::new();
    m.states = [GuessState::Correct; 5];
    assert!(m.is_correct());
    m.states[4] = GuessState::Misplace;
    assert!(!m.is_correct());
}
