use wordsolve::batch::TrialRecord;
use wordsolve::batch::fold_records;
use wordsolve::batch::run_trial;
use wordsolve::batch::worker_owns;
use wordsolve::game::Game;
use wordsolve::game::GameState;
use wordsolve::solver::Solver;

fn words(ws: &[&str]) -> Vec<String> {
    ws.iter().map(|w| w.to_string()).collect()
}

#[test]
fn every_secret_in_pool_converges() {
    let mut game = Game::from_lexicon(
        words(&["speed", "crane", "lucky", "abbey", "bobby", "spend"]),
        words(&["tares", "tears", "stare"]),
    )
    .expect("legal pools");
    let mut solver = Solver::bind(&game);
    let total = game.answers.len();
    for i in 0..total {
        let record = run_trial(&mut game, &mut solver, i);
        assert!(record.solved, "secret {} was not found", i);
        assert!(record.attempts <= 21);
        assert_eq!(game.state, GameState::Correct);
    }
}

#[test]
fn trial_against_missing_opener_reports_unsolved() {
    // the fixed opener is not a legal guess here, so no round ever grades
    let mut game = Game::from_lexicon(words(&["speed"]), words(&[])).expect("legal pools");
    let mut solver = Solver::bind(&game);
    let record = run_trial(&mut game, &mut solver, 0);
    assert!(!record.solved);
    assert!(!record.failed);
    assert_eq!(record.attempts, 21);
}

#[test]
fn quick_solve_is_not_a_failure() {
    let mut game = Game::from_lexicon(words(&["speed", "crane"]), words(&["tares"]))
        .expect("legal pools");
    let mut solver = Solver::bind(&game);
    let record = run_trial(&mut game, &mut solver, 0);
    assert!(record.solved);
    assert!(record.attempts <= 6);
    assert!(!record.failed);
}

#[test]
fn fold_records_sums_and_counts() {
    let records = vec![
        TrialRecord { attempts: 3, solved: true, failed: false },
        TrialRecord { attempts: 7, solved: true, failed: true },
        TrialRecord { attempts: 21, solved: false, failed: false },
        TrialRecord { attempts: 4, solved: true, failed: false },
    ];
    let totals = fold_records(&records);
    assert_eq!(totals.trials, 4);
    assert_eq!(totals.attempt_sum, 35);
    assert_eq!(totals.failures, 1);
    assert_eq!(totals.unsolved, 1);
}

#[test]
fn fold_of_no_records_is_zero() {
    let totals = fold_records(&Vec::new());
    assert_eq!(totals.trials, 0);
    assert_eq!(totals.attempt_sum, 0);
    assert_eq!(totals.failures, 0);
    assert_eq!(totals.unsolved, 0);
}

#[test]
fn round_robin_ownership_partitions_indices() {
    let total = 3;
    for i in 0..20 {
        let owners: Vec<usize> = (0..total).filter(|t| worker_owns(i, *t, total)).collect();
        assert_eq!(owners, vec![i % total]);
    }
}
