//! Batch evaluation: run the solver to completion against chosen secrets and
//! fold the per-trial records into aggregate statistics. Workers that run
//! trials in parallel each own a private game and solver and hand back plain
//! records; only the final single-threaded fold combines them.
use crate::game::all_correct;
use crate::game::grade_spec;
use crate::game::word_in_pool;
use crate::game::Game;
use crate::game::GameState;
use crate::game::GuessState;
use crate::solver::compatible;
use crate::solver::opening_word;
use crate::solver::pattern_index_spec;
use crate::solver::scan_choice;
use crate::solver::Solver;
use vstd::prelude::*;

verus! {

/// The outcome of solving one secret: guesses submitted, whether the secret
/// was found, and whether finding it took more than the six allowed rounds.
#[derive(Debug, Clone, Copy, PartialEq, Eq, Structural)]
pub struct TrialRecord {
    pub attempts: u64,
    pub solved: bool,
    pub failed: bool,
}

impl TrialRecord {
    /// Attempts stay within the hard ceiling and the flags are consistent:
    /// `failed` marks a solve that needed more than six attempts.
    pub open spec fn wf(&self) -> bool {
        &&& 1 <= self.attempts <= 21
        &&& self.failed == (self.solved && self.attempts > 6)
    }
}

/// Aggregate statistics over a batch of trials.
#[derive(Debug, Clone, Copy, PartialEq, Eq, Structural)]
pub struct BatchTotals {
    pub trials: u64,
    pub attempt_sum: u64,
    pub failures: u64,
    pub unsolved: u64,
}

/// Total attempts over the first `n` records.
pub open spec fn sum_attempts(rs: Seq<TrialRecord>, n: int) -> int
    decreases n,
{
    if n <= 0 {
        0
    } else {
        sum_attempts(rs, n - 1) + rs[n - 1].attempts
    }
}

/// Failed trials (solved, but over six attempts) among the first `n`.
pub open spec fn count_failures(rs: Seq<TrialRecord>, n: int) -> int
    decreases n,
{
    if n <= 0 {
        0
    } else {
        count_failures(rs, n - 1) + (if rs[n - 1].failed {
            1int
        } else {
            0int
        })
    }
}

/// Unsolved trials (the ceiling ran out) among the first `n`.
pub open spec fn count_unsolved(rs: Seq<TrialRecord>, n: int) -> int
    decreases n,
{
    if n <= 0 {
        0
    } else {
        count_unsolved(rs, n - 1) + (if rs[n - 1].solved {
            0int
        } else {
            1int
        })
    }
}

proof fn lemma_sum_attempts_bound(rs: Seq<TrialRecord>, n: int)
    requires
        0 <= n <= rs.len(),
        forall|k: int| 0 <= k < rs.len() ==> (#[trigger] rs[k]).wf(),
    ensures
        0 <= sum_attempts(rs, n) <= 21 * n,
    decreases n,
{
    if n > 0 {
        lemma_sum_attempts_bound(rs, n - 1);
    }
}

/// The valid-set mask after observing that `guess` received `verdict`.
pub open spec fn narrowed_mask(
    cands: Seq<String>,
    mask: Seq<bool>,
    guess: Seq<char>,
    verdict: Seq<GuessState>,
) -> Seq<bool> {
    Seq::new(mask.len(), |i: int| mask[i] && compatible(cands[i]@, guess, verdict))
}

/// The guess the solver emits in a simulated trial state: the fixed opener
/// at round 0; at round 1 with the cache enabled, the lookup on the opener's
/// verdict (the only observation a trial can have made by then); otherwise
/// the full scan of the pool against the valid set.
pub open spec fn trial_guess(
    answer: Seq<char>,
    scands: Seq<String>,
    use_cache: bool,
    cache: Seq<String>,
    mask: Seq<bool>,
    round: int,
) -> Seq<char> {
    if round == 0 {
        opening_word()
    } else if use_cache && round == 1 {
        cache[pattern_index_spec(grade_spec(answer, opening_word()))]@
    } else {
        scan_choice(scands, mask)
    }
}

/// One simulated trial, continued from a mid-trial state: `mask` is the
/// solver's valid set, `round` the game's round, `count` the submissions
/// made so far. Each step submits the solver's guess: an illegal guess
/// changes nothing but consumes an attempt, a winning verdict ends the trial
/// solved, any other verdict narrows the mask and advances the round. The
/// result is the pair (attempts consumed, solved) once a winning verdict
/// lands or the ceiling of 21 submissions runs out.
pub open spec fn trial_outcome(
    answer: Seq<char>,
    gcands: Seq<String>,
    scands: Seq<String>,
    use_cache: bool,
    cache: Seq<String>,
    mask: Seq<bool>,
    round: int,
    count: int,
) -> (int, bool)
    decreases 21 - count,
{
    if count >= 21 {
        (count, false)
    } else {
        let g = trial_guess(answer, scands, use_cache, cache, mask, round);
        if !word_in_pool(gcands, g) {
            trial_outcome(answer, gcands, scands, use_cache, cache, mask, round, count + 1)
        } else {
            let v = grade_spec(answer, g);
            if all_correct(v) {
                (count + 1, true)
            } else {
                trial_outcome(
                    answer,
                    gcands,
                    scands,
                    use_cache,
                    cache,
                    narrowed_mask(scands, mask, g, v),
                    round + 1,
                    count + 1,
                )
            }
        }
    }
}

/// The whole trial of one secret against the pools and solver configuration,
/// from the freshly reset state: full mask, round 0, no submissions yet.
pub open spec fn trial_spec(
    answer: Seq<char>,
    gcands: Seq<String>,
    scands: Seq<String>,
    use_cache: bool,
    cache: Seq<String>,
) -> (int, bool) {
    trial_outcome(
        answer,
        gcands,
        scands,
        use_cache,
        cache,
        Seq::new(scands.len(), |i: int| true),
        0,
        0,
    )
}

/// Set the game's secret to the `answer_index`-th answer word, reset the
/// solver, and play rounds until the verdict is all-`Correct` or the hard
/// ceiling of 21 submissions runs out. The record is exactly the outcome of
/// the simulated trial `trial_spec`: attempts and the solved flag are tied,
/// step by step, to the guesses the solver's contracts prescribe. A solved
/// trial leaves the game in `Correct` and nothing else does; the pools are
/// untouched either way.
pub fn run_trial(game: &mut Game, solver: &mut Solver, answer_index: usize) -> (r: TrialRecord)
    requires
        old(game).wf(),
        old(solver).inv(),
        answer_index < old(game).answers@.len(),
    ensures
        r.wf(),
        (r.attempts as int, r.solved) == trial_spec(
            old(game).answers@[answer_index as int]@,
            old(game).candidates@,
            old(solver).candidates@,
            old(solver).use_cache,
            old(solver).cache@,
        ),
        r.solved <==> final (game).state == GameState::Correct,
        !r.solved ==> r.attempts == 21,
        final (game).spec_answer() == old(game).answers@[answer_index as int]@,
        final (game).wf(),
        final (game).answers == old(game).answers,
        final (game).candidates == old(game).candidates,
        final (solver).inv(),
        final (solver).candidates@ == old(solver).candidates@,
{
    let ghost answer = old(game).answers@[answer_index as int]@;
    let ghost gcands = old(game).candidates@;
    let ghost scands = old(solver).candidates@;
    let ghost uc = old(solver).use_cache;
    let ghost cch = old(solver).cache@;
    game.set_game_with_answer_index(answer_index);
    solver.reset();
    proof {
        assert(solver.valid_table@ =~= Seq::new(scands.len(), |i: int| true));
    }
    let mut count: u64 = 0;
    let mut solved = false;
    while count < 21 && !solved
        invariant
            count <= 21,
            game.wf(),
            solver.inv(),
            solver.synced(),
            answer == old(game).answers@[answer_index as int]@,
            gcands == old(game).candidates@,
            scands == old(solver).candidates@,
            uc == old(solver).use_cache,
            cch == old(solver).cache@,
            game.spec_answer() == answer,
            game.candidates@ == gcands,
            solver.candidates@ == scands,
            solver.use_cache == uc,
            solver.cache@ == cch,
            game.spec_round() <= count,
            game.answers == old(game).answers,
            game.candidates == old(game).candidates,
            !solved ==> game.state == GameState::On,
            !solved ==> solver.patterns@.len() == game.spec_round(),
            !solved ==> (game.spec_round() >= 1 ==> solver.patterns@[0].chars@ == opening_word()
                && solver.patterns@[0].state@ == grade_spec(answer, opening_word())),
            !solved ==> trial_outcome(
                answer,
                gcands,
                scands,
                uc,
                cch,
                solver.valid_table@,
                game.spec_round(),
                count as int,
            ) == trial_spec(answer, gcands, scands, uc, cch),
            solved ==> (count as int, true) == trial_spec(answer, gcands, scands, uc, cch),
            solved ==> game.state == GameState::Correct,
            solved ==> count >= 1,
        decreases 21 - count + (if solved {
            0int
        } else {
            1int
        }),
    {
        count = count + 1;
        let round = game.round();
        let ghost pre_mask = solver.valid_table@;
        let ghost pre_round = game.spec_round();
        let ghost pre_count = count as int - 1;
        let (guess, _score) = solver.new_guess(round as u8);
        proof {
            let round8 = round as u8;
            if pre_round == 0 {
                assert(guess.state@ == opening_word());
            } else if uc && pre_round == 1 {
                assert(solver.cache_hit(round8));
                assert(guess.state@ == solver.cache@[pattern_index_spec(
                    solver.patterns@[0].state@,
                )]@);
            } else {
                assert(!solver.cache_hit(round8));
                assert(guess.state@ == scan_choice(scands, pre_mask));
            }
            assert(guess.state@ == trial_guess(answer, scands, uc, cch, pre_mask, pre_round));
        }
        let one_match = solver.try_guess(guess, game);
        match one_match {
            Some(one) => {
                if one.is_correct() {
                    solved = true;
                }
            },
            None => {},
        }
        proof {
            let g = trial_guess(answer, scands, uc, cch, pre_mask, pre_round);
            if !word_in_pool(gcands, g) {
                assert(trial_outcome(
                    answer,
                    gcands,
                    scands,
                    uc,
                    cch,
                    pre_mask,
                    pre_round,
                    pre_count,
                ) == trial_outcome(
                    answer,
                    gcands,
                    scands,
                    uc,
                    cch,
                    pre_mask,
                    pre_round,
                    pre_count + 1,
                ));
            } else {
                let v = grade_spec(answer, g);
                if all_correct(v) {
                    assert(solved);
                    assert(trial_outcome(
                        answer,
                        gcands,
                        scands,
                        uc,
                        cch,
                        pre_mask,
                        pre_round,
                        pre_count,
                    ) == (pre_count + 1, true));
                } else {
                    assert(solver.valid_table@ =~= narrowed_mask(scands, pre_mask, g, v));
                    assert(trial_outcome(
                        answer,
                        gcands,
                        scands,
                        uc,
                        cch,
                        pre_mask,
                        pre_round,
                        pre_count,
                    ) == trial_outcome(
                        answer,
                        gcands,
                        scands,
                        uc,
                        cch,
                        narrowed_mask(scands, pre_mask, g, v),
                        pre_round + 1,
                        pre_count + 1,
                    ));
                }
            }
        }
    }
    proof {
        if !solved {
            assert(trial_outcome(
                answer,
                gcands,
                scands,
                uc,
                cch,
                solver.valid_table@,
                game.spec_round(),
                21,
            ) == (21int, false));
        }
    }
    TrialRecord { attempts: count, solved, failed: solved && count > 6 }
}

/// Does worker `t` of `total` own trial index `i`? The answer pool is
/// partitioned round-robin: index `i` belongs to worker `i % total`.
pub fn worker_owns(i: usize, t: usize, total: usize) -> (r: bool)
    requires
        total > 0,
    ensures
        r == ((i as int) % (total as int) == t as int),
{
    i % total == t
}

/// The round-robin partition is a partition: every trial index is owned by
/// exactly one worker, and that worker's number is below the worker count.
pub proof fn lemma_round_robin_partition(i: int, t1: int, t2: int, total: int)
    requires
        total > 0,
        i >= 0,
        i % total == t1,
        i % total == t2,
    ensures
        t1 == t2,
        0 <= t1 < total,
{
}

/// Fold a batch of per-trial records into totals: trial count, summed
/// attempts, failures and unsolved counts. Sums and counts only, so the
/// result does not depend on which worker finished first.
pub fn fold_records(records: &Vec<TrialRecord>) -> (t: BatchTotals)
    requires
        records@.len() < 4294967296,
        forall|k: int| 0 <= k < records@.len() ==> (#[trigger] records@[k]).wf(),
    ensures
        t.trials == records@.len(),
        t.attempt_sum == sum_attempts(records@, records@.len() as int),
        t.failures == count_failures(records@, records@.len() as int),
        t.unsolved == count_unsolved(records@, records@.len() as int),
{
    let n = records.len();
    let mut attempt_sum: u64 = 0;
    let mut failures: u64 = 0;
    let mut unsolved: u64 = 0;
    let mut j: usize = 0;
    while j < n
        invariant
            j <= n == records@.len(),
            n < 4294967296,
            forall|k: int| 0 <= k < records@.len() ==> (#[trigger] records@[k]).wf(),
            attempt_sum == sum_attempts(records@, j as int),
            failures == count_failures(records@, j as int),
            unsolved == count_unsolved(records@, j as int),
            failures <= j,
            unsolved <= j,
        decreases n - j,
    {
        proof {
            lemma_sum_attempts_bound(records@, j as int);
        }
        let rec = records[j];
        attempt_sum = attempt_sum + rec.attempts;
        if rec.failed {
            failures = failures + 1;
        }
        if !rec.solved {
            unsolved = unsolved + 1;
        }
        j = j + 1;
    }
    BatchTotals { trials: n as u64, attempt_sum, failures, unsolved }
}

} // verus!
