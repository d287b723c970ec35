//! The five-letter guessing game: words, per-letter verdicts, and the
//! grading engine with exact duplicate-letter (multiset) semantics.
use vstd::multiset::Multiset;
use vstd::prelude::*;

verus! {

/// Verdict for a single letter of a guess, ordered `Wrong < Misplace < Correct`.
#[derive(PartialEq, Eq, Structural, PartialOrd, Ord, Debug, Clone, Copy)]
pub enum GuessState {
    Wrong,
    Misplace,
    Correct,
}

/// A guess submitted to the game; `state` holds the word itself.
#[derive(Clone, Debug)]
pub struct Guess {
    pub state: String,
}

/// `c` is one of the twenty-six lowercase letters.
pub open spec fn is_lower_letter(c: char) -> bool {
    'a' <= c && c <= 'z'
}

/// A well-formed word: exactly five lowercase letters.
pub open spec fn wf_word(w: Seq<char>) -> bool {
    &&& w.len() == 5
    &&& forall|i: int| 0 <= i < 5 ==> is_lower_letter(#[trigger] w[i])
}

/// Number of occurrences of `c` among the first `n` characters of `s`.
pub open spec fn count_upto(s: Seq<char>, c: char, n: int) -> nat
    decreases n,
{
    if n <= 0 {
        0
    } else {
        count_upto(s, c, n - 1) + (if s[n - 1] == c {
            1nat
        } else {
            0nat
        })
    }
}

/// Number of occurrences of `c` in a five-letter word.
pub open spec fn letter_count(s: Seq<char>, c: char) -> nat {
    count_upto(s, c, 5)
}

/// Among the first `n` positions, how many are exact matches carrying letter `c`.
pub open spec fn correct_upto(secret: Seq<char>, guess: Seq<char>, c: char, n: int) -> nat
    decreases n,
{
    if n <= 0 {
        0
    } else {
        correct_upto(secret, guess, c, n - 1) + (if guess[n - 1] == c && secret[n - 1] == guess[n
            - 1] {
            1nat
        } else {
            0nat
        })
    }
}

/// Among the first `n` positions, how many carry letter `c` without an exact match.
/// Scanning left to right, these are the positions that compete for the
/// secret's spare copies of `c`.
pub open spec fn noncorrect_upto(secret: Seq<char>, guess: Seq<char>, c: char, n: int) -> nat
    decreases n,
{
    if n <= 0 {
        0
    } else {
        noncorrect_upto(secret, guess, c, n - 1) + (if guess[n - 1] == c && secret[n - 1] != guess[n
            - 1] {
            1nat
        } else {
            0nat
        })
    }
}

/// The verdict the grading engine owes position `i`, stated in closed form.
///
/// An exact match is `Correct`. Otherwise the position is `Misplace` exactly
/// when the secret still has a spare copy of the letter: copies of `c` in the
/// secret that are not consumed by exact matches are handed out, left to
/// right, to the non-matching positions of the guess that carry `c`. This is
/// precisely what the two-pass count-decrementing protocol computes.
pub open spec fn verdict_at(secret: Seq<char>, guess: Seq<char>, i: int) -> GuessState {
    if guess[i] == secret[i] {
        GuessState::Correct
    } else if noncorrect_upto(secret, guess, guess[i], i) + correct_upto(secret, guess, guess[i], 5)
        < letter_count(secret, guess[i]) {
        GuessState::Misplace
    } else {
        GuessState::Wrong
    }
}

/// The full five-position verdict for grading `guess` against `secret`.
pub open spec fn grade_spec(secret: Seq<char>, guess: Seq<char>) -> Seq<GuessState> {
    Seq::new(5, |i: int| verdict_at(secret, guess, i))
}

/// All five positions of `v` are `Correct`.
pub open spec fn all_correct(v: Seq<GuessState>) -> bool {
    &&& v.len() == 5
    &&& forall|i: int| 0 <= i < 5 ==> #[trigger] v[i] == GuessState::Correct
}

/// A five-position verdict, one entry per guess letter.
#[derive(Debug, Clone)]
pub struct Match {
    pub states: [GuessState; 5],
}

impl Match {
    /// The verdict reports a win exactly when every position is `Correct`.
    pub fn is_correct(&self) -> (r: bool)
        ensures
            r == all_correct(self.states@),
    {
        self.states[0] == GuessState::Correct && self.states[1] == GuessState::Correct
            && self.states[2] == GuessState::Correct && self.states[3] == GuessState::Correct
            && self.states[4] == GuessState::Correct
    }

    /// A fresh verdict holding `Wrong` everywhere.
    pub fn new() -> (m: Match)
        ensures
            m.states@.len() == 5,
            forall|i: int| 0 <= i < 5 ==> m.states@[i] == GuessState::Wrong,
    {
        Match {
            states: [
                GuessState::Wrong,
                GuessState::Wrong,
                GuessState::Wrong,
                GuessState::Wrong,
                GuessState::Wrong,
            ],
        }
    }
}

impl Default for Match {
    fn default() -> (m: Match)
        ensures
            forall|i: int| 0 <= i < 5 ==> m.states@[i] == GuessState::Wrong,
    {
        Match::new()
    }
}

/// Occurrences of `c` among the first `n` characters of `w`.
fn count_letter_upto(w: &String, c: char, n: usize) -> (r: usize)
    requires
        n <= w@.len(),
    ensures
        r == count_upto(w@, c, n as int),
        r <= n,
{
    let mut r: usize = 0;
    let mut j: usize = 0;
    while j < n
        invariant
            j <= n <= w@.len(),
            r == count_upto(w@, c, j as int),
            r <= j,
        decreases n - j,
    {
        if w.as_str().get_char(j) == c {
            r = r + 1;
        }
        j = j + 1;
    }
    r
}

/// Exact matches carrying `c` among the first `n` positions.
fn count_correct_upto(secret: &String, guess: &String, c: char, n: usize) -> (r: usize)
    requires
        n <= secret@.len(),
        n <= guess@.len(),
    ensures
        r == correct_upto(secret@, guess@, c, n as int),
        r <= n,
{
    let mut r: usize = 0;
    let mut j: usize = 0;
    while j < n
        invariant
            j <= n <= secret@.len(),
            n <= guess@.len(),
            r == correct_upto(secret@, guess@, c, j as int),
            r <= j,
        decreases n - j,
    {
        let gc = guess.as_str().get_char(j);
        if gc == c && secret.as_str().get_char(j) == gc {
            r = r + 1;
        }
        j = j + 1;
    }
    r
}

/// Non-matching positions carrying `c` among the first `n` positions.
fn count_noncorrect_upto(secret: &String, guess: &String, c: char, n: usize) -> (r: usize)
    requires
        n <= secret@.len(),
        n <= guess@.len(),
    ensures
        r == noncorrect_upto(secret@, guess@, c, n as int),
        r <= n,
{
    let mut r: usize = 0;
    let mut j: usize = 0;
    while j < n
        invariant
            j <= n <= secret@.len(),
            n <= guess@.len(),
            r == noncorrect_upto(secret@, guess@, c, j as int),
            r <= j,
        decreases n - j,
    {
        let gc = guess.as_str().get_char(j);
        if gc == c && secret.as_str().get_char(j) != gc {
            r = r + 1;
        }
        j = j + 1;
    }
    r
}

/// The verdict owed to position `i` when grading `guess` against `secret`.
fn grade_position(secret: &String, guess: &String, i: usize) -> (r: GuessState)
    requires
        secret@.len() == 5,
        guess@.len() == 5,
        i < 5,
    ensures
        r == verdict_at(secret@, guess@, i as int),
{
    let gc = guess.as_str().get_char(i);
    let sc = secret.as_str().get_char(i);
    if gc == sc {
        GuessState::Correct
    } else {
        let have = count_letter_upto(secret, gc, 5);
        let claimed = count_correct_upto(secret, guess, gc, 5);
        let before = count_noncorrect_upto(secret, guess, gc, i);
        if before + claimed < have {
            GuessState::Misplace
        } else {
            GuessState::Wrong
        }
    }
}

/// Grade `guess` against `secret`: the two-pass multiset protocol, so a
/// repeated guess letter is honoured at most as often as the secret holds it.
pub fn grade_word(secret: &String, guess: &String) -> (m: Match)
    requires
        secret@.len() == 5,
        guess@.len() == 5,
    ensures
        m.states@ == grade_spec(secret@, guess@),
{
    let mut m = Match::new();
    m.states[0] = grade_position(secret, guess, 0);
    m.states[1] = grade_position(secret, guess, 1);
    m.states[2] = grade_position(secret, guess, 2);
    m.states[3] = grade_position(secret, guess, 3);
    m.states[4] = grade_position(secret, guess, 4);
    proof {
        assert(m.states@ =~= grade_spec(secret@, guess@));
    }
    m
}

/// Grading a word against itself yields `Correct` everywhere.
pub proof fn lemma_grade_self_correct(w: Seq<char>)
    requires
        wf_word(w),
    ensures
        all_correct(grade_spec(w, w)),
{
    assert forall|i: int| 0 <= i < 5 implies #[trigger] grade_spec(w, w)[i]
        == GuessState::Correct by {
        assert(verdict_at(w, w, i) == GuessState::Correct);
    }
}

/// The secret's letters at positions the first pass leaves open, among the
/// first `n` positions: one copy of `secret[j]` for every `j` that is not an
/// exact match.
pub open spec fn spare_letters_upto(secret: Seq<char>, guess: Seq<char>, n: int) -> Multiset<char>
    decreases n,
{
    if n <= 0 {
        Multiset::empty()
    } else if secret[n - 1] != guess[n - 1] {
        spare_letters_upto(secret, guess, n - 1).insert(secret[n - 1])
    } else {
        spare_letters_upto(secret, guess, n - 1)
    }
}

/// The letter multiset the second pass starts from: the secret's letters
/// with the exact matches already discounted.
pub open spec fn first_pass_remainder(secret: Seq<char>, guess: Seq<char>) -> Multiset<char> {
    spare_letters_upto(secret, guess, 5)
}

/// The second pass of the two-pass protocol, from position `i` with the
/// remaining copies `rem`: an exact match is `Correct`; otherwise a
/// remaining copy of the guess letter is consumed for a `Misplace`, and with
/// none left the position is `Wrong`.
pub open spec fn two_pass_from(
    secret: Seq<char>,
    guess: Seq<char>,
    i: int,
    rem: Multiset<char>,
) -> Seq<GuessState>
    decreases 5 - i,
{
    if i < 0 || i >= 5 {
        Seq::empty()
    } else if guess[i] == secret[i] {
        seq![GuessState::Correct] + two_pass_from(secret, guess, i + 1, rem)
    } else if rem.count(guess[i]) > 0 {
        seq![GuessState::Misplace] + two_pass_from(secret, guess, i + 1, rem.remove(guess[i]))
    } else {
        seq![GuessState::Wrong] + two_pass_from(secret, guess, i + 1, rem)
    }
}

/// Spare copies of `c` among the first `n` positions, counted positionally.
pub open spec fn spare_count_upto(secret: Seq<char>, guess: Seq<char>, c: char, n: int) -> nat
    decreases n,
{
    if n <= 0 {
        0
    } else {
        spare_count_upto(secret, guess, c, n - 1) + (if secret[n - 1] == c && secret[n - 1]
            != guess[n - 1] {
            1nat
        } else {
            0nat
        })
    }
}

proof fn lemma_spare_letters_count(secret: Seq<char>, guess: Seq<char>, c: char, n: int)
    requires
        0 <= n,
    ensures
        spare_letters_upto(secret, guess, n).count(c) == spare_count_upto(secret, guess, c, n),
    decreases n,
{
    broadcast use vstd::multiset::group_multiset_axioms;

    if n > 0 {
        lemma_spare_letters_count(secret, guess, c, n - 1);
    }
}

/// Every occurrence of `c` in the secret is either an exact match or a spare
/// copy.
proof fn lemma_count_partition(secret: Seq<char>, guess: Seq<char>, c: char, n: int)
    requires
        0 <= n,
    ensures
        count_upto(secret, c, n) == correct_upto(secret, guess, c, n) + spare_count_upto(
            secret,
            guess,
            c,
            n,
        ),
    decreases n,
{
    if n > 0 {
        lemma_count_partition(secret, guess, c, n - 1);
    }
}

proof fn lemma_two_pass_from(secret: Seq<char>, guess: Seq<char>, i: int, rem: Multiset<char>)
    requires
        secret.len() == 5,
        guess.len() == 5,
        0 <= i <= 5,
        forall|c: char|
            #[trigger] rem.count(c) == if noncorrect_upto(secret, guess, c, i) + correct_upto(
                secret,
                guess,
                c,
                5,
            ) < letter_count(secret, c) {
                letter_count(secret, c) - correct_upto(secret, guess, c, 5) - noncorrect_upto(
                    secret,
                    guess,
                    c,
                    i,
                )
            } else {
                0
            },
    ensures
        two_pass_from(secret, guess, i, rem) == grade_spec(secret, guess).subrange(i, 5),
    decreases 5 - i,
{
    broadcast use vstd::multiset::group_multiset_axioms;

    if i == 5 {
        assert(two_pass_from(secret, guess, i, rem) =~= grade_spec(secret, guess).subrange(i, 5));
    } else {
        let c = guess[i];
        let head = if guess[i] == secret[i] {
            GuessState::Correct
        } else if rem.count(c) > 0 {
            GuessState::Misplace
        } else {
            GuessState::Wrong
        };
        let rem2 = if guess[i] != secret[i] && rem.count(c) > 0 {
            rem.remove(c)
        } else {
            rem
        };
        assert(head == verdict_at(secret, guess, i));
        assert forall|d: char|
            #[trigger] rem2.count(d) == if noncorrect_upto(secret, guess, d, i + 1) + correct_upto(
                secret,
                guess,
                d,
                5,
            ) < letter_count(secret, d) {
                letter_count(secret, d) - correct_upto(secret, guess, d, 5) - noncorrect_upto(
                    secret,
                    guess,
                    d,
                    i + 1,
                )
            } else {
                0
            } by {
            assert(rem.count(d) == if noncorrect_upto(secret, guess, d, i) + correct_upto(
                secret,
                guess,
                d,
                5,
            ) < letter_count(secret, d) {
                letter_count(secret, d) - correct_upto(secret, guess, d, 5) - noncorrect_upto(
                    secret,
                    guess,
                    d,
                    i,
                )
            } else {
                0
            });
        }
        lemma_two_pass_from(secret, guess, i + 1, rem2);
        let lhs = two_pass_from(secret, guess, i, rem);
        let rhs = grade_spec(secret, guess).subrange(i, 5);
        assert(lhs =~= rhs) by {
            assert(lhs == seq![head] + two_pass_from(secret, guess, i + 1, rem2));
            assert forall|k: int| 0 <= k < rhs.len() implies lhs[k] == rhs[k] by {
                if k == 0 {
                    assert(lhs[0] == head);
                    assert(rhs[0] == verdict_at(secret, guess, i));
                } else {
                    assert(lhs[k] == two_pass_from(secret, guess, i + 1, rem2)[k - 1]);
                    assert(two_pass_from(secret, guess, i + 1, rem2)[k - 1] == grade_spec(
                        secret,
                        guess,
                    ).subrange(i + 1, 5)[k - 1]);
                    assert(grade_spec(secret, guess).subrange(i + 1, 5)[k - 1] == grade_spec(
                        secret,
                        guess,
                    )[i + k]);
                }
            }
        }
    }
}

/// The closed-form grading is exactly the two-pass count-decrementing
/// protocol: build the multiset of the secret's letters, discount the exact
/// matches, then walk the remaining positions left to right, consuming one
/// spare copy per `Misplace`.
pub proof fn lemma_grade_is_two_pass(secret: Seq<char>, guess: Seq<char>)
    requires
        secret.len() == 5,
        guess.len() == 5,
    ensures
        two_pass_from(secret, guess, 0, first_pass_remainder(secret, guess)) == grade_spec(
            secret,
            guess,
        ),
{
    let rem = first_pass_remainder(secret, guess);
    assert forall|c: char|
        #[trigger] rem.count(c) == if noncorrect_upto(secret, guess, c, 0) + correct_upto(
            secret,
            guess,
            c,
            5,
        ) < letter_count(secret, c) {
            letter_count(secret, c) - correct_upto(secret, guess, c, 5) - noncorrect_upto(
                secret,
                guess,
                c,
                0,
            )
        } else {
            0
        } by {
        lemma_spare_letters_count(secret, guess, c, 5);
        lemma_count_partition(secret, guess, c, 5);
    }
    lemma_two_pass_from(secret, guess, 0, rem);
    assert(grade_spec(secret, guess).subrange(0, 5) =~= grade_spec(secret, guess));
}


/// Grading is pure: the verdict is a function of the secret and the guess
/// alone, so any two gradings of the same pair agree, whatever else happened
/// between the calls.
pub proof fn lemma_grading_pure(
    secret: Seq<char>,
    guess: Seq<char>,
    a: Seq<GuessState>,
    b: Seq<GuessState>,
)
    requires
        a == grade_spec(secret, guess),
        b == grade_spec(secret, guess),
    ensures
        a == b,
{
}

/// Lifecycle of one game session.
#[derive(PartialEq, Eq, Structural, Debug)]
pub enum GameState {
    On,
    ReadyForCheck,
    Correct,
    Over,
}

/// `w` occurs in `pool`.
pub open spec fn word_in_pool(pool: Seq<String>, w: Seq<char>) -> bool {
    exists|j: int| 0 <= j < pool.len() && #[trigger] pool[j]@ == w
}

/// Every entry of `pool` is a well-formed word.
pub open spec fn wf_pool(pool: Seq<String>) -> bool {
    forall|i: int| 0 <= i < pool.len() ==> wf_word(#[trigger] pool[i]@)
}

/// One game: a hidden secret, the pools, a round counter and the lifecycle
/// state. The candidate pool is the guess pool extended by the answer pool,
/// so every possible secret is itself a legal guess.
#[derive(Debug)]
pub struct Game {
    pub answer: String,
    pub answer_index: usize,
    pub answers: Vec<String>,
    pub candidates: Vec<String>,
    pub round: usize,
    pub state: GameState,
}

/// Relies on rand::random: draws one machine word from the thread-local
/// generator. Nothing is promised of the value.
#[verifier::external_body]
fn draw_random_u64() -> u64 {
    rand::random::<u64>()
}

impl Game {
    /// The word the game wants guessed, as a character sequence.
    pub open spec fn spec_answer(&self) -> Seq<char> {
        self.answer@
    }

    /// Index of the secret within the answer pool.
    pub open spec fn spec_answer_index(&self) -> int {
        self.answer_index as int
    }

    /// The 0-based round counter.
    pub open spec fn spec_round(&self) -> int {
        self.round as int
    }

    /// Well-formedness: pools hold five-letter lowercase words, the answer
    /// pool is non-empty and contained in the candidate pool, and the secret
    /// is the answer-pool entry that `spec_answer_index` names.
    pub open spec fn wf(&self) -> bool {
        &&& self.answers@.len() > 0
        &&& wf_pool(self.answers@)
        &&& wf_pool(self.candidates@)
        &&& forall|k: int|
            0 <= k < self.answers@.len() ==> word_in_pool(
                self.candidates@,
                #[trigger] self.answers@[k]@,
            )
        &&& 0 <= self.spec_answer_index() < self.answers@.len()
        &&& self.spec_answer() == self.answers@[self.spec_answer_index()]@
    }

    /// Build a game from the lexicon's two word lists: the possible secrets
    /// and the additionally accepted guesses. The candidate pool is their
    /// concatenation; the secret is drawn uniformly by index from the answer
    /// pool. Rejects an empty answer pool and any malformed word.
    pub fn from_lexicon(answers: Vec<String>, guess_pool: Vec<String>) -> (r: Option<Game>)
        ensures
            r is Some <==> (answers@.len() > 0 && wf_pool(answers@) && wf_pool(guess_pool@)),
            r matches Some(g) ==> {
                &&& g.wf()
                &&& g.answers@ == answers@
                &&& g.candidates@ == guess_pool@ + answers@
                &&& g.spec_round() == 0
                &&& g.state == GameState::On
            },
    {
        if answers.len() == 0 || !all_words_wf(&answers) || !all_words_wf(&guess_pool) {
            return None;
        }
        let mut candidates = guess_pool;
        let mut tail = clone_pool(&answers);
        candidates.append(&mut tail);
        let len = answers.len();
        let index = (draw_random_u64() % (len as u64)) as usize;
        let answer = answers[index].clone();
        proof {
            assert(candidates@[guess_pool@.len() + index] == answers@[index as int]);
            assert forall|k: int| 0 <= k < answers@.len() implies word_in_pool(
                candidates@,
                #[trigger] answers@[k]@,
            ) by {
                assert(candidates@[guess_pool@.len() + k] == answers@[k]);
            }
        }
        Some(
            Game {
                answer,
                answer_index: index,
                answers,
                candidates,
                round: 0,
                state: GameState::On,
            },
        )
    }

    /// Restart with the secret set explicitly to the `index`-th answer word.
    pub fn set_game_with_answer_index(&mut self, index: usize)
        requires
            index < old(self).answers@.len(),
        ensures
            final (self).spec_answer_index() == index,
            final (self).spec_answer() == old(self).answers@[index as int]@,
            final (self).spec_round() == 0,
            final (self).state == GameState::On,
            final (self).answers == old(self).answers,
            final (self).candidates == old(self).candidates,
            old(self).wf() ==> final (self).wf(),
    {
        self.answer_index = index;
        self.answer = self.answers[index].clone();
        self.round = 0;
        self.state = GameState::On;
    }

    /// Grade `guess` against the hidden secret.
    pub fn grade_guess(&self, guess: &Guess) -> (m: Match)
        requires
            self.wf(),
            guess.state@.len() == 5,
        ensures
            m.states@ == grade_spec(self.spec_answer(), guess.state@),
    {
        grade_word(&self.answer, &guess.state)
    }

    /// Submit a guess: an illegal word is rejected with `None` and nothing
    /// changes, not even the round — illegal guesses are free. A legal one is
    /// graded against the secret; a winning verdict ends the game in
    /// `Correct` without consuming the round, any other verdict keeps the
    /// game `On` and consumes it.
    pub fn submit_guess(&mut self, guess: &Guess) -> (r: Option<Match>)
        requires
            old(self).wf(),
            old(self).spec_round() < usize::MAX,
            old(self).state == GameState::On || old(self).state == GameState::ReadyForCheck,
        ensures
            final (self).wf(),
            final (self).answers == old(self).answers,
            final (self).candidates == old(self).candidates,
            final (self).spec_answer() == old(self).spec_answer(),
            final (self).spec_answer_index() == old(self).spec_answer_index(),
            !word_in_pool(old(self).candidates@, guess.state@) ==> r is None && *final (self)
                == *old(self),
            word_in_pool(old(self).candidates@, guess.state@) ==> (r matches Some(m) && {
                &&& m.states@ == grade_spec(old(self).spec_answer(), guess.state@)
                &&& (all_correct(m.states@) ==> final (self).state == GameState::Correct && final (
                self).spec_round() == old(self).spec_round())
                &&& (!all_correct(m.states@) ==> final (self).state == GameState::On && final (
                self).spec_round() == old(self).spec_round() + 1)
            }),
    {
        if !self.check_valid_guess(guess) {
            return None;
        }
        proof {
            let j = choose|j: int|
                0 <= j < old(self).candidates@.len() && old(self).candidates@[j]@ == guess.state@;
            assert(wf_word(old(self).candidates@[j]@));
        }
        let one_match = self.grade_guess(guess);
        self.progress_game(&one_match);
        Some(one_match)
    }

    /// The session-level turn limit: once the round counter reaches
    /// `max_rounds` without a win, the game is `Over`. This is policy applied
    /// around grading, never inside it.
    pub fn enforce_turn_limit(&mut self, max_rounds: usize)
        ensures
            (old(self).spec_round() >= max_rounds && old(self).state != GameState::Correct)
                ==> final (self).state == GameState::Over,
            !(old(self).spec_round() >= max_rounds && old(self).state != GameState::Correct)
                ==> *final (self) == *old(self),
            final (self).answers == old(self).answers,
            final (self).candidates == old(self).candidates,
            final (self).spec_answer() == old(self).spec_answer(),
            final (self).spec_answer_index() == old(self).spec_answer_index(),
            final (self).spec_round() == old(self).spec_round(),
            old(self).wf() ==> final (self).wf(),
    {
        if self.round >= max_rounds && !matches!(self.state, GameState::Correct) {
            self.state = GameState::Over;
        }
    }

    /// Membership test: is the guess one of the accepted candidate words?
    pub fn check_valid_guess(&self, guess: &Guess) -> (r: bool)
        ensures
            r == word_in_pool(self.candidates@, guess.state@),
    {
        let n = self.candidates.len();
        let mut j: usize = 0;
        while j < n
            invariant
                j <= n == self.candidates@.len(),
                forall|k: int| 0 <= k < j ==> #[trigger] self.candidates@[k]@ != guess.state@,
            decreases n - j,
        {
            if self.candidates[j] == guess.state {
                return true;
            }
            j = j + 1;
        }
        false
    }

    /// Advance the lifecycle after a graded legal guess: a winning verdict
    /// ends the game in `Correct`; anything else stays `On` and consumes the
    /// round.
    pub fn progress_game(&mut self, one_match: &Match)
        requires
            old(self).spec_round() < usize::MAX,
        ensures
            all_correct(one_match.states@) ==> {
                &&& final (self).state == GameState::Correct
                &&& final (self).spec_round() == old(self).spec_round()
            },
            !all_correct(one_match.states@) ==> {
                &&& final (self).state == GameState::On
                &&& final (self).spec_round() == old(self).spec_round() + 1
            },
            final (self).answers == old(self).answers,
            final (self).candidates == old(self).candidates,
            final (self).spec_answer() == old(self).spec_answer(),
            final (self).spec_answer_index() == old(self).spec_answer_index(),
            old(self).wf() ==> final (self).wf(),
    {
        if one_match.is_correct() {
            self.state = GameState::Correct;
        } else {
            self.state = GameState::On;
            self.inc_round();
        }
    }

    /// The current 0-based round.
    pub fn round(&self) -> (r: usize)
        ensures
            r == self.spec_round(),
    {
        self.round
    }

    /// Consume one round.
    pub fn inc_round(&mut self)
        requires
            old(self).spec_round() < usize::MAX,
        ensures
            final (self).spec_round() == old(self).spec_round() + 1,
            final (self).state == old(self).state,
            final (self).answers == old(self).answers,
            final (self).candidates == old(self).candidates,
            final (self).spec_answer() == old(self).spec_answer(),
            final (self).spec_answer_index() == old(self).spec_answer_index(),
            old(self).wf() ==> final (self).wf(),
    {
        self.round = self.round + 1;
    }

    /// Reveal the secret word.
    pub fn answer(&self) -> (r: String)
        ensures
            r@ == self.spec_answer(),
    {
        self.answer.clone()
    }

    /// Restart with a fresh secret drawn uniformly by index from the answer
    /// pool; the round returns to 0 and play resumes.
    pub fn reset(&mut self)
        requires
            old(self).wf(),
        ensures
            final (self).wf(),
            0 <= final (self).spec_answer_index() < old(self).answers@.len(),
            final (self).spec_answer() == old(self).answers@[final (self).spec_answer_index()]@,
            final (self).spec_round() == 0,
            final (self).state == GameState::On,
            final (self).answers == old(self).answers,
            final (self).candidates == old(self).candidates,
    {
        let len = self.answers.len();
        let index = (draw_random_u64() % (len as u64)) as usize;
        self.set_game_with_answer_index(index);
    }
}

/// Every entry is a well-formed word.
pub(crate) fn all_words_wf(pool: &Vec<String>) -> (r: bool)
    ensures
        r == wf_pool(pool@),
{
    let n = pool.len();
    let mut j: usize = 0;
    while j < n
        invariant
            j <= n == pool@.len(),
            forall|k: int| 0 <= k < j ==> wf_word(#[trigger] pool@[k]@),
        decreases n - j,
    {
        if !is_wf_word(&pool[j]) {
            return false;
        }
        j = j + 1;
    }
    true
}

/// Check that `w` is exactly five lowercase letters.
pub fn is_wf_word(w: &String) -> (r: bool)
    ensures
        r == wf_word(w@),
{
    let n = w.as_str().unicode_len();
    if n != 5 {
        return false;
    }
    let mut j: usize = 0;
    while j < 5
        invariant
            w@.len() == 5,
            j <= 5,
            forall|k: int| 0 <= k < j ==> is_lower_letter(#[trigger] w@[k]),
        decreases 5 - j,
    {
        let c = w.as_str().get_char(j);
        let cu = c as u32;
        if cu < 97 || cu > 122 {
            return false;
        }
        j = j + 1;
    }
    true
}

/// An element-wise copy of a word list.
pub(crate) fn clone_pool(pool: &Vec<String>) -> (r: Vec<String>)
    ensures
        r@ == pool@,
{
    let n = pool.len();
    let mut out: Vec<String> = Vec::new();
    let mut j: usize = 0;
    while j < n
        invariant
            j <= n == pool@.len(),
            out@ =~= pool@.subrange(0, j as int),
        decreases n - j,
    {
        out.push(pool[j].clone());
        j = j + 1;
    }
    proof {
        assert(out@ =~= pool@);
    }
    out
}

} // verus!
