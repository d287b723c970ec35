//! The automated player: a shrinking belief set over the candidate pool,
//! narrowed by each observed verdict with the same multiset semantics as the
//! grading engine.
use crate::game::all_correct;
use crate::game::clone_pool;
use crate::game::grade_spec;
use crate::game::grade_word;
use crate::game::wf_pool;
use crate::game::wf_word;
use crate::game::word_in_pool;
use crate::game::Game;
use crate::game::GameState;
use crate::game::Guess;
use crate::game::GuessState;
use crate::game::Match;
use crate::score::entropy_weight;
use crate::score::entropy_weight_exec;
use crate::score::floor_log2;
use crate::score::log2_fixed;
use crate::score::norm31;
use vstd::prelude::*;

verus! {

/// One accepted guess together with the verdict it received.
#[derive(Debug, Clone, PartialEq, Eq)]
pub struct Pattern {
    pub chars: String,
    pub state: [GuessState; 5],
}

/// `w` could be the secret that produced `verdict` for `guess`: grading `guess`
/// against `w` yields exactly `verdict`.
pub open spec fn compatible(w: Seq<char>, guess: Seq<char>, verdict: Seq<GuessState>) -> bool {
    grade_spec(w, guess) == verdict
}

/// `w` is consistent with every observed pattern.
pub open spec fn consistent_all(w: Seq<char>, patterns: Seq<Pattern>) -> bool {
    forall|k: int|
        0 <= k < patterns.len() ==> compatible(
            w,
            (#[trigger] patterns[k]).chars@,
            patterns[k].state@,
        )
}

/// Number of `true` entries among the first `n` of `s`.
pub open spec fn count_true_upto(s: Seq<bool>, n: int) -> nat
    decreases n,
{
    if n <= 0 {
        0
    } else {
        count_true_upto(s, n - 1) + (if s[n - 1] {
            1nat
        } else {
            0nat
        })
    }
}

proof fn lemma_count_true_bound(s: Seq<bool>, n: int)
    requires
        0 <= n <= s.len(),
    ensures
        count_true_upto(s, n) <= n,
    decreases n,
{
    if n > 0 {
        lemma_count_true_bound(s, n - 1);
    }
}

proof fn lemma_count_true_all(s: Seq<bool>, n: int)
    requires
        0 <= n <= s.len(),
        forall|k: int| 0 <= k < n ==> #[trigger] s[k],
    ensures
        count_true_upto(s, n) == n,
    decreases n,
{
    if n > 0 {
        lemma_count_true_all(s, n - 1);
    }
}

proof fn lemma_count_true_zero(s: Seq<bool>, n: int)
    requires
        0 <= n <= s.len(),
        forall|k: int| 0 <= k < n ==> !(#[trigger] s[k]),
    ensures
        count_true_upto(s, n) == 0,
    decreases n,
{
    if n > 0 {
        lemma_count_true_zero(s, n - 1);
    }
}

proof fn lemma_count_true_pointwise(a: Seq<bool>, b: Seq<bool>, n: int)
    requires
        0 <= n <= a.len(),
        n <= b.len(),
        forall|k: int| 0 <= k < n ==> (#[trigger] a[k] ==> b[k]),
    ensures
        count_true_upto(a, n) <= count_true_upto(b, n),
    decreases n,
{
    if n > 0 {
        lemma_count_true_pointwise(a, b, n - 1);
    }
}

/// Appending one pattern to a history narrows consistency by exactly that
/// pattern.
proof fn lemma_consistent_push(w: Seq<char>, patterns: Seq<Pattern>, p: Pattern)
    ensures
        consistent_all(w, patterns.push(p)) <==> (consistent_all(w, patterns) && compatible(
            w,
            p.chars@,
            p.state@,
        )),
{
    let pushed = patterns.push(p);
    if consistent_all(w, patterns) && compatible(w, p.chars@, p.state@) {
        assert forall|k: int| 0 <= k < pushed.len() implies compatible(
            w,
            (#[trigger] pushed[k]).chars@,
            pushed[k].state@,
        ) by {
            if k < patterns.len() {
                assert(pushed[k] == patterns[k]);
                assert(compatible(w, patterns[k].chars@, patterns[k].state@));
            } else {
                assert(pushed[k] == p);
            }
        }
    }
    if consistent_all(w, pushed) {
        assert forall|k: int| 0 <= k < patterns.len() implies compatible(
            w,
            (#[trigger] patterns[k]).chars@,
            patterns[k].state@,
        ) by {
            assert(pushed[k] == patterns[k]);
            assert(compatible(w, pushed[k].chars@, pushed[k].state@));
        }
        assert(pushed[patterns.len() as int] == p);
        assert(compatible(w, p.chars@, p.state@));
    }
}

/// The belief state: the candidate pool, the observed pattern history, and a
/// validity mask caching which candidates are still consistent with every
/// observed pattern.
#[derive(Debug)]
pub struct Solver {
    pub patterns: Vec<Pattern>,
    pub valid_table: Vec<bool>,
    pub candidates: Vec<String>,
    pub current_candidate: String,
    pub survive: usize,
    pub use_cache: bool,
    pub cache: Vec<String>,
}

impl Solver {
    /// Structural well-formedness: mask and pool line up, the pool holds
    /// well-formed words, `survive` counts the mask, and an enabled opening
    /// cache holds exactly 243 well-formed words.
    pub open spec fn inv(&self) -> bool {
        &&& self.valid_table@.len() == self.candidates@.len()
        &&& 0 < self.candidates@.len() < 4294967296
        &&& wf_pool(self.candidates@)
        &&& self.survive == count_true_upto(self.valid_table@, self.valid_table@.len() as int)
        &&& forall|k: int|
            0 <= k < self.patterns@.len() ==> wf_word((#[trigger] self.patterns@[k]).chars@)
        &&& self.use_cache ==> self.cache@.len() == 243 && wf_pool(self.cache@)
    }

    /// The mask is exactly what the pattern history derives: candidate `i` is
    /// marked valid iff it is consistent with every observed pattern.
    pub open spec fn synced(&self) -> bool {
        forall|i: int|
            0 <= i < self.valid_table@.len() ==> ((#[trigger] self.valid_table@[i])
                <==> consistent_all(self.candidates@[i]@, self.patterns@))
    }

    /// A fresh solver bound to `game`'s candidate pool: empty history, every
    /// candidate still possible, opening cache disabled.
    pub fn bind(game: &Game) -> (s: Solver)
        requires
            game.wf(),
            game.candidates@.len() < 4294967296,
        ensures
            s.inv(),
            s.synced(),
            s.candidates@ == game.candidates@,
            s.patterns@.len() == 0,
            forall|i: int| 0 <= i < s.valid_table@.len() ==> #[trigger] s.valid_table@[i],
            s.survive == game.candidates@.len(),
            s.current_candidate@ == Seq::<char>::empty(),
            !s.use_cache,
    {
        let table_size = game.candidates.len();
        let valid_table = alloc_mask(table_size);
        proof {
            lemma_count_true_all(valid_table@, table_size as int);
        }
        Solver {
            patterns: Vec::new(),
            valid_table,
            candidates: clone_pool(&game.candidates),
            current_candidate: String::new(),
            survive: table_size,
            use_cache: false,
            cache: Vec::new(),
        }
    }

    /// Like `bind`, but with the 243-entry opening-response cache enabled:
    /// entry `k` is the follow-up guess for the opening verdict whose base-3
    /// encoding is `k`. Rejected unless the cache holds exactly 243
    /// well-formed words.
    pub fn bind_with_cache(game: &Game, cache: Vec<String>) -> (r: Option<Solver>)
        requires
            game.wf(),
            game.candidates@.len() < 4294967296,
        ensures
            r is Some <==> (cache@.len() == 243 && wf_pool(cache@)),
            r matches Some(s) ==> {
                &&& s.inv()
                &&& s.synced()
                &&& s.candidates@ == game.candidates@
                &&& s.patterns@.len() == 0
                &&& s.survive == game.candidates@.len()
                &&& s.use_cache
                &&& s.cache@ == cache@
            },
    {
        if cache.len() != 243 || !crate::game::all_words_wf(&cache) {
            return None;
        }
        let mut s = Solver::bind(game);
        s.use_cache = true;
        s.cache = cache;
        Some(s)
    }

    /// Is candidate `table_index` still possibly the secret?
    fn valid_word(&self, table_index: usize) -> (r: bool)
        requires
            table_index < self.valid_table@.len(),
        ensures
            r == self.valid_table@[table_index as int],
    {
        self.valid_table[table_index]
    }

    /// Forget every observation: empty history, full mask.
    pub fn reset(&mut self)
        requires
            old(self).inv(),
        ensures
            final(self).inv(),
            final(self).synced(),
            final(self).candidates@ == old(self).candidates@,
            final(self).patterns@.len() == 0,
            forall|i: int|
                0 <= i < final(self).valid_table@.len() ==> #[trigger] final(self).valid_table@[i],
            final(self).survive == old(self).candidates@.len(),
            final(self).current_candidate@ == Seq::<char>::empty(),
            final(self).use_cache == old(self).use_cache,
            final(self).cache@ == old(self).cache@,
    {
        let table_size = self.candidates.len();
        self.valid_table = alloc_mask(table_size);
        proof {
            lemma_count_true_all(self.valid_table@, table_size as int);
        }
        self.patterns = Vec::new();
        self.current_candidate = String::new();
        self.survive = table_size;
    }

    /// Append one observed pattern to the history. The mask is untouched and
    /// stale until `filter_valid_word` runs.
    pub fn add_pattern(&mut self, word: String, one_match: &Match)
        requires
            wf_word(word@),
        ensures
            final(self).patterns@ == old(self).patterns@.push(
                (Pattern { chars: word, state: one_match.states }),
            ),
            final(self).valid_table@ == old(self).valid_table@,
            final(self).candidates@ == old(self).candidates@,
            final(self).survive == old(self).survive,
            final(self).use_cache == old(self).use_cache,
            final(self).cache@ == old(self).cache@,
            final(self).current_candidate == old(self).current_candidate,
            old(self).inv() ==> final(self).inv(),
    {
        self.patterns.push(Pattern { chars: word, state: one_match.states });
    }

    /// Re-derive the mask from the history: a candidate stays valid exactly
    /// when it was valid and is consistent with every observed pattern, and
    /// `survive` is recounted.
    pub fn filter_valid_word(&mut self)
        requires
            old(self).inv(),
        ensures
            final(self).inv(),
            final(self).valid_table@.len() == old(self).valid_table@.len(),
            forall|i: int|
                0 <= i < old(self).valid_table@.len() ==> (final(self).valid_table@[i] <==> (old(self).valid_table@[i] && consistent_all(
                    old(self).candidates@[i]@,
                    old(self).patterns@,
                ))),
            final(self).patterns@ == old(self).patterns@,
            final(self).candidates@ == old(self).candidates@,
            final(self).use_cache == old(self).use_cache,
            final(self).cache@ == old(self).cache@,
            final(self).current_candidate == old(self).current_candidate,
            final(self).survive <= old(self).survive,
            old(self).synced() ==> final(self).synced(),
    {
        let n = self.candidates.len();
        let mut i: usize = 0;
        while i < n
            invariant
                i <= n,
                n == self.candidates@.len(),
                self.valid_table@.len() == n,
                self.candidates@ == old(self).candidates@,
                self.patterns@ == old(self).patterns@,
                self.use_cache == old(self).use_cache,
                self.cache@ == old(self).cache@,
                self.current_candidate == old(self).current_candidate,
                self.survive == old(self).survive,
                wf_pool(self.candidates@),
                forall|k: int|
                    0 <= k < self.patterns@.len() ==> wf_word(
                        (#[trigger] self.patterns@[k]).chars@,
                    ),
                forall|k: int|
                    i <= k < n ==> #[trigger] self.valid_table@[k] == old(self).valid_table@[k],
                forall|k: int|
                    0 <= k < i ==> (#[trigger] self.valid_table@[k] <==> (old(self).valid_table@[k] && consistent_all(
                        self.candidates@[k]@,
                        self.patterns@,
                    ))),
            decreases n - i,
        {
            if self.valid_word(i) {
                let ok = word_matches_all(&self.candidates[i], &self.patterns);
                if !ok {
                    self.valid_table[i] = false;
                }
            }
            i = i + 1;
        }
        let survivors = count_true_exec(&self.valid_table);
        proof {
            lemma_count_true_pointwise(
                self.valid_table@,
                old(self).valid_table@,
                n as int,
            );
        }
        self.survive = survivors;
    }

    /// Record `(word, verdict)` and narrow the belief set by it: the belief
    /// update of one observation. The new valid set is a subset of the old
    /// one — observations only ever narrow.
    pub fn observe(&mut self, word: String, one_match: &Match)
        requires
            old(self).inv(),
            old(self).synced(),
            wf_word(word@),
        ensures
            final(self).inv(),
            final(self).synced(),
            final(self).patterns@ == old(self).patterns@.push(
                (Pattern { chars: word, state: one_match.states }),
            ),
            final(self).candidates@ == old(self).candidates@,
            final(self).valid_table@.len() == old(self).valid_table@.len(),
            forall|i: int|
                0 <= i < old(self).valid_table@.len() ==> (final(self).valid_table@[i] <==> (old(self).valid_table@[i] && compatible(
                    old(self).candidates@[i]@,
                    word@,
                    one_match.states@,
                ))),
            forall|i: int|
                0 <= i < old(self).valid_table@.len() ==> (final(self).valid_table@[i] ==> old(self).valid_table@[i]),
            final(self).survive <= old(self).survive,
            final(self).use_cache == old(self).use_cache,
            final(self).cache@ == old(self).cache@,
    {
        let ghost p = Pattern { chars: word, state: one_match.states };
        self.add_pattern(word, one_match);
        self.filter_valid_word();
        proof {
            assert forall|i: int| 0 <= i < old(self).valid_table@.len() implies (final(self).valid_table@[i] <==> (old(self).valid_table@[i] && compatible(
                old(self).candidates@[i]@,
                p.chars@,
                p.state@,
            ))) by {
                lemma_consistent_push(old(self).candidates@[i]@, old(self).patterns@, p);
            }
            assert forall|i: int| 0 <= i < final(self).valid_table@.len() implies (#[trigger] final(self).valid_table@[i] <==> consistent_all(
                final(self).candidates@[i]@,
                final(self).patterns@,
            )) by {
                lemma_consistent_push(old(self).candidates@[i]@, old(self).patterns@, p);
            }
        }
    }

    /// Submit `guess` to the game: an illegal guess is rejected with `None`
    /// and changes nothing; a legal one is graded, advances the game, and is
    /// observed by the solver, which narrows its belief set accordingly.
    pub fn try_guess(&mut self, guess: Guess, game: &mut Game) -> (r: Option<Match>)
        requires
            old(self).inv(),
            old(self).synced(),
            old(game).wf(),
            old(game).spec_round() < usize::MAX,
        ensures
            !word_in_pool(old(game).candidates@, guess.state@) ==> {
                &&& r is None
                &&& *final(game) == *old(game)
                &&& *final(self) == *old(self)
            },
            word_in_pool(old(game).candidates@, guess.state@) ==> (r matches Some(m) && {
                &&& m.states@ == grade_spec(old(game).spec_answer(), guess.state@)
                &&& final(game).wf()
                &&& final(game).answers == old(game).answers
                &&& final(game).candidates == old(game).candidates
                &&& final(game).spec_answer() == old(game).spec_answer()
                &&& (all_correct(m.states@) ==> final(game).state == GameState::Correct && final(game).spec_round() == old(game).spec_round())
                &&& (!all_correct(m.states@) ==> final(game).state == GameState::On && final(game).spec_round() == old(game).spec_round() + 1)
                &&& final(self).inv()
                &&& final(self).synced()
                &&& final(self).patterns@ == old(self).patterns@.push(
                    (Pattern { chars: guess.state, state: m.states }),
                )
                &&& final(self).candidates@ == old(self).candidates@
                &&& final(self).valid_table@.len() == old(self).valid_table@.len()
                &&& (forall|i: int|
                    0 <= i < old(self).valid_table@.len() ==> (final(self).valid_table@[i] <==> (
                    old(self).valid_table@[i] && compatible(
                        old(self).candidates@[i]@,
                        guess.state@,
                        m.states@,
                    ))))
                &&& final(self).survive <= old(self).survive
                &&& final(self).use_cache == old(self).use_cache
                &&& final(self).cache@ == old(self).cache@
            }),
    {
        if !game.check_valid_guess(&guess) {
            return None;
        }
        proof {
            let j = choose|j: int|
                0 <= j < old(game).candidates@.len() && old(game).candidates@[j]@ == guess.state@;
            assert(wf_word(old(game).candidates@[j]@));
        }
        let one_match = game.grade_guess(&guess);
        game.progress_game(&one_match);
        self.observe(guess.state, &one_match);
        Some(one_match)
    }
}

/// `word` is consistent with every pattern in `patterns`.
fn word_matches_all(word: &String, patterns: &Vec<Pattern>) -> (r: bool)
    requires
        word@.len() == 5,
        forall|k: int| 0 <= k < patterns@.len() ==> wf_word((#[trigger] patterns@[k]).chars@),
    ensures
        r == consistent_all(word@, patterns@),
{
    let n = patterns.len();
    let mut k: usize = 0;
    while k < n
        invariant
            k <= n == patterns@.len(),
            word@.len() == 5,
            forall|t: int| 0 <= t < patterns@.len() ==> wf_word((#[trigger] patterns@[t]).chars@),
            forall|t: int|
                0 <= t < k ==> compatible(
                    word@,
                    (#[trigger] patterns@[t]).chars@,
                    patterns@[t].state@,
                ),
        decreases n - k,
    {
        let ok = try_match(word, &patterns[k]);
        if !ok {
            return false;
        }
        k = k + 1;
    }
    true
}

/// Could `word` be the secret given one observed pattern? True exactly when
/// grading the pattern's guess against `word` reproduces the pattern's
/// verdict, duplicate letters and all.
fn try_match(word: &String, pattern: &Pattern) -> (r: bool)
    requires
        word@.len() == 5,
        pattern.chars@.len() == 5,
    ensures
        r == compatible(word@, pattern.chars@, pattern.state@),
{
    let m = grade_word(word, &pattern.chars);
    let r = m.states[0] == pattern.state[0] && m.states[1] == pattern.state[1] && m.states[2]
        == pattern.state[2] && m.states[3] == pattern.state[3] && m.states[4] == pattern.state[4];
    proof {
        if r {
            assert(m.states@ =~= pattern.state@);
        } else {
            assert(m.states@ != pattern.state@);
        }
    }
    r
}

/// A mask of `n` entries, all `true`.
fn alloc_mask(n: usize) -> (r: Vec<bool>)
    ensures
        r@.len() == n,
        forall|i: int| 0 <= i < n ==> #[trigger] r@[i],
{
    let mut r: Vec<bool> = Vec::new();
    let mut j: usize = 0;
    while j < n
        invariant
            j <= n,
            r@.len() == j,
            forall|i: int| 0 <= i < j ==> #[trigger] r@[i],
        decreases n - j,
    {
        r.push(true);
        j = j + 1;
    }
    r
}

/// Count the `true` entries of the mask.
fn count_true_exec(v: &Vec<bool>) -> (r: usize)
    ensures
        r == count_true_upto(v@, v@.len() as int),
        r <= v@.len(),
{
    let n = v.len();
    let mut r: usize = 0;
    let mut j: usize = 0;
    while j < n
        invariant
            j <= n == v@.len(),
            r == count_true_upto(v@, j as int),
            r <= j,
        decreases n - j,
    {
        if v[j] {
            r = r + 1;
        }
        j = j + 1;
    }
    r
}

/// 3 to the power `n`.
pub open spec fn three_to(n: nat) -> nat
    decreases n,
{
    if n == 0 {
        1
    } else {
        3 * three_to((n - 1) as nat)
    }
}

/// Base-3 digit of one letter verdict, following the order of the enum.
pub open spec fn pattern_digit(g: GuessState) -> int {
    match g {
        GuessState::Wrong => 0,
        GuessState::Misplace => 1,
        GuessState::Correct => 2,
    }
}

/// Base-3 encoding of the first `n` positions, most-significant digit first.
pub open spec fn pattern_index_upto(v: Seq<GuessState>, n: int) -> int
    decreases n,
{
    if n <= 0 {
        0
    } else {
        pattern_index_upto(v, n - 1) * 3 + pattern_digit(v[n - 1])
    }
}

/// Base-3 encoding of a five-position verdict, with the first position as
/// the most significant digit.
pub open spec fn pattern_index_spec(v: Seq<GuessState>) -> int {
    pattern_index_upto(v, 5)
}

proof fn lemma_pattern_index_bound(v: Seq<GuessState>, n: int)
    requires
        0 <= n,
    ensures
        0 <= pattern_index_upto(v, n) < three_to(n as nat),
    decreases n,
{
    if n > 0 {
        lemma_pattern_index_bound(v, n - 1);
    }
}

/// The base-3 encoding of a verdict, one of the 243 values `0..=242`.
pub fn pattern_index(states: &[GuessState; 5]) -> (r: usize)
    ensures
        r == pattern_index_spec(states@),
        r < 243,
{
    let mut r: usize = 0;
    let mut i: usize = 0;
    while i < 5
        invariant
            i <= 5,
            r == pattern_index_upto(states@, i as int),
            r < three_to(i as nat),
        decreases 5 - i,
    {
        proof {
            lemma_pattern_index_bound(states@, 5);
            assert(three_to(5) == 243) by {
                reveal_with_fuel(three_to, 6);
            }
            assert(three_to((i + 1) as nat) == 3 * three_to(i as nat));
            assert(three_to(i as nat) <= three_to(5)) by {
                lemma_three_to_mono(i as nat, 5);
            }
        }
        let d: usize = match states[i] {
            GuessState::Wrong => 0,
            GuessState::Misplace => 1,
            GuessState::Correct => 2,
        };
        r = r * 3 + d;
        i = i + 1;
    }
    proof {
        assert(three_to(5) == 243) by {
            reveal_with_fuel(three_to, 6);
        }
    }
    r
}

proof fn lemma_three_to_mono(e: nat, f: nat)
    requires
        e <= f,
    ensures
        1 <= three_to(e) <= three_to(f),
    decreases f,
{
    if e == f {
        lemma_three_to_pos(e);
    } else {
        lemma_three_to_mono(e, (f - 1) as nat);
    }
}

proof fn lemma_three_to_pos(e: nat)
    ensures
        three_to(e) >= 1,
    decreases e,
{
    if e > 0 {
        lemma_three_to_pos((e - 1) as nat);
    }
}

/// Grade `candidate` (a guess) against `word` (a hypothetical secret) and
/// return the base-3 encoding of the resulting verdict.
pub fn grade_pair(word: &String, candidate: &String) -> (r: usize)
    requires
        word@.len() == 5,
        candidate@.len() == 5,
    ensures
        r == pattern_index_spec(grade_spec(word@, candidate@)),
        r < 243,
{
    let m = grade_word(word, candidate);
    proof {
        assert(m.states@ == grade_spec(word@, candidate@));
    }
    pattern_index(&m.states)
}

/// How many of the first `n` still-valid candidates grade `guess` to the
/// verdict whose encoding is `pat`.
pub open spec fn bucket_count(
    cands: Seq<String>,
    valid: Seq<bool>,
    guess: Seq<char>,
    pat: int,
    n: int,
) -> nat
    decreases n,
{
    if n <= 0 {
        0
    } else {
        bucket_count(cands, valid, guess, pat, n - 1) + (if valid[n - 1] && pattern_index_spec(
            grade_spec(cands[n - 1]@, guess),
        ) == pat {
            1nat
        } else {
            0nat
        })
    }
}

/// A bucket never holds more members than the valid set.
proof fn lemma_bucket_le_count(
    cands: Seq<String>,
    valid: Seq<bool>,
    guess: Seq<char>,
    pat: int,
    n: int,
)
    requires
        0 <= n,
    ensures
        bucket_count(cands, valid, guess, pat, n) <= count_true_upto(valid, n),
    decreases n,
{
    if n > 0 {
        lemma_bucket_le_count(cands, valid, guess, pat, n - 1);
    }
}

/// The summed entropy weights of the first `k` verdict buckets of `guess`.
pub open spec fn score_sum(
    cands: Seq<String>,
    valid: Seq<bool>,
    guess: Seq<char>,
    total: nat,
    k: int,
) -> int
    decreases k,
{
    if k <= 0 {
        0
    } else {
        score_sum(cands, valid, guess, total, k - 1) + entropy_weight(
            bucket_count(cands, valid, guess, k - 1, cands.len() as int),
            total,
        )
    }
}

/// The score of `guess` against the still-valid candidates: partition the
/// valid set by the verdict `guess` would receive from each candidate as
/// hypothetical secret, then sum `c * (log2 n - log2 c)` over the buckets in
/// 16.16 fixed point. This is the Shannon entropy of the verdict
/// distribution, in bits, scaled by 65536 times the valid-set size `n`.
pub open spec fn score_spec(cands: Seq<String>, valid: Seq<bool>, guess: Seq<char>) -> int {
    score_sum(cands, valid, guess, count_true_upto(valid, cands.len() as int), 243)
}

/// The fixed opening guess emitted at round 0.
pub open spec fn opening_word() -> Seq<char> {
    "tares"@
}

/// The fixed opening guess, as a fresh string.
pub fn opening_guess() -> (r: String)
    ensures
        r@ == opening_word(),
{
    "tares".to_owned()
}

/// The least index at or after `i` whose mask entry is `true` (the mask's
/// length if there is none).
pub open spec fn first_true_from(mask: Seq<bool>, i: int) -> int
    decreases mask.len() - i,
{
    if i < 0 || i >= mask.len() {
        mask.len() as int
    } else if mask[i] {
        i
    } else {
        first_true_from(mask, i + 1)
    }
}

proof fn lemma_first_true_characterize(mask: Seq<bool>, i: int, r: int)
    requires
        0 <= i <= r < mask.len(),
        mask[r],
        forall|k: int| i <= k < r ==> !(#[trigger] mask[k]),
    ensures
        first_true_from(mask, i) == r,
    decreases r - i,
{
    if i < r {
        lemma_first_true_characterize(mask, i + 1, r);
    }
}

/// The first entropy-maximizing index among the first `k` candidates: ties
/// keep the earlier index, exactly as the scan's strict comparison does.
pub open spec fn best_upto(cands: Seq<String>, mask: Seq<bool>, k: int) -> int
    decreases k,
{
    if k <= 1 {
        0
    } else {
        let prev = best_upto(cands, mask, k - 1);
        if score_spec(cands, mask, cands[k - 1]@) > score_spec(cands, mask, cands[prev]@) {
            k - 1
        } else {
            prev
        }
    }
}

proof fn lemma_best_upto_props(cands: Seq<String>, mask: Seq<bool>, k: int)
    requires
        1 <= k <= cands.len(),
    ensures
        0 <= best_upto(cands, mask, k) < k,
        forall|j: int|
            0 <= j < k ==> score_spec(cands, mask, (#[trigger] cands[j])@) <= score_spec(
                cands,
                mask,
                cands[best_upto(cands, mask, k)]@,
            ),
        forall|j: int|
            0 <= j < best_upto(cands, mask, k) ==> score_spec(cands, mask, (#[trigger] cands[j])@)
                < score_spec(cands, mask, cands[best_upto(cands, mask, k)]@),
    decreases k,
{
    if k > 1 {
        lemma_best_upto_props(cands, mask, k - 1);
    }
}

/// The mask the opening verdict `v` induces on a fresh pool: candidate `i`
/// stays exactly when it is compatible with the opening guess having
/// received `v`.
pub open spec fn opening_mask(cands: Seq<String>, v: Seq<GuessState>) -> Seq<bool> {
    Seq::new(cands.len(), |i: int| compatible(cands[i]@, opening_word(), v))
}

/// The word a full scan of the pool picks against the valid set `mask`: the
/// lone survivor when one candidate is left, otherwise the first
/// entropy-maximizing candidate.
pub open spec fn scan_choice(cands: Seq<String>, mask: Seq<bool>) -> Seq<char> {
    if count_true_upto(mask, mask.len() as int) == 1 {
        cands[first_true_from(mask, 0)]@
    } else {
        cands[best_upto(cands, mask, cands.len() as int)]@
    }
}

/// The opening cache's data contract for verdict `v`: the entry at `v`'s
/// encoding is the very word a full scan would pick against the valid set
/// that `v` induces. When every entry satisfies this, the round-1 lookup is
/// an optimization and never a semantic change.
pub open spec fn cache_agrees(cands: Seq<String>, cache: Seq<String>, v: Seq<GuessState>) -> bool {
    cache[pattern_index_spec(v)]@ == scan_choice(cands, opening_mask(cands, v))
}

proof fn lemma_count_true_strict(a: Seq<bool>, b: Seq<bool>, w: int, n: int)
    requires
        0 <= n <= a.len(),
        n <= b.len(),
        0 <= w < n,
        b[w],
        !a[w],
        forall|k: int| 0 <= k < n ==> (#[trigger] a[k] ==> b[k]),
    ensures
        count_true_upto(a, n) < count_true_upto(b, n),
    decreases n,
{
    if w == n - 1 {
        lemma_count_true_pointwise(a, b, n - 1);
    } else {
        lemma_count_true_strict(a, b, w, n - 1);
    }
}

/// Observing a verdict the guess could not have produced against itself
/// excludes the guess: when the pool still holds the guess as a valid
/// candidate and the verdict is not the guess's own self-grade, the narrowed
/// valid set is strictly smaller than before. In particular a fresh solver's
/// first honest observation of a non-winning verdict strictly shrinks the
/// valid set below the full pool size.
pub proof fn lemma_nonwinning_observation_narrows(
    cands: Seq<String>,
    valid: Seq<bool>,
    g: Seq<char>,
    v: Seq<GuessState>,
    m2: Seq<bool>,
    gi: int,
)
    requires
        valid.len() == cands.len(),
        m2.len() == cands.len(),
        0 <= gi < cands.len(),
        valid[gi],
        cands[gi]@ == g,
        v != grade_spec(g, g),
        forall|i: int|
            0 <= i < cands.len() ==> ((#[trigger] m2[i]) <==> (valid[i] && compatible(
                cands[i]@,
                g,
                v,
            ))),
    ensures
        count_true_upto(m2, cands.len() as int) < count_true_upto(valid, cands.len() as int),
{
    assert(!compatible(cands[gi]@, g, v));
    assert(!m2[gi]);
    lemma_count_true_strict(m2, valid, gi, cands.len() as int);
}

/// `w` is the entropy-maximizing choice the solver owes: some candidate
/// whose score no candidate beats, and that no earlier candidate ties.
pub open spec fn best_choice(s: &Solver, w: Seq<char>, sc: u64) -> bool {
    exists|b: int|
        {
            &&& 0 <= b < s.candidates@.len()
            &&& w == (#[trigger] s.candidates@[b])@
            &&& sc == score_spec(s.candidates@, s.valid_table@, s.candidates@[b]@)
            &&& (forall|j: int|
                0 <= j < s.candidates@.len() ==> score_spec(
                    s.candidates@,
                    s.valid_table@,
                    (#[trigger] s.candidates@[j])@,
                ) <= sc)
            &&& (forall|j: int|
                0 <= j < b ==> score_spec(
                    s.candidates@,
                    s.valid_table@,
                    (#[trigger] s.candidates@[j])@,
                ) < sc)
        }
}

/// A candidate equal to the very word that produced a verdict is always
/// compatible with that observation: the true secret survives every honest
/// belief update, which is what carries the solver to convergence.
pub proof fn lemma_secret_survives(secret: Seq<char>, guess: Seq<char>, verdict: Seq<GuessState>)
    requires
        verdict == grade_spec(secret, guess),
    ensures
        compatible(secret, guess, verdict),
{
}

/// A zeroed bucket table of 243 entries.
fn alloc_counts() -> (r: Vec<u64>)
    ensures
        r@.len() == 243,
        forall|i: int| 0 <= i < 243 ==> r@[i] == 0,
{
    let mut r: Vec<u64> = Vec::new();
    let mut j: usize = 0;
    while j < 243
        invariant
            j <= 243,
            r@.len() == j,
            forall|i: int| 0 <= i < j ==> r@[i] == 0,
        decreases 243 - j,
    {
        r.push(0);
        j = j + 1;
    }
    r
}

impl Solver {
    /// The opening cache answers exactly round 1, when it is enabled and the
    /// history holds the single opening observation.
    pub open spec fn cache_hit(&self, round: u8) -> bool {
        self.use_cache && round == 1 && self.patterns@.len() == 1
    }

    /// The position of the first still-valid candidate.
    fn first_valid(&self) -> (r: usize)
        requires
            self.inv(),
            count_true_upto(self.valid_table@, self.valid_table@.len() as int) > 0,
        ensures
            r < self.candidates@.len(),
            self.valid_table@[r as int],
            forall|k: int| 0 <= k < r ==> !(#[trigger] self.valid_table@[k]),
    {
        let n = self.valid_table.len();
        let mut j: usize = 0;
        while j < n
            invariant
                j <= n == self.valid_table@.len(),
                n == self.candidates@.len(),
                forall|k: int| 0 <= k < j ==> !(#[trigger] self.valid_table@[k]),
            decreases n - j,
        {
            if self.valid_table[j] {
                return j;
            }
            j = j + 1;
        }
        proof {
            lemma_count_true_zero(self.valid_table@, n as int);
            assert(false);
        }
        0
    }

    /// The score of candidate `table_index` as the next guess: bucket the
    /// still-valid candidates by the verdict each would hand this guess,
    /// then add up the buckets' entropy weights.
    fn calculate_score(&self, table_index: usize) -> (r: u64)
        requires
            self.inv(),
            table_index < self.candidates@.len(),
        ensures
            r == score_spec(
                self.candidates@,
                self.valid_table@,
                self.candidates@[table_index as int]@,
            ),
    {
        let ghost gw = self.candidates@[table_index as int]@;
        let n = self.candidates.len();
        let mut counts = alloc_counts();
        let mut total: u64 = 0;
        let mut j: usize = 0;
        while j < n
            invariant
                j <= n == self.candidates@.len(),
                self.inv(),
                table_index < n,
                gw == self.candidates@[table_index as int]@,
                counts@.len() == 243,
                total == count_true_upto(self.valid_table@, j as int),
                total <= j,
                forall|p: int|
                    0 <= p < 243 ==> counts@[p] == bucket_count(
                        self.candidates@,
                        self.valid_table@,
                        gw,
                        p,
                        j as int,
                    ),
            decreases n - j,
        {
            if self.valid_word(j) {
                total = total + 1;
                let idx = grade_pair(&self.candidates[j], &self.candidates[table_index]);
                proof {
                    lemma_bucket_le_count(self.candidates@, self.valid_table@, gw, idx as int, j as int);
                    lemma_count_true_bound(self.valid_table@, j as int);
                }
                let cv = counts[idx];
                counts[idx] = cv + 1;
            }
            j = j + 1;
        }
        let mut score: u64 = 0;
        let mut p: usize = 0;
        while p < 243
            invariant
                p <= 243,
                n == self.candidates@.len(),
                self.inv(),
                counts@.len() == 243,
                total == count_true_upto(self.valid_table@, n as int),
                total <= n,
                forall|q: int|
                    0 <= q < 243 ==> counts@[q] == bucket_count(
                        self.candidates@,
                        self.valid_table@,
                        gw,
                        q,
                        n as int,
                    ),
                score == score_sum(self.candidates@, self.valid_table@, gw, total as nat, p as int),
                score <= p * 9007199254740992,
            decreases 243 - p,
        {
            let c = counts[p];
            proof {
                lemma_bucket_le_count(self.candidates@, self.valid_table@, gw, p as int, n as int);
            }
            if c > 0 {
                let w = entropy_weight_exec(c, total);
                score = score + w;
            }
            p = p + 1;
        }
        score
    }

    /// The next guess and its score. Round 0 always emits the fixed opening
    /// word. At round 1 an enabled opening cache answers by table lookup on
    /// the observed verdict's encoding. With exactly one surviving candidate
    /// that candidate is guessed. Otherwise every pool word is scored against
    /// the valid set and the first highest-scoring word wins.
    pub fn new_guess(&self, round: u8) -> (r: (Guess, u64))
        requires
            self.inv(),
        ensures
            round == 0 ==> r.0.state@ == opening_word() && r.1 == 0,
            round != 0 && self.cache_hit(round) ==> r.0.state@ == self.cache@[pattern_index_spec(
                self.patterns@[0].state@,
            )]@ && r.1 == 0,
            (round != 0 && self.cache_hit(round) && self.synced() && self.patterns@[0].chars@
                == opening_word() && cache_agrees(
                self.candidates@,
                self.cache@,
                self.patterns@[0].state@,
            )) ==> r.0.state@ == scan_choice(self.candidates@, self.valid_table@),
            round != 0 && !self.cache_hit(round) ==> r.0.state@ == scan_choice(
                self.candidates@,
                self.valid_table@,
            ),
            round != 0 && !self.cache_hit(round) && self.survive == 1 ==> r.1 == 0,
            round != 0 && !self.cache_hit(round) && self.survive != 1 ==> r.1 == score_spec(
                self.candidates@,
                self.valid_table@,
                r.0.state@,
            ) && best_choice(self, r.0.state@, r.1),
    {
        if round == 0 {
            return (Guess { state: opening_guess() }, 0);
        }
        if self.use_cache && round == 1 && self.patterns.len() == 1 {
            let idx = pattern_index(&self.patterns[0].state);
            let g = Guess { state: self.cache[idx].clone() };
            proof {
                let v = self.patterns@[0].state@;
                if self.synced() && self.patterns@[0].chars@ == opening_word() && cache_agrees(
                    self.candidates@,
                    self.cache@,
                    v,
                ) {
                    assert forall|i: int| 0 <= i < self.valid_table@.len() implies
                        #[trigger] self.valid_table@[i] == opening_mask(self.candidates@, v)[i] by {
                        assert(self.valid_table@[i] <==> consistent_all(
                            self.candidates@[i]@,
                            self.patterns@,
                        ));
                        if compatible(self.candidates@[i]@, opening_word(), v) {
                            assert forall|k: int| 0 <= k < self.patterns@.len() implies compatible(
                                self.candidates@[i]@,
                                (#[trigger] self.patterns@[k]).chars@,
                                self.patterns@[k].state@,
                            ) by {
                                assert(k == 0);
                            }
                        }
                    }
                    assert(self.valid_table@ =~= opening_mask(self.candidates@, v));
                    assert(g.state@ == scan_choice(self.candidates@, self.valid_table@));
                }
            }
            return (g, 0);
        }
        if self.survive == 1 {
            let i = self.first_valid();
            proof {
                lemma_first_true_characterize(self.valid_table@, 0, i as int);
            }
            return (Guess { state: self.candidates[i].clone() }, 0);
        }
        let n = self.candidates.len();
        let mut best_score = self.calculate_score(0);
        let mut best: usize = 0;
        let mut i: usize = 1;
        while i < n
            invariant
                1 <= i <= n == self.candidates@.len(),
                best < i,
                self.inv(),
                best as int == best_upto(self.candidates@, self.valid_table@, i as int),
                best_score == score_spec(
                    self.candidates@,
                    self.valid_table@,
                    self.candidates@[best as int]@,
                ),
                forall|j: int|
                    0 <= j < i ==> score_spec(
                        self.candidates@,
                        self.valid_table@,
                        (#[trigger] self.candidates@[j])@,
                    ) <= best_score,
                forall|j: int|
                    0 <= j < best ==> score_spec(
                        self.candidates@,
                        self.valid_table@,
                        (#[trigger] self.candidates@[j])@,
                    ) < best_score,
            decreases n - i,
        {
            let s = self.calculate_score(i);
            if s > best_score {
                best_score = s;
                best = i;
            }
            i = i + 1;
        }
        let g = Guess { state: self.candidates[best].clone() };
        proof {
            assert(0 <= best < self.candidates@.len() && g.state@ == (
            self.candidates@[best as int])@ && best_score == score_spec(
                self.candidates@,
                self.valid_table@,
                self.candidates@[best as int]@,
            ));
        }
        (g, best_score)
    }
}

proof fn lemma_pattern_index_injective_upto(v: Seq<GuessState>, w: Seq<GuessState>, n: int)
    requires
        0 <= n,
        pattern_index_upto(v, n) == pattern_index_upto(w, n),
    ensures
        forall|k: int| 0 <= k < n ==> v[k] == w[k],
    decreases n,
{
    if n > 0 {
        let pv = pattern_index_upto(v, n - 1);
        let dv = pattern_digit(v[n - 1]);
        let pw = pattern_index_upto(w, n - 1);
        let dw = pattern_digit(w[n - 1]);
        assert(0 <= dv < 3);
        assert(0 <= dw < 3);
        assert(pv * 3 + dv == pw * 3 + dw);
        assert(pv == pw && dv == dw);
        lemma_pattern_index_injective_upto(v, w, n - 1);
        assert(v[n - 1] == w[n - 1]);
        assert forall|k: int| 0 <= k < n implies v[k] == w[k] by {
            if k < n - 1 {
            }
        }
    }
}

/// Two verdicts with one base-3 encoding are the same verdict.
pub proof fn lemma_pattern_index_injective(v: Seq<GuessState>, w: Seq<GuessState>)
    requires
        v.len() == 5,
        w.len() == 5,
        pattern_index_spec(v) == pattern_index_spec(w),
    ensures
        v == w,
{
    lemma_pattern_index_injective_upto(v, w, 5);
    assert(v =~= w);
}

/// A mask narrowed by one verdict `v` keeps exactly the members of `v`'s
/// bucket: the candidates that were valid and grade the guess to `v`.
proof fn lemma_filtered_count_is_bucket(
    cands: Seq<String>,
    valid: Seq<bool>,
    g: Seq<char>,
    v: Seq<GuessState>,
    m2: Seq<bool>,
    n: int,
)
    requires
        0 <= n <= cands.len(),
        valid.len() == cands.len(),
        m2.len() == cands.len(),
        v.len() == 5,
        forall|i: int|
            0 <= i < cands.len() ==> ((#[trigger] m2[i]) <==> (valid[i] && compatible(
                cands[i]@,
                g,
                v,
            ))),
    ensures
        count_true_upto(m2, n) == bucket_count(cands, valid, g, pattern_index_spec(v), n),
    decreases n,
{
    if n > 0 {
        lemma_filtered_count_is_bucket(cands, valid, g, v, m2, n - 1);
        let gr = grade_spec(cands[n - 1]@, g);
        if valid[n - 1] && pattern_index_spec(gr) == pattern_index_spec(v) {
            lemma_pattern_index_injective(gr, v);
        }
    }
}

/// A bucket that holds the whole valid set holds every valid candidate.
proof fn lemma_full_bucket_all_members(
    cands: Seq<String>,
    valid: Seq<bool>,
    g: Seq<char>,
    pat: int,
    n: int,
)
    requires
        0 <= n <= cands.len(),
        valid.len() == cands.len(),
        bucket_count(cands, valid, g, pat, n) == count_true_upto(valid, n),
    ensures
        forall|j: int|
            0 <= j < n && #[trigger] valid[j] ==> pattern_index_spec(grade_spec(cands[j]@, g))
                == pat,
    decreases n,
{
    if n > 0 {
        lemma_bucket_le_count(cands, valid, g, pat, n - 1);
        lemma_full_bucket_all_members(cands, valid, g, pat, n - 1);
    }
}

/// When every valid candidate sits in bucket `pat`, every other bucket is
/// empty.
proof fn lemma_other_buckets_empty(
    cands: Seq<String>,
    valid: Seq<bool>,
    g: Seq<char>,
    pat: int,
    q: int,
    n: int,
)
    requires
        0 <= n <= cands.len(),
        valid.len() == cands.len(),
        q != pat,
        forall|j: int|
            0 <= j < n && #[trigger] valid[j] ==> pattern_index_spec(grade_spec(cands[j]@, g))
                == pat,
    ensures
        bucket_count(cands, valid, g, q, n) == 0,
    decreases n,
{
    if n > 0 {
        lemma_other_buckets_empty(cands, valid, g, pat, q, n - 1);
    }
}

/// The score is 0 when one bucket holds the whole valid set.
proof fn lemma_one_bucket_score_zero(
    cands: Seq<String>,
    valid: Seq<bool>,
    g: Seq<char>,
    total: nat,
    pat: int,
    k: int,
)
    requires
        0 <= k <= 243,
        valid.len() == cands.len(),
        total == count_true_upto(valid, cands.len() as int),
        bucket_count(cands, valid, g, pat, cands.len() as int) == total,
        forall|q: int|
            0 <= q < 243 && q != pat ==> bucket_count(cands, valid, g, q, cands.len() as int) == 0,
    ensures
        score_sum(cands, valid, g, total, k) == 0,
    decreases k,
{
    if k > 0 {
        lemma_one_bucket_score_zero(cands, valid, g, total, pat, k - 1);
        let c = bucket_count(cands, valid, g, k - 1, cands.len() as int);
        if k - 1 == pat {
            assert(c == total);
            if total >= 1 && total < 4294967296 {
                assert(entropy_weight(total, total) == total * (log2_fixed(total) - log2_fixed(
                    total,
                )));
                assert(total * 0 == 0) by (nonlinear_arith);
            }
        } else {
            assert(c == 0);
        }
    }
}

/// A positive-scoring guess, once honestly graded against a still-valid
/// secret, strictly shrinks the valid set: were the observed verdict's
/// bucket the whole valid set, the score would have been 0.
pub proof fn lemma_positive_score_narrows(
    cands: Seq<String>,
    valid: Seq<bool>,
    g: Seq<char>,
    si: int,
    m2: Seq<bool>,
)
    requires
        valid.len() == cands.len(),
        m2.len() == cands.len(),
        cands.len() < 4294967296,
        0 <= si < cands.len(),
        valid[si],
        forall|i: int|
            0 <= i < cands.len() ==> ((#[trigger] m2[i]) <==> (valid[i] && compatible(
                cands[i]@,
                g,
                grade_spec(cands[si]@, g),
            ))),
        score_spec(cands, valid, g) > 0,
    ensures
        count_true_upto(m2, cands.len() as int) < count_true_upto(valid, cands.len() as int),
{
    let n = cands.len() as int;
    let v = grade_spec(cands[si]@, g);
    let pat = pattern_index_spec(v);
    let total = count_true_upto(valid, n);
    lemma_filtered_count_is_bucket(cands, valid, g, v, m2, n);
    lemma_bucket_le_count(cands, valid, g, pat, n);
    if bucket_count(cands, valid, g, pat, n) == total {
        lemma_full_bucket_all_members(cands, valid, g, pat, n);
        assert forall|q: int| 0 <= q < 243 && q != pat implies bucket_count(
            cands,
            valid,
            g,
            q,
            n,
        ) == 0 by {
            lemma_other_buckets_empty(cands, valid, g, pat, q, n);
        }
        lemma_pattern_index_bound(v, 5);
        assert(three_to(5) == 243) by {
            reveal_with_fuel(three_to, 6);
        }
        lemma_one_bucket_score_zero(cands, valid, g, total, pat, 243);
        assert(false);
    }
}

/// Grading a guess against a secret that differs from it somewhere cannot
/// come out all-`Correct`.
proof fn lemma_distinct_grade_not_all_correct(w: Seq<char>, g: Seq<char>)
    requires
        w.len() == 5,
        g.len() == 5,
        w != g,
    ensures
        grade_spec(w, g) != grade_spec(g, g),
{
    assert(!(w =~= g));
    let p = choose|p: int| 0 <= p < 5 && w[p] != g[p];
    assert(grade_spec(w, g)[p] != GuessState::Correct);
    assert(grade_spec(g, g)[p] == GuessState::Correct);
}

/// A valid candidate in a bucket makes the bucket non-empty.
proof fn lemma_bucket_member(
    cands: Seq<String>,
    valid: Seq<bool>,
    g: Seq<char>,
    pat: int,
    j: int,
    n: int,
)
    requires
        0 <= j < n <= cands.len(),
        valid.len() == cands.len(),
        valid[j],
        pattern_index_spec(grade_spec(cands[j]@, g)) == pat,
    ensures
        bucket_count(cands, valid, g, pat, n) >= 1,
    decreases n,
{
    if j < n - 1 {
        lemma_bucket_member(cands, valid, g, pat, j, n - 1);
    }
}

/// Two different buckets never hold more, together, than the valid set.
proof fn lemma_two_buckets_le_count(
    cands: Seq<String>,
    valid: Seq<bool>,
    g: Seq<char>,
    p: int,
    q: int,
    n: int,
)
    requires
        0 <= n <= cands.len(),
        valid.len() == cands.len(),
        p != q,
    ensures
        bucket_count(cands, valid, g, p, n) + bucket_count(cands, valid, g, q, n)
            <= count_true_upto(valid, n),
    decreases n,
{
    if n > 0 {
        lemma_two_buckets_le_count(cands, valid, g, p, q, n - 1);
    }
}

/// Doubling a value adds exactly one bit to its fixed-point logarithm.
proof fn lemma_log2_fixed_double(c: nat)
    requires
        1 <= c < 2147483648,
    ensures
        log2_fixed(2 * c) == log2_fixed(c) + 65536,
{
    assert((2 * c) / 2 == c);
    assert(floor_log2(2 * c) == floor_log2(c) + 1);
    assert(norm31(2 * c) == norm31(c));
}

/// A bucket of at most half the valid set weighs at least one fixed-point
/// bit.
proof fn lemma_weight_of_small_bucket(c: nat, total: nat)
    requires
        1 <= c,
        2 * c <= total,
        total < 4294967296,
    ensures
        entropy_weight(c, total) >= 65536,
{
    crate::score::lemma_log2_fixed_mono(2 * c, total);
    lemma_log2_fixed_double(c);
    let d = log2_fixed(total) - log2_fixed(c);
    assert(d >= 65536);
    assert(c * d >= 1 * d) by (nonlinear_arith)
        requires
            c >= 1,
            d >= 0,
    ;
}

proof fn lemma_score_sum_nonneg(
    cands: Seq<String>,
    valid: Seq<bool>,
    g: Seq<char>,
    total: nat,
    k: int,
)
    requires
        total < 4294967296,
    ensures
        score_sum(cands, valid, g, total, k) >= 0,
    decreases k,
{
    if k > 0 {
        lemma_score_sum_nonneg(cands, valid, g, total, k - 1);
        crate::score::lemma_entropy_weight_bound(
            bucket_count(cands, valid, g, k - 1, cands.len() as int),
            total,
        );
    }
}

/// The score dominates each single bucket's weight.
proof fn lemma_score_ge_term(
    cands: Seq<String>,
    valid: Seq<bool>,
    g: Seq<char>,
    total: nat,
    q: int,
    k: int,
)
    requires
        0 <= q < k,
        total < 4294967296,
    ensures
        score_sum(cands, valid, g, total, k) >= entropy_weight(
            bucket_count(cands, valid, g, q, cands.len() as int),
            total,
        ),
    decreases k,
{
    if q == k - 1 {
        lemma_score_sum_nonneg(cands, valid, g, total, k - 1);
    } else {
        lemma_score_ge_term(cands, valid, g, total, q, k - 1);
        crate::score::lemma_entropy_weight_bound(
            bucket_count(cands, valid, g, k - 1, cands.len() as int),
            total,
        );
    }
}

/// While two different words are both still valid, scanning cannot go blind:
/// the first of them, taken as a guess, already has positive score, because
/// it splits the valid set into at least two buckets and the smaller one
/// carries at least one bit. Together with `lemma_positive_score_narrows`
/// this is why an honest run keeps strictly shrinking the valid set until
/// one candidate is left.
pub proof fn lemma_two_survivors_positive_score(
    cands: Seq<String>,
    valid: Seq<bool>,
    i: int,
    j: int,
)
    requires
        valid.len() == cands.len(),
        cands.len() < 4294967296,
        wf_pool(cands),
        0 <= i < cands.len(),
        0 <= j < cands.len(),
        valid[i],
        valid[j],
        cands[i]@ != cands[j]@,
    ensures
        score_spec(cands, valid, cands[i]@) > 0,
{
    let n = cands.len() as int;
    let g = cands[i]@;
    let vi = grade_spec(g, g);
    let vj = grade_spec(cands[j]@, g);
    lemma_distinct_grade_not_all_correct(cands[j]@, g);
    let pat_i = pattern_index_spec(vi);
    let pat_j = pattern_index_spec(vj);
    if pat_i == pat_j {
        lemma_pattern_index_injective(vi, vj);
        assert(false);
    }
    lemma_pattern_index_bound(vi, 5);
    lemma_pattern_index_bound(vj, 5);
    assert(three_to(5) == 243) by {
        reveal_with_fuel(three_to, 6);
    }
    lemma_bucket_member(cands, valid, g, pat_i, i, n);
    lemma_bucket_member(cands, valid, g, pat_j, j, n);
    lemma_two_buckets_le_count(cands, valid, g, pat_i, pat_j, n);
    lemma_count_true_bound(valid, n);
    let total = count_true_upto(valid, n);
    let size_i = bucket_count(cands, valid, g, pat_i, n);
    let size_j = bucket_count(cands, valid, g, pat_j, n);
    if 2 * size_i <= total {
        lemma_weight_of_small_bucket(size_i, total);
        lemma_score_ge_term(cands, valid, g, total, pat_i, 243);
    } else {
        assert(2 * size_j <= total);
        lemma_weight_of_small_bucket(size_j, total);
        lemma_score_ge_term(cands, valid, g, total, pat_j, 243);
    }
}

/// The guess the entropy scan returns carries positive score whenever two
/// different words are still valid: its score is no less than either's.
pub proof fn lemma_entropy_choice_positive(s: &Solver, w: Seq<char>, sc: u64, i: int, j: int)
    requires
        s.inv(),
        best_choice(s, w, sc),
        0 <= i < s.candidates@.len(),
        0 <= j < s.candidates@.len(),
        s.valid_table@[i],
        s.valid_table@[j],
        s.candidates@[i]@ != s.candidates@[j]@,
    ensures
        sc > 0,
{
    lemma_two_survivors_positive_score(s.candidates@, s.valid_table@, i, j);
    let b = choose|b: int|
        {
            &&& 0 <= b < s.candidates@.len()
            &&& w == (#[trigger] s.candidates@[b])@
            &&& sc == score_spec(s.candidates@, s.valid_table@, s.candidates@[b]@)
            &&& (forall|k: int|
                0 <= k < s.candidates@.len() ==> score_spec(
                    s.candidates@,
                    s.valid_table@,
                    (#[trigger] s.candidates@[k])@,
                ) <= sc)
            &&& (forall|k: int|
                0 <= k < b ==> score_spec(
                    s.candidates@,
                    s.valid_table@,
                    (#[trigger] s.candidates@[k])@,
                ) < sc)
        };
    assert(score_spec(s.candidates@, s.valid_table@, s.candidates@[i]@) <= sc);
}

proof fn lemma_count_true_member(s: Seq<bool>, j: int, n: int)
    requires
        0 <= j < n <= s.len(),
        s[j],
    ensures
        count_true_upto(s, n) >= 1,
    decreases n,
{
    if j < n - 1 {
        lemma_count_true_member(s, j, n - 1);
    }
}

/// When the mask holds exactly one `true`, any two valid indices coincide:
/// the lone survivor is unique. With an honest verdict history the secret is
/// always among the survivors, so the lone survivor is the secret, and the
/// solver's next guess wins the game.
pub proof fn lemma_single_survivor_unique(s: Seq<bool>, a: int, b: int)
    requires
        count_true_upto(s, s.len() as int) == 1,
        0 <= a < s.len(),
        0 <= b < s.len(),
        s[a],
        s[b],
    ensures
        a == b,
{
    if a != b {
        lemma_two_trues_count(s, a, b, s.len() as int);
    }
}

proof fn lemma_two_trues_count(s: Seq<bool>, a: int, b: int, n: int)
    requires
        0 <= a < n,
        0 <= b < n,
        n <= s.len(),
        a != b,
        s[a],
        s[b],
    ensures
        count_true_upto(s, n) >= 2,
    decreases n,
{
    if a < n - 1 && b < n - 1 {
        lemma_two_trues_count(s, a, b, n - 1);
    } else if a == n - 1 {
        lemma_count_true_member(s, b, n - 1);
    } else {
        lemma_count_true_member(s, a, n - 1);
    }
}

/// One full entropy round strictly narrows the belief set. If two different
/// words are still valid, the scan's chosen guess (`best_choice`) has
/// positive score; and once that guess is graded against a still-valid
/// secret and observed (the mask update `observe` promises), strictly fewer
/// candidates survive. Rounds therefore keep shrinking the valid set — while
/// the secret itself always survives — until a single candidate is left,
/// which the solver then guesses.
pub proof fn lemma_entropy_round_narrows(
    pre: &Solver,
    post: &Solver,
    g: Seq<char>,
    sc: u64,
    si: int,
    i: int,
    j: int,
)
    requires
        pre.inv(),
        post.inv(),
        best_choice(pre, g, sc),
        0 <= si < pre.candidates@.len(),
        pre.valid_table@[si],
        0 <= i < pre.candidates@.len(),
        0 <= j < pre.candidates@.len(),
        pre.valid_table@[i],
        pre.valid_table@[j],
        pre.candidates@[i]@ != pre.candidates@[j]@,
        post.candidates@ == pre.candidates@,
        post.valid_table@.len() == pre.valid_table@.len(),
        forall|k: int|
            0 <= k < pre.valid_table@.len() ==> ((#[trigger] post.valid_table@[k]) <==> (
            pre.valid_table@[k] && compatible(
                pre.candidates@[k]@,
                g,
                grade_spec(pre.candidates@[si]@, g),
            ))),
    ensures
        post.survive < pre.survive,
{
    lemma_entropy_choice_positive(pre, g, sc, i, j);
    let b = choose|b: int|
        {
            &&& 0 <= b < pre.candidates@.len()
            &&& g == (#[trigger] pre.candidates@[b])@
            &&& sc == score_spec(pre.candidates@, pre.valid_table@, pre.candidates@[b]@)
            &&& (forall|k: int|
                0 <= k < pre.candidates@.len() ==> score_spec(
                    pre.candidates@,
                    pre.valid_table@,
                    (#[trigger] pre.candidates@[k])@,
                ) <= sc)
            &&& (forall|k: int|
                0 <= k < b ==> score_spec(
                    pre.candidates@,
                    pre.valid_table@,
                    (#[trigger] pre.candidates@[k])@,
                ) < sc)
        };
    assert(score_spec(pre.candidates@, pre.valid_table@, g) == sc);
    lemma_positive_score_narrows(pre.candidates@, pre.valid_table@, g, si, post.valid_table@);
}

} // verus!
