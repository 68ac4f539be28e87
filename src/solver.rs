//! The solver: the candidate words that are still possible, the words that
//! may be guessed, the next guess, and the narrowing by feedback.
use vstd::prelude::*;
use vstd::string::StrSliceExecFns;
use crate::marks::{
    check_exceptive_gray, is_mark, lemma_narrow_subset, marks_read, marks_valid, narrow,
    read_from, repeats_earlier, step,
};
use crate::scoring::{
    calc_letter_scores, calc_word_score, lemma_score_agree, lemma_score_bounds,
    max_index, reduction, table_score, word_score, MAX_WORDS, REFERENCE_POS,
};
use crate::words::{
    all_words, calc_gray_words, calc_green_words, calc_yellow_words, contains_before, is_letter,
    is_word, letter_index, words_of, WORD_LEN,
};

verus! {

/// Why the solver could not answer.
#[derive(Debug, Clone, Copy, PartialEq, Eq, Structural)]
pub enum SolveError {
    /// No candidate is consistent with the feedback received.
    NoCandidates,
    /// Several candidates remain, but there is no word to guess from.
    NoGuesses,
    /// A read mark of the feedback is none of `g`, `y` and `.`; `position`
    /// is the first such mark.
    InvalidMark { position: usize, mark: char },
}

/// The candidate words and the guess vocabulary.
pub struct Solver {
    candidate: Vec<String>,
    whole: Vec<String>,
}

/// The score of `w` as a guess against the candidates `s`: the sum of the
/// letter reductions over its distinct letters.
pub open spec fn guess_score(w: Seq<char>, s: Seq<Seq<char>>) -> int {
    word_score(w, |c: char| reduction(c, REFERENCE_POS as int, s))
}

/// `k` is the first guess of `g` with the highest score against `s`.
pub open spec fn is_best_guess(g: Seq<Seq<char>>, s: Seq<Seq<char>>, k: int) -> bool {
    &&& 0 <= k < g.len()
    &&& forall|j: int| 0 <= j < g.len() ==> guess_score(g[j], s) <= guess_score(g[k], s)
    &&& forall|j: int| 0 <= j < k ==> guess_score(g[j], s) < guess_score(g[k], s)
}

/// A new solver whose candidates are `candidate` and whose guesses are
/// drawn from `whole`.
pub fn new_solver(candidate: Vec<String>, whole: Vec<String>) -> (r: Solver)
    requires
        all_words(words_of(candidate@)),
        all_words(words_of(whole@)),
        candidate@.len() <= MAX_WORDS,
    ensures
        r.wf(),
        r.candidate_words() == words_of(candidate@),
        r.guess_words() == words_of(whole@),
{
    Solver { candidate: candidate, whole: whole }
}

impl Solver {
    /// The candidate words that are still possible, in order.
    pub closed spec fn candidate_words(&self) -> Seq<Seq<char>> {
        words_of(self.candidate@)
    }

    /// The words that may be guessed, in order.
    pub closed spec fn guess_words(&self) -> Seq<Seq<char>> {
        words_of(self.whole@)
    }

    /// Both lists hold words of the game, and the candidates are few enough
    /// for the scores to be computed.
    pub open spec fn wf(&self) -> bool {
        &&& all_words(self.candidate_words())
        &&& all_words(self.guess_words())
        &&& self.candidate_words().len() <= MAX_WORDS
    }

    /// The candidate words that are still possible.
    pub fn candidates(&self) -> (r: &Vec<String>)
        ensures
            words_of(r@) == self.candidate_words(),
    {
        &self.candidate
    }

    /// The next guess. A sole candidate is returned as it is. Otherwise the
    /// guess is the first word of the guess vocabulary with the highest
    /// score.
    pub fn attempt(&self) -> (r: Result<String, SolveError>)
        requires
            self.wf(),
        ensures
            self.candidate_words().len() == 0 ==> r == Err::<String, SolveError>(
                SolveError::NoCandidates,
            ),
            self.candidate_words().len() == 1 ==> r is Ok && r->Ok_0@
                == self.candidate_words()[0],
            self.candidate_words().len() >= 2 && self.guess_words().len() == 0 ==> r == Err::<
                String,
                SolveError,
            >(SolveError::NoGuesses),
            self.candidate_words().len() >= 2 && self.guess_words().len() > 0 ==> r is Ok
                && exists|k: int|
                is_best_guess(self.guess_words(), self.candidate_words(), k) && r->Ok_0@
                    == #[trigger] self.guess_words()[k],
    {
        let ghost s = self.candidate_words();
        let ghost g = self.guess_words();
        if self.candidate.len() == 1 {
            let w = self.candidate[0].clone();
            assert(s[0] == self.candidate@[0]@);
            return Ok(w);
        }
        if self.candidate.len() == 0 {
            return Err(SolveError::NoCandidates);
        }
        if self.whole.len() == 0 {
            return Err(SolveError::NoGuesses);
        }
        proof {
            assert forall|i: int| 0 <= i < s.len() implies REFERENCE_POS < #[trigger] s[i].len() by {
                assert(is_word(s[i]));
            }
        }
        let table = calc_letter_scores(&self.candidate);
        let ghost f = |c: char| reduction(c, REFERENCE_POS as int, s);
        let ghost bound: int = (s.len() * s.len()) as int;
        let mut scores: Vec<u128> = Vec::new();
        let mut i: usize = 0;
        while i < self.whole.len()
            invariant
                self.wf(),
                s == self.candidate_words(),
                g == self.guess_words(),
                f == (|c: char| reduction(c, REFERENCE_POS as int, s)),
                bound == s.len() * s.len(),
                table@.len() == 26,
                forall|c: char|
                    is_letter(c) ==> #[trigger] table@[letter_index(c)] == reduction(
                        c,
                        REFERENCE_POS as int,
                        s,
                    ),
                forall|k: int| 0 <= k < 26 ==> #[trigger] table@[k] <= bound,
                i <= g.len(),
                scores@.len() == i,
                forall|j: int| 0 <= j < i ==> #[trigger] scores@[j] == guess_score(g[j], s),
            decreases g.len() - i,
        {
            let w = &self.whole[i];
            proof {
                let ww = w@;
                assert(ww == g[i as int]);
                assert(is_word(ww));
                let tf = table_score(table@);
                assert forall|k: int| 0 <= k < ww.len() implies tf(#[trigger] ww[k]) == f(ww[k]) by {
                    assert(is_letter(ww[k]));
                }
                lemma_score_agree(ww, tf, f);
                assert forall|k: int| 0 <= k < ww.len() implies 0 <= #[trigger] tf(ww[k]) <= bound by {
                    assert(is_letter(ww[k]));
                    assert(0 <= letter_index(ww[k]) < 26);
                }
                lemma_score_bounds(ww, tf, bound, 0);
                let n = s.len() as int;
                assert(5 * (n * n) <= u128::MAX) by (nonlinear_arith)
                    requires
                        0 <= n <= 0x4000_0000_0000_0000,
                ;
            }
            let x = calc_word_score(w, &table);
            scores.push(x);
            i = i + 1;
        }
        let k = max_index(&scores);
        proof {
            assert(scores@[k as int] == guess_score(g[k as int], s));
            assert forall|j: int| 0 <= j < g.len() implies guess_score(g[j], s) <= guess_score(
                g[k as int],
                s,
            ) by {
                assert(scores@[j] == guess_score(g[j], s));
            }
            assert forall|j: int| 0 <= j < k implies guess_score(g[j], s) < guess_score(
                g[k as int],
                s,
            ) by {
                assert(scores@[j] == guess_score(g[j], s));
            }
        }
        let w = self.whole[k].clone();
        assert(w@ == g[k as int]);
        Ok(w)
    }

    /// Narrows the candidates by the feedback `feedback` on the guess
    /// `attempt_word`, one mark after the other. Reading stops at the end of
    /// the text, at a line break, or after `WORD_LEN` marks. When a read mark
    /// is none of `g`, `y` and `.`, the candidates are left as they were and
    /// the first such mark is reported.
    pub fn feedback(&mut self, attempt_word: String, feedback: String) -> (r: Result<
        (),
        SolveError,
    >)
        requires
            old(self).wf(),
            attempt_word@.len() == WORD_LEN,
        ensures
            final(self).wf(),
            final(self).guess_words() == old(self).guess_words(),
            forall|w: Seq<char>| #[trigger]
                final(self).candidate_words().contains(w) ==> old(
                    self,
                ).candidate_words().contains(w),
            r is Ok <==> marks_valid(feedback@),
            r is Ok ==> final(self).candidate_words() == narrow(
                old(self).candidate_words(),
                attempt_word@,
                feedback@,
                marks_read(feedback@),
            ),
            r is Err ==> final(self).candidate_words() == old(self).candidate_words(),
            r is Err ==> r->Err_0 is InvalidMark && {
                let position = r->Err_0->position;
                let mark = r->Err_0->mark;
                &&& position < marks_read(feedback@)
                &&& position < feedback@.len()
                &&& mark == feedback@[position as int]
                &&& !is_mark(mark)
                &&& forall|k: int| 0 <= k < position ==> is_mark(#[trigger] feedback@[k])
            },
    {
        let ghost s0 = self.candidate_words();
        let ghost guess = attempt_word@;
        let ghost m = feedback@;
        let word = attempt_word.as_str();
        let marks = feedback.as_str();
        let len = marks.unicode_len();
        let mut n: usize = 0;
        while n < WORD_LEN && n < len && marks.get_char(n) != '\n'
            invariant
                marks@ == m,
                len == m.len(),
                n <= WORD_LEN,
                n <= len,
                read_from(m, 0) == read_from(m, n as int),
                feedback@ == m,
                self.wf(),
                self.candidate_words() == s0,
                self.guess_words() == old(self).guess_words(),
            decreases WORD_LEN - n,
        {
            n = n + 1;
        }
        assert(marks_read(m) == n);
        let mut j: usize = 0;
        while j < n
            invariant
                marks@ == m,
                n == marks_read(m),
                n <= WORD_LEN,
                n <= m.len(),
                j <= n,
                forall|k: int| 0 <= k < j ==> is_mark(#[trigger] m[k]),
                feedback@ == m,
                self.wf(),
                self.candidate_words() == s0,
                self.guess_words() == old(self).guess_words(),
            decreases n - j,
        {
            let c = marks.get_char(j);
            if c != 'g' && c != 'y' && c != '.' {
                return Err(SolveError::InvalidMark { position: j, mark: c });
            }
            j = j + 1;
        }
        let mut i: usize = 0;
        while i < n
            invariant
                marks@ == m,
                word@ == guess,
                attempt_word@ == guess,
                feedback@ == m,
                guess.len() == WORD_LEN,
                n == marks_read(m),
                n <= WORD_LEN,
                n <= m.len(),
                marks_valid(m),
                i <= n,
                self.wf(),
                self.guess_words() == old(self).guess_words(),
                s0 == old(self).candidate_words(),
                all_words(s0),
                self.candidate_words() == narrow(s0, guess, m, i as int),
            decreases n - i,
        {
            let ghost t = self.candidate_words();
            proof {
                assert forall|k: int| 0 <= k < t.len() implies i < #[trigger] t[k].len() by {
                    assert(is_word(t[k]));
                }
                assert(self.candidate@.len() == t.len());
            }
            let mark = marks.get_char(i);
            let c = word.get_char(i);
            if mark == 'g' {
                self.candidate = calc_green_words(c, i, &self.candidate);
            } else if mark == 'y' {
                self.candidate = calc_yellow_words(c, i, &self.candidate);
            } else {
                let shadowed = check_exceptive_gray(&attempt_word, &feedback, i);
                let repeated = contains_before(&attempt_word, i, c);
                proof {
                    if repeated {
                        let k = choose|k: int| 0 <= k < i && guess.take(i as int)[k] == c;
                        assert(guess[k] == guess[i as int]);
                    }
                    if repeats_earlier(guess, i as int) {
                        let k = choose|k: int| 0 <= k < i && #[trigger] guess[k] == guess[i as int];
                        assert(guess.take(i as int)[k] == c);
                    }
                }
                if !shadowed && !repeated {
                    self.candidate = calc_gray_words(c, &self.candidate);
                }
            }
            proof {
                assert(is_mark(m[i as int]));
                assert(self.candidate_words() == step(t, guess, m, i as int));
                lemma_narrow_subset(s0, guess, m, i + 1);
                crate::words::lemma_all_words_subset(s0, self.candidate_words());
            }
            i = i + 1;
        }
        proof {
            lemma_narrow_subset(s0, guess, m, n as int);
        }
        Ok(())
    }
}

} // verus!
