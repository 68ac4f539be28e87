//! Feedback marks and how one round of feedback narrows a candidate list.
use vstd::prelude::*;
use vstd::string::StrSliceExecFns;
use crate::words::{absent_words, correct_words, present_words, WORD_LEN};

verus! {

/// One of the three marks: `g` (correct), `y` (present) or `.` (absent).
pub open spec fn is_mark(m: char) -> bool {
    m == 'g' || m == 'y' || m == '.'
}

/// The number of marks read from position `k` on: reading stops at the
/// end of the text, at a line break, or after `WORD_LEN` marks.
pub open spec fn read_from(marks: Seq<char>, k: int) -> int
    decreases WORD_LEN - k,
{
    if k < 0 || k >= WORD_LEN || k >= marks.len() || marks[k] == '\n' {
        k
    } else {
        read_from(marks, k + 1)
    }
}

/// The number of marks of a feedback text that are read.
pub open spec fn marks_read(marks: Seq<char>) -> int {
    read_from(marks, 0)
}

/// Every mark that is read is one of the three marks.
pub open spec fn marks_valid(marks: Seq<char>) -> bool {
    forall|i: int| 0 <= i < marks_read(marks) ==> is_mark(#[trigger] marks[i])
}

/// The letter guessed at `i` is marked correct at another position of the
/// same feedback.
pub open spec fn shadowed_by_correct(guess: Seq<char>, marks: Seq<char>, i: int) -> bool {
    exists|j: int|
        0 <= j < marks.len() && j < guess.len() && j != i && marks[j] == 'g' && #[trigger] guess[j]
            == guess[i]
}

/// The letter guessed at `i` was guessed before, at an earlier position.
pub open spec fn repeats_earlier(guess: Seq<char>, i: int) -> bool {
    exists|k: int| 0 <= k < i && #[trigger] guess[k] == guess[i]
}

/// The candidates `s` after the mark at position `i` of a feedback on
/// `guess`. An absent mark that is shadowed by a correct mark of the same
/// letter, or that is not the letter's first occurrence, changes nothing.
pub open spec fn step(s: Seq<Seq<char>>, guess: Seq<char>, marks: Seq<char>, i: int) -> Seq<
    Seq<char>,
> {
    let c = guess[i];
    if marks[i] == 'g' {
        correct_words(c, i, s)
    } else if marks[i] == 'y' {
        present_words(c, i, s)
    } else if marks[i] == '.' && !shadowed_by_correct(guess, marks, i) && !repeats_earlier(
        guess,
        i,
    ) {
        absent_words(c, s)
    } else {
        s
    }
}

/// The candidates `s` after the first `n` marks of a feedback on `guess`,
/// applied left to right.
pub open spec fn narrow(s: Seq<Seq<char>>, guess: Seq<char>, marks: Seq<char>, n: int) -> Seq<
    Seq<char>,
>
    decreases n,
{
    if n <= 0 {
        s
    } else {
        step(narrow(s, guess, marks, n - 1), guess, marks, n - 1)
    }
}

/// Narrowing never adds a word: every word left was a candidate before,
/// and the list does not grow.
pub proof fn lemma_narrow_subset(s: Seq<Seq<char>>, guess: Seq<char>, marks: Seq<char>, n: int)
    ensures
        forall|w: Seq<char>| #[trigger] narrow(s, guess, marks, n).contains(w) ==> s.contains(w),
        narrow(s, guess, marks, n).len() <= s.len(),
    decreases n,
{
    broadcast use vstd::seq_lib::group_filter_ensures;
    if n > 0 {
        let t = narrow(s, guess, marks, n - 1);
        lemma_narrow_subset(s, guess, marks, n - 1);
        crate::words::lemma_filter_subset(t, crate::words::correct_pred(guess[n - 1], n - 1));
        crate::words::lemma_filter_subset(t, crate::words::present_pred(guess[n - 1], n - 1));
        crate::words::lemma_filter_subset(t, crate::words::absent_pred(guess[n - 1]));
    }
}

/// The feedback that marks every letter correct.
pub open spec fn all_correct() -> Seq<char> {
    seq!['g', 'g', 'g', 'g', 'g']
}

/// Marking every letter of the sole candidate correct keeps it as the sole
/// candidate.
pub proof fn lemma_perfect_match_keeps(w: Seq<char>)
    requires
        w.len() == WORD_LEN,
    ensures
        marks_valid(all_correct()),
        marks_read(all_correct()) == WORD_LEN,
        narrow(seq![w], w, all_correct(), marks_read(all_correct())) == seq![w],
{
    reveal_with_fuel(read_from, 6);
    lemma_correct_prefix_keeps(w, WORD_LEN as int);
}

/// The first `n` correct marks keep a sole candidate equal to the guess.
proof fn lemma_correct_prefix_keeps(w: Seq<char>, n: int)
    requires
        w.len() == WORD_LEN,
        n <= WORD_LEN,
    ensures
        narrow(seq![w], w, all_correct(), n) == seq![w],
    decreases n,
{
    if n > 0 {
        lemma_correct_prefix_keeps(w, n - 1);
        reveal_with_fuel(Seq::filter, 2);
        assert(seq![w].drop_last() =~= Seq::<Seq<char>>::empty());
        assert(all_correct()[n - 1] == 'g');
        assert(correct_words(w[n - 1], n - 1, seq![w]) =~= seq![w]);
    }
}

/// An absent mark whose letter is marked correct elsewhere in the same
/// feedback does not narrow the candidates.
pub proof fn lemma_shadowed_absent_skipped(
    s: Seq<Seq<char>>,
    guess: Seq<char>,
    marks: Seq<char>,
    i: int,
    j: int,
)
    requires
        0 <= i < guess.len(),
        0 <= j < guess.len(),
        j < marks.len(),
        i != j,
        guess[i] == guess[j],
        marks[j] == 'g',
        marks[i] == '.',
    ensures
        narrow(s, guess, marks, i + 1) == narrow(s, guess, marks, i),
{
    assert(shadowed_by_correct(guess, marks, i));
}

/// Of absent marks on a repeated letter, only the first occurrence filters
/// the candidates by the letter's absence; a later one changes nothing.
pub proof fn lemma_first_absent_only(
    s: Seq<Seq<char>>,
    guess: Seq<char>,
    marks: Seq<char>,
    k: int,
    i: int,
)
    requires
        0 <= k < i < guess.len(),
        guess[k] == guess[i],
        marks[k] == '.',
        marks[i] == '.',
        forall|j: int| 0 <= j < k ==> guess[j] != guess[k],
        !shadowed_by_correct(guess, marks, k),
    ensures
        narrow(s, guess, marks, k + 1) == absent_words(guess[k], narrow(s, guess, marks, k)),
        narrow(s, guess, marks, i + 1) == narrow(s, guess, marks, i),
{
    assert(repeats_earlier(guess, i));
}

/// Is the absent mark at `current_i` shadowed by a correct mark of the same
/// letter elsewhere in `feedback`?
pub fn check_exceptive_gray(attempt_word: &String, feedback: &String, current_i: usize) -> (r:
    bool)
    requires
        current_i < attempt_word@.len(),
    ensures
        r == shadowed_by_correct(attempt_word@, feedback@, current_i as int),
{
    let word = attempt_word.as_str();
    let marks = feedback.as_str();
    let current_char = word.get_char(current_i);
    let n_word = word.unicode_len();
    let n_marks = marks.unicode_len();
    let n = if n_word < n_marks {
        n_word
    } else {
        n_marks
    };
    let mut i: usize = 0;
    while i < n
        invariant
            word@ == attempt_word@,
            marks@ == feedback@,
            current_i < attempt_word@.len(),
            current_char == attempt_word@[current_i as int],
            n <= attempt_word@.len(),
            n <= feedback@.len(),
            n == attempt_word@.len() || n == feedback@.len(),
            i <= n,
            forall|j: int|
                0 <= j < i ==> !(j != current_i && feedback@[j] == 'g' && #[trigger] attempt_word@[j]
                    == current_char),
        decreases n - i,
    {
        if i != current_i && marks.get_char(i) == 'g' && word.get_char(i) == current_char {
            return true;
        }
        i = i + 1;
    }
    false
}

/// Is `feedback` exactly `WORD_LEN` marks?
pub fn is_valid_feedback(feedback: &String) -> (r: bool)
    ensures
        r == (feedback@.len() == WORD_LEN && forall|i: int|
            0 <= i < feedback@.len() ==> is_mark(#[trigger] feedback@[i])),
{
    let s = feedback.as_str();
    if s.unicode_len() != WORD_LEN {
        return false;
    }
    let mut i: usize = 0;
    while i < WORD_LEN
        invariant
            s@ == feedback@,
            feedback@.len() == WORD_LEN,
            i <= WORD_LEN,
            forall|k: int| 0 <= k < i ==> is_mark(#[trigger] feedback@[k]),
        decreases WORD_LEN - i,
    {
        let c = s.get_char(i);
        if c != 'g' && c != 'y' && c != '.' {
            return false;
        }
        i = i + 1;
    }
    true
}

} // verus!
