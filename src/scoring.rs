//! The expected-reduction heuristic: a score for each letter, a score for
//! each word, and the choice of the best guess.
//!
//! The expected reduction of a letter over `n` candidates is a sum of three
//! fractions with the common denominator `n`. Every score here is that
//! reduction multiplied by `n`: exact integers that rank letters and words
//! as the fractions do.
use vstd::prelude::*;
use crate::words::{
    absent_words, all_letters, all_reach, calc_gray_words, calc_green_words, calc_yellow_words,
    contains_before, correct_words, is_letter, lemma_partition, letter_at, letter_index,
    letter_offset, present_words, words_of,
};

verus! {

/// The largest candidate list the scores are computed for. A vector of
/// strings cannot hold more: it would exceed the address space.
pub const MAX_WORDS: u64 = 0x4000_0000_0000_0000;

/// `n` times the expected number of candidates that a mark of `c` at `p`
/// eliminates, where `n` is the size of `s`: for each outcome, its count
/// times the number of words in the other two outcomes.
pub open spec fn reduction(c: char, p: int, s: Seq<Seq<char>>) -> int {
    let g = correct_words(c, p, s).len() as int;
    let y = present_words(c, p, s).len() as int;
    let a = absent_words(c, s).len() as int;
    g * (y + a) + y * (g + a) + a * (g + y)
}

/// The sum of `f` over the distinct letters of `w`: a letter that occurred
/// before counts nothing.
pub open spec fn word_score(w: Seq<char>, f: spec_fn(char) -> int) -> int
    decreases w.len(),
{
    if w.len() == 0 {
        0
    } else {
        let rest = w.drop_last();
        word_score(rest, f) + if rest.contains(w.last()) {
            0
        } else {
            f(w.last())
        }
    }
}

/// The letter scores held in a table indexed by alphabet offset.
pub open spec fn table_score(t: Seq<u128>) -> spec_fn(char) -> int {
    |c: char| t[letter_index(c)] as int
}

/// `k` is the first position of a largest value of `s`.
pub open spec fn is_first_max(s: Seq<u128>, k: int) -> bool {
    &&& 0 <= k < s.len()
    &&& forall|j: int| 0 <= j < s.len() ==> s[j] <= s[k]
    &&& forall|j: int| 0 <= j < k ==> s[j] < s[k]
}

/// A repeated letter adds nothing to a word's score.
pub proof fn lemma_repeat_adds_nothing(w: Seq<char>, c: char, f: spec_fn(char) -> int)
    requires
        w.contains(c),
    ensures
        word_score(w.push(c), f) == word_score(w, f),
{
    assert(w.push(c).drop_last() =~= w);
}

/// A word's score depends only on the scores of its own letters.
pub proof fn lemma_score_agree(w: Seq<char>, f: spec_fn(char) -> int, g: spec_fn(char) -> int)
    requires
        forall|i: int| 0 <= i < w.len() ==> f(#[trigger] w[i]) == g(w[i]),
    ensures
        word_score(w, f) == word_score(w, g),
    decreases w.len(),
{
    if w.len() > 0 {
        let rest = w.drop_last();
        assert forall|i: int| 0 <= i < rest.len() implies f(#[trigger] rest[i]) == g(rest[i]) by {
            assert(rest[i] == w[i]);
        }
        lemma_score_agree(rest, f, g);
        assert(w.last() == w[w.len() - 1]);
    }
}

/// With letter scores between 0 and `b`, a word scores between 0 and its
/// length times `b`, and a prefix scores no more than the word.
pub proof fn lemma_score_bounds(w: Seq<char>, f: spec_fn(char) -> int, b: int, i: int)
    requires
        0 <= i <= w.len(),
        forall|k: int| 0 <= k < w.len() ==> 0 <= #[trigger] f(w[k]) <= b,
    ensures
        0 <= word_score(w.take(i), f) <= word_score(w, f) <= w.len() * b,
    decreases w.len(),
{
    if w.len() > 0 {
        let rest = w.drop_last();
        assert forall|k: int| 0 <= k < rest.len() implies 0 <= #[trigger] f(rest[k]) <= b by {
            assert(rest[k] == w[k]);
        }
        assert(f(w[w.len() - 1]) <= b);
        if i == w.len() {
            assert(w.take(i) =~= w);
            lemma_score_bounds(rest, f, b, i - 1);
        } else {
            assert(w.take(i) =~= rest.take(i));
            lemma_score_bounds(rest, f, b, i);
        }
        assert((w.len() - 1) * b + b == w.len() * b) by (nonlinear_arith);
    } else {
        assert(w.take(i) =~= w);
    }
}

/// The letter position that the letter scores are measured at.
pub const REFERENCE_POS: usize = 1;

/// The reduction of `c` over the candidates `vocab` when it is marked at
/// `index`.
pub fn calc_expected_reduction(c: char, index: usize, vocab: &Vec<String>) -> (r: u128)
    requires
        all_reach(words_of(vocab@), index as int),
        vocab@.len() <= MAX_WORDS,
    ensures
        r == reduction(c, index as int, words_of(vocab@)),
        r <= vocab@.len() * vocab@.len(),
{
    let g = calc_green_words(c, index, vocab);
    let y = calc_yellow_words(c, index, vocab);
    let gray = calc_gray_words(c, vocab);
    let ghost s = words_of(vocab@);
    proof {
        lemma_partition(c, index as int, s);
        assert(words_of(g@).len() == g@.len());
        assert(words_of(y@).len() == y@.len());
        assert(words_of(gray@).len() == gray@.len());
    }
    let n_g = g.len() as u128;
    let n_y = y.len() as u128;
    let n_gray = gray.len() as u128;
    let ghost n = s.len() as int;
    assert(n_g + n_y + n_gray == n);
    assert(n * n <= 0x1000_0000_0000_0000_0000_0000_0000_0000) by (nonlinear_arith)
        requires
            0 <= n <= 0x4000_0000_0000_0000,
    ;
    assert(n_g * (n_y + n_gray) + n_y * (n_g + n_gray) + n_gray * (n_g + n_y) <= n * n)
        by (nonlinear_arith)
        requires
            n_g + n_y + n_gray == n,
            0 <= n_g,
            0 <= n_y,
            0 <= n_gray,
    ;
    assert(n_g * (n_y + n_gray) <= n * n) by (nonlinear_arith)
        requires
            n_g + n_y + n_gray == n,
            0 <= n_g,
            0 <= n_y,
            0 <= n_gray,
    ;
    assert(n_y * (n_g + n_gray) <= n * n) by (nonlinear_arith)
        requires
            n_g + n_y + n_gray == n,
            0 <= n_g,
            0 <= n_y,
            0 <= n_gray,
    ;
    assert(n_gray * (n_g + n_y) <= n * n) by (nonlinear_arith)
        requires
            n_g + n_y + n_gray == n,
            0 <= n_g,
            0 <= n_y,
            0 <= n_gray,
    ;
    n_g * (n_y + n_gray) + n_y * (n_g + n_gray) + n_gray * (n_g + n_y)
}

/// The table of letter scores over the candidates `vocab`, indexed by
/// alphabet offset.
pub fn calc_letter_scores(vocab: &Vec<String>) -> (r: Vec<u128>)
    requires
        all_reach(words_of(vocab@), REFERENCE_POS as int),
        vocab@.len() <= MAX_WORDS,
    ensures
        r@.len() == 26,
        forall|c: char|
            is_letter(c) ==> #[trigger] r@[letter_index(c)] == reduction(
                c,
                REFERENCE_POS as int,
                words_of(vocab@),
            ),
        forall|k: int| 0 <= k < 26 ==> #[trigger] r@[k] <= vocab@.len() * vocab@.len(),
{
    let mut table: Vec<u128> = Vec::new();
    let mut k: usize = 0;
    while k < 26
        invariant
            all_reach(words_of(vocab@), REFERENCE_POS as int),
            vocab@.len() <= MAX_WORDS,
            k <= 26,
            table@.len() == k,
            forall|c: char|
                is_letter(c) && letter_index(c) < k ==> #[trigger] table@[letter_index(c)]
                    == reduction(c, REFERENCE_POS as int, words_of(vocab@)),
            forall|j: int| 0 <= j < k ==> #[trigger] table@[j] <= vocab@.len() * vocab@.len(),
        decreases 26 - k,
    {
        let c = letter_at(k);
        let x = calc_expected_reduction(c, REFERENCE_POS, vocab);
        table.push(x);
        k = k + 1;
    }
    table
}

/// The sum of the table's scores over the distinct letters of `word`.
pub fn calc_word_score(word: &String, char_scores: &Vec<u128>) -> (r: u128)
    requires
        char_scores.len() == 26,
        all_letters(word@),
        word_score(word@, table_score(char_scores@)) <= u128::MAX,
    ensures
        r == word_score(word@, table_score(char_scores@)),
{
    let ghost f = table_score(char_scores@);
    let s = word.as_str();
    let n = s.unicode_len();
    let mut score: u128 = 0;
    let mut i: usize = 0;
    while i < n
        invariant
            f == table_score(char_scores@),
            char_scores.len() == 26,
            all_letters(word@),
            word_score(word@, f) <= u128::MAX,
            s@ == word@,
            n == word@.len(),
            i <= n,
            score == word_score(word@.take(i as int), f),
        decreases n - i,
    {
        let c = s.get_char(i);
        proof {
            let b = u128::MAX as int;
            assert forall|k: int| 0 <= k < word@.len() implies 0 <= #[trigger] f(word@[k]) <= b by {
                assert(is_letter(word@[k]));
            }
            lemma_score_bounds(word@, f, b, i + 1);
            assert(word@.take(i + 1).drop_last() =~= word@.take(i as int));
            assert(word@.take(i + 1).last() == c);
        }
        if !contains_before(word, i, c) {
            assert(is_letter(word@[i as int]));
            score = score + char_scores[letter_offset(c)];
        }
        i = i + 1;
    }
    assert(word@.take(n as int) =~= word@);
    score
}

/// The index of the first largest value of `list`, or 0 when it is empty.
pub fn max_index(list: &Vec<u128>) -> (r: usize)
    ensures
        list@.len() == 0 ==> r == 0,
        list@.len() > 0 ==> is_first_max(list@, r as int),
{
    let mut best: usize = 0;
    let mut i: usize = 1;
    if list.len() == 0 {
        return 0;
    }
    while i < list.len()
        invariant
            0 < list@.len(),
            1 <= i <= list@.len(),
            best < i,
            forall|j: int| 0 <= j < i ==> list@[j] <= list@[best as int],
            forall|j: int| 0 <= j < best ==> list@[j] < list@[best as int],
        decreases list.len() - i,
    {
        if list[i] > list[best] {
            best = i;
        }
        i = i + 1;
    }
    best
}

} // verus!
