//! Words and the three filters that sort a candidate list by how one letter
//! at one position would be marked.
use vstd::prelude::*;
use vstd::string::StrSliceExecFns;

verus! {

/// The number of letters in every word.
pub const WORD_LEN: usize = 5;

/// The words held by a vector of strings, as character sequences.
pub open spec fn words_of(v: Seq<String>) -> Seq<Seq<char>> {
    v.map_values(|w: String| w@)
}

/// A lowercase letter of the 26-letter alphabet.
pub open spec fn is_letter(c: char) -> bool {
    'a' <= c && c <= 'z'
}

/// Every character of `w` is a lowercase letter.
pub open spec fn all_letters(w: Seq<char>) -> bool {
    forall|i: int| 0 <= i < w.len() ==> is_letter(#[trigger] w[i])
}

/// A word of the game: `WORD_LEN` lowercase letters.
pub open spec fn is_word(w: Seq<char>) -> bool {
    w.len() == WORD_LEN && all_letters(w)
}

/// Every element of `s` is a word of the game.
pub open spec fn all_words(s: Seq<Seq<char>>) -> bool {
    forall|i: int| 0 <= i < s.len() ==> is_word(#[trigger] s[i])
}

/// Every element of a list drawn from a list of words is a word.
pub proof fn lemma_all_words_subset(s: Seq<Seq<char>>, t: Seq<Seq<char>>)
    requires
        all_words(s),
        forall|w: Seq<char>| #[trigger] t.contains(w) ==> s.contains(w),
    ensures
        all_words(t),
{
    assert forall|i: int| 0 <= i < t.len() implies is_word(#[trigger] t[i]) by {
        assert(t.contains(t[i]));
        let j = choose|j: int| 0 <= j < s.len() && s[j] == t[i];
        assert(is_word(s[j]));
    }
}

/// The offset of a letter in the alphabet.
pub open spec fn letter_index(c: char) -> int {
    c as int - 'a' as int
}

/// Does `c` occur among the first `end` characters of `w`?
pub fn contains_before(w: &String, end: usize, c: char) -> (r: bool)
    requires
        end <= w@.len(),
    ensures
        r == w@.take(end as int).contains(c),
{
    let s = w.as_str();
    let mut i: usize = 0;
    while i < end
        invariant
            end <= w@.len(),
            s@ == w@,
            i <= end,
            forall|k: int| 0 <= k < i ==> w@[k] != c,
        decreases end - i,
    {
        if s.get_char(i) == c {
            assert(w@.take(end as int)[i as int] == c);
            return true;
        }
        i = i + 1;
    }
    assert forall|k: int| 0 <= k < end implies w@.take(end as int)[k] != c by {}
    false
}

/// Does `c` occur in `w`?
pub fn word_contains(w: &String, c: char) -> (r: bool)
    ensures
        r == w@.contains(c),
{
    let n = w.as_str().unicode_len();
    assert(w@.take(n as int) =~= w@);
    contains_before(w, n, c)
}

/// Does `w` carry `c` at position `p`?
pub open spec fn is_correct(c: char, p: int, w: Seq<char>) -> bool {
    w[p] == c
}

/// Does `w` hold `c`, but not at position `p`?
pub open spec fn is_present(c: char, p: int, w: Seq<char>) -> bool {
    w[p] != c && w.contains(c)
}

/// Is `c` missing from `w`?
pub open spec fn is_absent(c: char, w: Seq<char>) -> bool {
    !w.contains(c)
}

/// The test that keeps a word in `correct_words`.
pub open spec fn correct_pred(c: char, p: int) -> spec_fn(Seq<char>) -> bool {
    |w: Seq<char>| is_correct(c, p, w)
}

/// The test that keeps a word in `present_words`.
pub open spec fn present_pred(c: char, p: int) -> spec_fn(Seq<char>) -> bool {
    |w: Seq<char>| is_present(c, p, w)
}

/// The test that keeps a word in `absent_words`.
pub open spec fn absent_pred(c: char) -> spec_fn(Seq<char>) -> bool {
    |w: Seq<char>| is_absent(c, w)
}

/// The words of `s`, in order, that carry `c` at position `p`.
pub open spec fn correct_words(c: char, p: int, s: Seq<Seq<char>>) -> Seq<Seq<char>> {
    s.filter(correct_pred(c, p))
}

/// The words of `s`, in order, that hold `c` elsewhere than at position `p`.
pub open spec fn present_words(c: char, p: int, s: Seq<Seq<char>>) -> Seq<Seq<char>> {
    s.filter(present_pred(c, p))
}

/// The words of `s`, in order, that do not hold `c`.
pub open spec fn absent_words(c: char, s: Seq<Seq<char>>) -> Seq<Seq<char>> {
    s.filter(absent_pred(c))
}

/// Every word of `s` has a letter at position `p`.
pub open spec fn all_reach(s: Seq<Seq<char>>, p: int) -> bool {
    &&& 0 <= p
    &&& forall|i: int| 0 <= i < s.len() ==> p < #[trigger] s[i].len()
}

/// Filtering one more element of a prefix either keeps or drops it.
pub proof fn lemma_filter_take_step<A>(s: Seq<A>, i: int, pred: spec_fn(A) -> bool)
    requires
        0 <= i < s.len(),
    ensures
        s.take(i + 1).filter(pred) == (if pred(s[i]) {
            s.take(i).filter(pred).push(s[i])
        } else {
            s.take(i).filter(pred)
        }),
{
    reveal(Seq::filter);
    assert(s.take(i + 1).drop_last() =~= s.take(i));
}

/// Appending one string to a vector appends its characters to the words.
proof fn lemma_words_push(v: Seq<String>, w: String)
    ensures
        words_of(v.push(w)) == words_of(v).push(w@),
{
    assert(words_of(v.push(w)) =~= words_of(v).push(w@));
}

/// The words of `vocab` whose letter at `index` is `c`.
pub fn calc_green_words(c: char, index: usize, vocab: &Vec<String>) -> (r: Vec<String>)
    requires
        all_reach(words_of(vocab@), index as int),
    ensures
        words_of(r@) == correct_words(c, index as int, words_of(vocab@)),
{
    let ghost s = words_of(vocab@);
    let ghost pred = correct_pred(c, index as int);
    let mut out: Vec<String> = Vec::new();
    let mut i: usize = 0;
    while i < vocab.len()
        invariant
            s == words_of(vocab@),
            all_reach(s, index as int),
            i <= vocab.len(),
            pred == correct_pred(c, index as int),
            words_of(out@) == s.take(i as int).filter(pred),
        decreases vocab.len() - i,
    {
        proof {
            lemma_filter_take_step(s, i as int, pred);
        }
        let w = &vocab[i];
        assert(w@ == s[i as int]);
        if w.as_str().get_char(index) == c {
            let copy = w.clone();
            proof {
                lemma_words_push(out@, copy);
            }
            out.push(copy);
        }
        i = i + 1;
    }
    assert(s.take(vocab.len() as int) =~= s);
    out
}

/// The words of `vocab` that hold `c`, but not at `index`.
pub fn calc_yellow_words(c: char, index: usize, vocab: &Vec<String>) -> (r: Vec<String>)
    requires
        all_reach(words_of(vocab@), index as int),
    ensures
        words_of(r@) == present_words(c, index as int, words_of(vocab@)),
{
    let ghost s = words_of(vocab@);
    let ghost pred = present_pred(c, index as int);
    let mut out: Vec<String> = Vec::new();
    let mut i: usize = 0;
    while i < vocab.len()
        invariant
            s == words_of(vocab@),
            all_reach(s, index as int),
            i <= vocab.len(),
            pred == present_pred(c, index as int),
            words_of(out@) == s.take(i as int).filter(pred),
        decreases vocab.len() - i,
    {
        proof {
            lemma_filter_take_step(s, i as int, pred);
        }
        let w = &vocab[i];
        assert(w@ == s[i as int]);
        if w.as_str().get_char(index) != c && word_contains(w, c) {
            let copy = w.clone();
            proof {
                lemma_words_push(out@, copy);
            }
            out.push(copy);
        }
        i = i + 1;
    }
    assert(s.take(vocab.len() as int) =~= s);
    out
}

/// The words of `vocab` that do not hold `c`.
pub fn calc_gray_words(c: char, vocab: &Vec<String>) -> (r: Vec<String>)
    ensures
        words_of(r@) == absent_words(c, words_of(vocab@)),
{
    let ghost s = words_of(vocab@);
    let ghost pred = absent_pred(c);
    let mut out: Vec<String> = Vec::new();
    let mut i: usize = 0;
    while i < vocab.len()
        invariant
            s == words_of(vocab@),
            i <= vocab.len(),
            pred == absent_pred(c),
            words_of(out@) == s.take(i as int).filter(pred),
        decreases vocab.len() - i,
    {
        proof {
            lemma_filter_take_step(s, i as int, pred);
        }
        let w = &vocab[i];
        assert(w@ == s[i as int]);
        if !word_contains(w, c) {
            let copy = w.clone();
            proof {
                lemma_words_push(out@, copy);
            }
            out.push(copy);
        }
        i = i + 1;
    }
    assert(s.take(vocab.len() as int) =~= s);
    out
}

/// The three filters split any candidate list exactly: their sizes add up
/// to the size of the list, and no word lands in two of them.
pub proof fn lemma_partition(c: char, p: int, s: Seq<Seq<char>>)
    requires
        all_reach(s, p),
    ensures
        correct_words(c, p, s).len() + present_words(c, p, s).len() + absent_words(c, s).len()
            == s.len(),
        forall|w: Seq<char>|
            !(#[trigger] correct_words(c, p, s).contains(w) && present_words(c, p, s).contains(
                w,
            )),
        forall|w: Seq<char>|
            !(#[trigger] correct_words(c, p, s).contains(w) && absent_words(c, s).contains(w)),
        forall|w: Seq<char>|
            !(#[trigger] present_words(c, p, s).contains(w) && absent_words(c, s).contains(w)),
    decreases s.len(),
{
    reveal(Seq::filter);
    if s.len() > 0 {
        lemma_partition(c, p, s.drop_last());
        let last = s.last();
        assert(p < s[s.len() - 1].len());
        if last[p] == c {
            assert(last.contains(c));
        }
    }
    assert forall|w: Seq<char>| #[trigger] correct_words(c, p, s).contains(w) implies is_correct(c, p, w) && p < w.len() by {
        lemma_filter_member(s, correct_pred(c, p), w);
    }
    assert forall|w: Seq<char>| #[trigger] present_words(c, p, s).contains(w) implies is_present(c, p, w) && p < w.len() by {
        lemma_filter_member(s, present_pred(c, p), w);
    }
    assert forall|w: Seq<char>| #[trigger] absent_words(c, s).contains(w) implies is_absent(c, w) && p < w.len() by {
        lemma_filter_member(s, absent_pred(c), w);
    }
    assert forall|w: Seq<char>| #[trigger] correct_words(c, p, s).contains(w) implies !absent_words(c, s).contains(w) by {
        assert(w[p] == c);
        assert(w.contains(c));
    }
}

/// What a filter keeps satisfies the test and comes from the input.
pub proof fn lemma_filter_member<A>(s: Seq<A>, pred: spec_fn(A) -> bool, x: A)
    requires
        s.filter(pred).contains(x),
    ensures
        pred(x),
        s.contains(x),
{
    broadcast use vstd::seq_lib::group_filter_ensures;
    let t = s.filter(pred);
    let j = choose|j: int| 0 <= j < t.len() && t[j] == x;
    assert(pred(t[j]));
    lemma_filter_subset(s, pred);
}

/// Everything a filter keeps was in its input.
pub proof fn lemma_filter_subset<A>(s: Seq<A>, pred: spec_fn(A) -> bool)
    ensures
        forall|x: A| #[trigger] s.filter(pred).contains(x) ==> s.contains(x),
    decreases s.len(),
{
    reveal(Seq::filter);
    if s.len() > 0 {
        lemma_filter_subset(s.drop_last(), pred);
        assert forall|x: A| #[trigger] s.filter(pred).contains(x) implies s.contains(x) by {
            let t = s.drop_last().filter(pred);
            if t.contains(x) {
                let k = choose|k: int| 0 <= k < s.drop_last().len() && s.drop_last()[k] == x;
                assert(s[k] == x);
            } else {
                assert(x == s.last());
                assert(s[s.len() - 1] == x);
            }
        }
    }
}

/// Is `w` a word of the game: `WORD_LEN` lowercase letters?
pub fn check_word(w: &String) -> (r: bool)
    ensures
        r == is_word(w@),
{
    let s = w.as_str();
    if s.unicode_len() != WORD_LEN {
        return false;
    }
    let mut i: usize = 0;
    while i < WORD_LEN
        invariant
            s@ == w@,
            w@.len() == WORD_LEN,
            i <= WORD_LEN,
            forall|k: int| 0 <= k < i ==> is_letter(#[trigger] w@[k]),
        decreases WORD_LEN - i,
    {
        let c = s.get_char(i);
        if !('a' <= c && c <= 'z') {
            return false;
        }
        i = i + 1;
    }
    true
}

/// The offset in the alphabet of a lowercase letter.
pub fn letter_offset(c: char) -> (r: usize)
    requires
        is_letter(c),
    ensures
        r as int == letter_index(c),
        r < 26,
{
    ((c as u32) - ('a' as u32)) as usize
}

/// The lowercase letter at offset `k` of the alphabet.
pub fn letter_at(k: usize) -> (c: char)
    requires
        k < 26,
    ensures
        is_letter(c),
        letter_index(c) == k,
{
    ((k as u8) + 97u8) as char
}

} // verus!
