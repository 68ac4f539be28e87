//! Word lists as text: one word per line.
use vstd::prelude::*;
use crate::words::words_of;

verus! {

/// The pieces of `s` between line breaks, in order: one more than there
/// are line breaks, empty ones included.
pub open spec fn lines_of(s: Seq<char>) -> Seq<Seq<char>>
    decreases s.len(),
{
    if s.len() == 0 {
        seq![Seq::<char>::empty()]
    } else {
        let p = lines_of(s.drop_last());
        if s.last() == '\n' {
            p.push(Seq::<char>::empty())
        } else {
            p.update(p.len() - 1, p.last().push(s.last()))
        }
    }
}

/// The test that keeps a line as a word.
pub open spec fn non_empty() -> spec_fn(Seq<char>) -> bool {
    |l: Seq<char>| l.len() > 0
}

/// Relies on `str::split` with a `char` pattern: the substrings of `text`
/// between the occurrences of the line break, in order, empty ones included.
#[verifier::external_body]
fn split_lines(text: &str) -> (r: Vec<String>)
    ensures
        words_of(r@) == lines_of(text@),
{
    text.split('\n').map(|l| l.to_string()).collect()
}

/// The words of a word list: its non-empty lines, in order.
pub fn parse_vocab(text: &str) -> (r: Vec<String>)
    ensures
        words_of(r@) == lines_of(text@).filter(non_empty()),
{
    let lines = split_lines(text);
    let ghost s = words_of(lines@);
    let mut out: Vec<String> = Vec::new();
    let mut i: usize = 0;
    while i < lines.len()
        invariant
            s == words_of(lines@),
            s == lines_of(text@),
            i <= lines.len(),
            words_of(out@) == s.take(i as int).filter(non_empty()),
        decreases lines.len() - i,
    {
        proof {
            crate::words::lemma_filter_take_step(s, i as int, non_empty());
        }
        let line = &lines[i];
        assert(line@ == s[i as int]);
        if !line.as_str().is_empty() {
            let copy = line.clone();
            assert(words_of(out@.push(copy)) =~= words_of(out@).push(copy@));
            out.push(copy);
        }
        i = i + 1;
    }
    assert(s.take(lines.len() as int) =~= s);
    out
}

} // verus!
