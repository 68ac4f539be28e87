//! A solver for the five-letter word-guessing game: it narrows a list of
//! candidate words by the feedback on each guess and ranks the next guess
//! by an expected-reduction heuristic.
pub mod words;
pub mod scoring;
pub mod marks;
pub mod solver;
pub mod vocab;
