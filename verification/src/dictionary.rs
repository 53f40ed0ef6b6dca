//! The dictionary service: validates guesses against the word lists and
//! selects a random target word. The caller loads the word lists and hands
//! them in as plain vectors of strings.

use vstd::prelude::*;

verus! {

/// Errors of the dictionary service.
#[derive(Clone, Copy, Debug, PartialEq, Eq, Structural)]
pub enum DictionaryError {
    /// No candidate word is available for selection.
    EmptyDictionary,
}

/// Relies on rand::random_range: for a non-empty range `0..len` it returns
/// a value of that range, drawn from the thread-local generator; on an
/// empty range it panics, which `requires` rules out.
#[verifier::external_body]
fn random_index(len: usize) -> (index: usize)
    requires
        len > 0,
    ensures
        index < len,
{
    rand::random_range(0..len)
}

/// Picks a random word from the solution list `words`. Succeeds exactly
/// when the list is non-empty, and the chosen word is one of its entries.
pub fn select_wordle(words: &Vec<String>) -> (selected: Result<String, DictionaryError>)
    ensures
        selected is Ok <==> words@.len() > 0,
        selected matches Ok(w) ==> in_list(words@, w@),
        selected matches Err(e) ==> e == DictionaryError::EmptyDictionary,
{
    if words.len() == 0 {
        return Err(DictionaryError::EmptyDictionary);
    }
    let i = random_index(words.len());
    let w = words[i].clone();
    proof {
        assert(words@[i as int]@ == w@);
    }
    Ok(w)
}

/// The word `w` occurs in the list `words`.
pub open spec fn in_list(words: Seq<String>, w: Seq<char>) -> bool {
    exists|i: int| 0 <= i < words.len() && words[i]@ == w
}

/// Linear scan of `words` for the word `w`.
fn contains_word(words: &Vec<String>, w: &String) -> (found: bool)
    ensures
        found == in_list(words@, w@),
{
    let mut i: usize = 0;
    while i < words.len()
        invariant
            i <= words@.len(),
            forall|j: int| 0 <= j < i ==> words@[j]@ != w@,
        decreases words@.len() - i,
    {
        if w.eq(&words[i]) {
            return true;
        }
        i += 1;
    }
    false
}

/// Returns true if and only if `guess` appears in the solution list
/// `wordles` or in the broader accepted-guess list `candidates`.
pub fn valid_guess(guess: &String, wordles: &Vec<String>, candidates: &Vec<String>) -> (valid:
    bool)
    ensures
        valid == (in_list(wordles@, guess@) || in_list(candidates@, guess@)),
{
    if contains_word(wordles, guess) {
        true
    } else {
        contains_word(candidates, guess)
    }
}

} // verus!
