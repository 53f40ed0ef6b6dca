//! The scoring engine: classifies each letter of a guess against the target
//! word, with duplicate letters handled by a two-pass algorithm.

use vstd::prelude::*;

verus! {

/// Classification of one guess letter against the target word.
#[derive(Clone, Copy, Debug, PartialEq, Eq, Structural)]
pub enum Score {
    /// The guess letter equals the target letter at this position.
    CorrectSpot,
    /// The letter occurs in the target, but not at this position, and not
    /// all of its occurrences are claimed yet.
    WrongSpot,
    /// The letter does not occur in the target, or every occurrence is
    /// already claimed by a higher-priority classification.
    NotPresent,
}

/// How many times the character `c` occurs in `s`.
pub open spec fn count_in(s: Seq<char>, c: char) -> nat
    decreases s.len(),
{
    if s.len() == 0 {
        0
    } else {
        count_in(s.drop_last(), c) + if s.last() == c {
            1nat
        } else {
            0nat
        }
    }
}

/// How many entries of a scored sequence claim the letter `c`, that is,
/// carry `c` with a classification other than `NotPresent`.
pub open spec fn claimed(scores: Seq<(char, Score)>, c: char) -> nat
    decreases scores.len(),
{
    if scores.len() == 0 {
        0
    } else {
        claimed(scores.drop_last(), c) + if scores.last().0 == c && scores.last().1
            != Score::NotPresent {
            1nat
        } else {
            0nat
        }
    }
}

/// How many entries of a scored sequence carry the letter `c` at all.
pub open spec fn letter_count(scores: Seq<(char, Score)>, c: char) -> nat
    decreases scores.len(),
{
    if scores.len() == 0 {
        0
    } else {
        letter_count(scores.drop_last(), c) + if scores.last().0 == c {
            1nat
        } else {
            0nat
        }
    }
}

/// How many entries of a scored sequence carry the letter `c` classified
/// `NotPresent`.
pub open spec fn not_present_count(scores: Seq<(char, Score)>, c: char) -> nat
    decreases scores.len(),
{
    if scores.len() == 0 {
        0
    } else {
        not_present_count(scores.drop_last(), c) + if scores.last().0 == c && scores.last().1
            == Score::NotPresent {
            1nat
        } else {
            0nat
        }
    }
}

/// First pass: every exact match is `CorrectSpot`, every other position is
/// provisionally `NotPresent`.
pub open spec fn pass1(target: Seq<char>, guess: Seq<char>) -> Seq<(char, Score)> {
    Seq::new(
        guess.len(),
        |i: int|
            (
                guess[i],
                if guess[i] == target[i] {
                    Score::CorrectSpot
                } else {
                    Score::NotPresent
                },
            ),
    )
}

/// One step of the second pass at position `i`: a position that is not an
/// exact match is reclassified `WrongSpot` when its letter still has
/// unclaimed occurrences in the target.
pub open spec fn pass2_step(target: Seq<char>, scores: Seq<(char, Score)>, i: int) -> Seq<
    (char, Score),
> {
    let c = scores[i].0;
    if scores[i].1 == Score::CorrectSpot {
        scores
    } else if count_in(target, c) > claimed(scores, c) {
        scores.update(i, (c, Score::WrongSpot))
    } else {
        scores
    }
}

/// The second pass applied to positions `0 .. n`, left to right, each step
/// consulting the claims made by the steps before it.
pub open spec fn pass2_upto(target: Seq<char>, scores: Seq<(char, Score)>, n: int) -> Seq<
    (char, Score),
>
    decreases n,
{
    if n <= 0 {
        scores
    } else {
        pass2_step(target, pass2_upto(target, scores, n - 1), n - 1)
    }
}

/// The scored guess: the first pass over all five positions, then the
/// second pass over all five positions.
pub open spec fn spec_score(target: Seq<char>, guess: Seq<char>) -> Seq<(char, Score)> {
    pass2_upto(target, pass1(target, guess), 5)
}

/// A scored guess solves the game when every position is `CorrectSpot`.
pub open spec fn spec_is_solved(scores: Seq<(char, Score)>) -> bool {
    forall|i: int| 0 <= i < scores.len() ==> scores[i].1 == Score::CorrectSpot
}

/// The second pass changes an entry only at a position it has already
/// processed, and only from `NotPresent` to `WrongSpot`; everything else,
/// in particular every `CorrectSpot`, is left as the first pass made it.
pub proof fn lemma_pass2_upto_frame(target: Seq<char>, scores: Seq<(char, Score)>, n: int)
    requires
        0 <= n <= scores.len(),
    ensures
        pass2_upto(target, scores, n).len() == scores.len(),
        forall|i: int|
            0 <= i < scores.len() ==> (#[trigger] pass2_upto(target, scores, n)[i] == scores[i]
                || (i < n && scores[i].1 == Score::NotPresent && pass2_upto(target, scores, n)[i]
                == (scores[i].0, Score::WrongSpot))),
    decreases n,
{
    if n > 0 {
        lemma_pass2_upto_frame(target, scores, n - 1);
    }
}

/// What one scored entry contributes to `claimed` for the letter `c`.
spec fn claim_of(entry: (char, Score), c: char) -> nat {
    if entry.0 == c && entry.1 != Score::NotPresent {
        1nat
    } else {
        0nat
    }
}

/// Updating one entry shifts `claimed` by the difference of the two
/// entries' contributions.
proof fn lemma_claimed_update(s: Seq<(char, Score)>, i: int, p: (char, Score), c: char)
    requires
        0 <= i < s.len(),
    ensures
        claimed(s.update(i, p), c) + claim_of(s[i], c) == claimed(s, c) + claim_of(p, c),
    decreases s.len(),
{
    let su = s.update(i, p);
    if i == s.len() - 1 {
        assert(su.drop_last() =~= s.drop_last());
        assert(su.last() == p);
    } else {
        assert(su.drop_last() =~= s.drop_last().update(i, p));
        lemma_claimed_update(s.drop_last(), i, p, c);
        assert(su.last() == s.last());
    }
}

/// When every claiming entry sits at a position where the other word has
/// its letter, the claims cannot outnumber that letter's occurrences.
proof fn lemma_claimed_le_count(t: Seq<char>, s: Seq<(char, Score)>, c: char)
    requires
        s.len() == t.len(),
        forall|i: int|
            0 <= i < s.len() && (#[trigger] s[i]).1 != Score::NotPresent ==> t[i] == s[i].0,
    ensures
        claimed(s, c) <= count_in(t, c),
    decreases s.len(),
{
    if s.len() > 0 {
        assert(forall|i: int|
            0 <= i < s.len() - 1 ==> #[trigger] s.drop_last()[i] == s[i] && t.drop_last()[i]
                == t[i]);
        lemma_claimed_le_count(t.drop_last(), s.drop_last(), c);
    }
}

/// The second pass keeps the claims for every letter within that letter's
/// occurrence count in the target, provided they start within it.
proof fn lemma_pass2_upto_claims(t: Seq<char>, s: Seq<(char, Score)>, n: int, c: char)
    requires
        0 <= n <= s.len(),
        claimed(s, c) <= count_in(t, c),
    ensures
        claimed(pass2_upto(t, s, n), c) <= count_in(t, c),
    decreases n,
{
    if n > 0 {
        lemma_pass2_upto_claims(t, s, n - 1, c);
        let prev = pass2_upto(t, s, n - 1);
        lemma_pass2_upto_frame(t, s, n - 1);
        let i = n - 1;
        if prev[i].1 != Score::CorrectSpot {
            let c0 = prev[i].0;
            if count_in(t, c0) > claimed(prev, c0) {
                lemma_claimed_update(prev, i, (c0, Score::WrongSpot), c);
            }
        }
    }
}

/// Claims only grow as the second pass proceeds.
proof fn lemma_pass2_upto_monotone(t: Seq<char>, s: Seq<(char, Score)>, m: int, n: int, c: char)
    requires
        0 <= m <= n <= s.len(),
    ensures
        claimed(pass2_upto(t, s, m), c) <= claimed(pass2_upto(t, s, n), c),
    decreases n - m,
{
    if m < n {
        lemma_pass2_upto_monotone(t, s, m, n - 1, c);
        let prev = pass2_upto(t, s, n - 1);
        lemma_pass2_upto_frame(t, s, n - 1);
        let i = n - 1;
        if prev[i].1 != Score::CorrectSpot && count_in(t, prev[i].0) > claimed(prev, prev[i].0) {
            lemma_claimed_update(prev, i, (prev[i].0, Score::WrongSpot), c);
        }
    }
}

/// A position's entry does not change after the step that processes it.
proof fn lemma_pass2_upto_stable(t: Seq<char>, s: Seq<(char, Score)>, n: int, i: int)
    requires
        0 <= i,
        i + 1 <= n <= s.len(),
    ensures
        pass2_upto(t, s, n)[i] == pass2_upto(t, s, i + 1)[i],
    decreases n,
{
    if n > i + 1 {
        lemma_pass2_upto_stable(t, s, n - 1, i);
        lemma_pass2_upto_frame(t, s, n - 1);
    }
}

/// A position whose letter stays `NotPresent` through the second pass was
/// refused because its letter's claims already reached the letter's
/// occurrence count in the target, and claims only grow afterwards.
proof fn lemma_pass2_saturated(t: Seq<char>, s: Seq<(char, Score)>, n: int, i: int)
    requires
        0 <= i < n <= s.len(),
        pass2_upto(t, s, n)[i].1 == Score::NotPresent,
    ensures
        count_in(t, s[i].0) <= claimed(pass2_upto(t, s, n), s[i].0),
{
    let c0 = s[i].0;
    lemma_pass2_upto_stable(t, s, n, i);
    let prev = pass2_upto(t, s, i);
    lemma_pass2_upto_frame(t, s, i);
    assert(prev[i] == s[i]);
    assert(pass2_upto(t, s, i + 1) == pass2_step(t, prev, i));
    lemma_pass2_upto_monotone(t, s, i, n, c0);
}

/// Every entry carrying a letter is counted once, either as a claim or as
/// `NotPresent`.
proof fn lemma_counts_partition(s: Seq<(char, Score)>, c: char)
    ensures
        letter_count(s, c) == claimed(s, c) + not_present_count(s, c),
    decreases s.len(),
{
    if s.len() > 0 {
        lemma_counts_partition(s.drop_last(), c);
    }
}

/// A scored sequence aligned with a guess carries each letter as often as
/// the guess does.
proof fn lemma_letter_count_eq(s: Seq<(char, Score)>, g: Seq<char>, c: char)
    requires
        s.len() == g.len(),
        forall|i: int| 0 <= i < s.len() ==> (#[trigger] s[i]).0 == g[i],
    ensures
        letter_count(s, c) == count_in(g, c),
    decreases s.len(),
{
    if s.len() > 0 {
        assert(forall|i: int|
            0 <= i < s.len() - 1 ==> #[trigger] s.drop_last()[i] == s[i] && g.drop_last()[i]
                == g[i]);
        lemma_letter_count_eq(s.drop_last(), g.drop_last(), c);
    }
}

/// A positive `NotPresent` count has a witness position.
proof fn lemma_not_present_witness(s: Seq<(char, Score)>, c: char)
    requires
        not_present_count(s, c) > 0,
    ensures
        exists|i: int|
            0 <= i < s.len() && (#[trigger] s[i]).0 == c && s[i].1 == Score::NotPresent,
    decreases s.len(),
{
    if s.last().0 == c && s.last().1 == Score::NotPresent {
        assert(s[s.len() - 1].0 == c && s[s.len() - 1].1 == Score::NotPresent);
    } else {
        lemma_not_present_witness(s.drop_last(), c);
        let i = choose|i: int|
            0 <= i < s.drop_last().len() && (#[trigger] s.drop_last()[i]).0 == c
                && s.drop_last()[i].1 == Score::NotPresent;
        assert(s[i] == s.drop_last()[i]);
    }
}

/// A character found at some position is counted at least once.
proof fn lemma_count_in_at_least_one(s: Seq<char>, c: char, j: int)
    requires
        0 <= j < s.len(),
        s[j] == c,
    ensures
        count_in(s, c) >= 1,
    decreases s.len(),
{
    if j < s.len() - 1 {
        lemma_count_in_at_least_one(s.drop_last(), c, j);
    }
}

/// A claiming entry at some position makes at least one claim.
proof fn lemma_claimed_at_least_one(s: Seq<(char, Score)>, c: char, j: int)
    requires
        0 <= j < s.len(),
        s[j].0 == c,
        s[j].1 != Score::NotPresent,
    ensures
        claimed(s, c) >= 1,
    decreases s.len(),
{
    if j < s.len() - 1 {
        lemma_claimed_at_least_one(s.drop_last(), c, j);
    }
}

/// Law: scoring a word against itself classifies all five positions
/// `CorrectSpot`, and that result solves the game.
pub proof fn lemma_score_self(w: Seq<char>)
    requires
        w.len() == 5,
    ensures
        spec_score(w, w).len() == 5,
        forall|i: int| 0 <= i < 5 ==> #[trigger] spec_score(w, w)[i] == (w[i], Score::CorrectSpot),
        spec_is_solved(spec_score(w, w)),
{
    let p1 = pass1(w, w);
    lemma_pass2_upto_frame(w, p1, 5);
    assert(forall|i: int| 0 <= i < 5 ==> #[trigger] p1[i] == (w[i], Score::CorrectSpot));
}

/// Law: when no letter of the guess occurs anywhere in the target, every
/// position is classified `NotPresent`.
pub proof fn lemma_all_absent(t: Seq<char>, g: Seq<char>)
    requires
        t.len() == 5,
        g.len() == 5,
        forall|i: int| 0 <= i < 5 ==> count_in(t, #[trigger] g[i]) == 0,
    ensures
        spec_score(t, g).len() == 5,
        forall|i: int| 0 <= i < 5 ==> #[trigger] spec_score(t, g)[i] == (g[i], Score::NotPresent),
{
    let p1 = pass1(t, g);
    let r = spec_score(t, g);
    assert forall|i: int| 0 <= i < 5 implies t[i] != g[i] by {
        if t[i] == g[i] {
            lemma_count_in_at_least_one(t, g[i], i);
        }
    }
    lemma_pass2_upto_frame(t, p1, 5);
    assert forall|i: int| 0 <= i < 5 implies #[trigger] r[i] == (g[i], Score::NotPresent) by {
        if r[i].1 != Score::NotPresent {
            lemma_claimed_at_least_one(r, g[i], i);
            assert(forall|j: int|
                0 <= j < 5 && (#[trigger] p1[j]).1 != Score::NotPresent ==> t[j] == p1[j].0);
            lemma_claimed_le_count(t, p1, g[i]);
            lemma_pass2_upto_claims(t, p1, 5, g[i]);
        }
    }
}

/// Law: the result is aligned with the guess, and a position is
/// `CorrectSpot` exactly when guess and target agree there: exact matches
/// are claimed by the first pass, before any `WrongSpot` credit is handed
/// out.
pub proof fn lemma_correct_spots(t: Seq<char>, g: Seq<char>)
    requires
        t.len() == 5,
        g.len() == 5,
    ensures
        spec_score(t, g).len() == 5,
        forall|i: int| 0 <= i < 5 ==> (#[trigger] spec_score(t, g)[i]).0 == g[i],
        forall|i: int|
            0 <= i < 5 ==> ((#[trigger] spec_score(t, g)[i]).1 == Score::CorrectSpot <==> t[i]
                == g[i]),
{
    lemma_pass2_upto_frame(t, pass1(t, g), 5);
}

/// Law: for every letter, the combined `CorrectSpot` and `WrongSpot`
/// claims never exceed the letter's occurrences in the target, and
/// together with the `NotPresent` positions of that letter they account
/// for all its occurrences in the guess.
pub proof fn lemma_claims_bounded(t: Seq<char>, g: Seq<char>, c: char)
    requires
        t.len() == 5,
        g.len() == 5,
    ensures
        claimed(spec_score(t, g), c) <= count_in(t, c),
        claimed(spec_score(t, g), c) + not_present_count(spec_score(t, g), c) == count_in(g, c),
{
    let p1 = pass1(t, g);
    let r = spec_score(t, g);
    assert(forall|j: int|
        0 <= j < 5 && (#[trigger] p1[j]).1 != Score::NotPresent ==> t[j] == p1[j].0);
    lemma_claimed_le_count(t, p1, c);
    lemma_pass2_upto_claims(t, p1, 5, c);
    lemma_pass2_upto_frame(t, p1, 5);
    assert(forall|i: int| 0 <= i < 5 ==> (#[trigger] r[i]).0 == g[i]);
    lemma_counts_partition(r, c);
    lemma_letter_count_eq(r, g, c);
}

/// Law: a letter occurring more often in the guess than in the target has
/// exactly as many claims as the target has occurrences; every surplus
/// position of that letter is `NotPresent`.
pub proof fn lemma_duplicate_claims(t: Seq<char>, g: Seq<char>, c: char)
    requires
        t.len() == 5,
        g.len() == 5,
        count_in(g, c) > count_in(t, c),
    ensures
        claimed(spec_score(t, g), c) == count_in(t, c),
        claimed(spec_score(t, g), c) + not_present_count(spec_score(t, g), c) == count_in(g, c),
{
    let p1 = pass1(t, g);
    let r = spec_score(t, g);
    lemma_claims_bounded(t, g, c);
    lemma_not_present_witness(r, c);
    let i = choose|i: int|
        0 <= i < r.len() && (#[trigger] r[i]).0 == c && r[i].1 == Score::NotPresent;
    lemma_pass2_upto_frame(t, p1, 5);
    assert(p1[i].0 == c);
    lemma_pass2_saturated(t, p1, 5, i);
}

/// Law: the score is a function of target and guess alone; two results of
/// the same pair are always identical.
pub proof fn lemma_score_deterministic(
    t: Seq<char>,
    g: Seq<char>,
    r1: Seq<(char, Score)>,
    r2: Seq<(char, Score)>,
)
    requires
        r1 == spec_score(t, g),
        r2 == spec_score(t, g),
    ensures
        r1 == r2,
{
}

/// Collects the characters of `s` into a vector.
fn chars_of(s: &str) -> (v: Vec<char>)
    ensures
        v@ == s@,
{
    let n: usize = s.unicode_len();
    let mut v: Vec<char> = Vec::new();
    let mut i: usize = 0;
    while i < n
        invariant
            n == s@.len(),
            i <= n,
            v@ == s@.take(i as int),
        decreases n - i,
    {
        let c = s.get_char(i);
        v.push(c);
        proof {
            assert(v@ =~= s@.take(i + 1));
        }
        i += 1;
    }
    proof {
        assert(s@.take(n as int) =~= s@);
    }
    v
}

/// Counts the entries of `scores` whose letter is `c` and whose
/// classification is `CorrectSpot` or `WrongSpot`.
fn count_scored(scores: &Vec<(char, Score)>, c: &char) -> (count: usize)
    ensures
        count == claimed(scores@, *c),
{
    let mut count: usize = 0;
    let mut i: usize = 0;
    while i < scores.len()
        invariant
            i <= scores@.len(),
            count <= i,
            count == claimed(scores@.take(i as int), *c),
        decreases scores@.len() - i,
    {
        proof {
            assert(scores@.take(i + 1).drop_last() =~= scores@.take(i as int));
            assert(scores@.take(i + 1).last() == scores@[i as int]);
        }
        let (letter, sc) = scores[i];
        if letter == *c && (sc == Score::CorrectSpot || sc == Score::WrongSpot) {
            count += 1;
        }
        i += 1;
    }
    proof {
        assert(scores@.take(scores@.len() as int) =~= scores@);
    }
    count
}

/// Scores `guess` against the target word `wordle`, classifying each of the
/// five guess letters. The first pass marks every exact match `CorrectSpot`;
/// the second pass walks the positions left to right and upgrades a
/// non-matching letter to `WrongSpot` only while the target has more
/// occurrences of that letter than the claims made so far.
pub fn score_wordle(wordle: &str, guess: &str) -> (scores: Vec<(char, Score)>)
    requires
        wordle@.len() == 5,
        guess@.len() == 5,
    ensures
        scores@ == spec_score(wordle@, guess@),
        scores@.len() == 5,
{
    let wordle_chars: Vec<char> = chars_of(wordle);
    let guess_chars: Vec<char> = chars_of(guess);
    let mut scores: Vec<(char, Score)> = Vec::new();

    // first pass to get correct spots
    let mut n: usize = 0;
    while n < 5
        invariant
            wordle_chars@ == wordle@,
            guess_chars@ == guess@,
            wordle@.len() == 5,
            guess@.len() == 5,
            n <= 5,
            scores@ == pass1(wordle@, guess@).take(n as int),
        decreases 5 - n,
    {
        let wordle_char = wordle_chars[n];
        let guess_char = guess_chars[n];
        if wordle_char == guess_char {
            scores.push((guess_char, Score::CorrectSpot));
        } else {
            scores.push((guess_char, Score::NotPresent));
        }
        proof {
            assert(scores@ =~= pass1(wordle@, guess@).take(n + 1));
        }
        n += 1;
    }
    proof {
        assert(pass1(wordle@, guess@).take(5) =~= pass1(wordle@, guess@));
    }

    // second pass to get wrong spots
    let mut n: usize = 0;
    while n < 5
        invariant
            wordle_chars@ == wordle@,
            guess_chars@ == guess@,
            wordle@.len() == 5,
            guess@.len() == 5,
            n <= 5,
            scores@ == pass2_upto(wordle@, pass1(wordle@, guess@), n as int),
        decreases 5 - n,
    {
        proof {
            lemma_pass2_upto_frame(wordle@, pass1(wordle@, guess@), n as int);
            assert(scores@[n as int].0 == guess@[n as int]);
        }
        let guess_char = guess_chars[n];
        let (letter, sc) = scores[n];

        // skip letters already scored correctly
        if !(letter == guess_char && sc == Score::CorrectSpot) {
            // this letter may occur elsewhere, just not in this spot
            let occurrences = count_char_occurrences(&wordle_chars, &guess_char);
            let times_scored = count_scored(&scores, &guess_char);
            if occurrences > times_scored {
                scores.set(n, (guess_char, Score::WrongSpot));
            }
        }
        proof {
            assert(pass2_upto(wordle@, pass1(wordle@, guess@), n + 1) == pass2_step(
                wordle@,
                pass2_upto(wordle@, pass1(wordle@, guess@), n as int),
                n as int,
            ));
            assert(scores@ == pass2_upto(wordle@, pass1(wordle@, guess@), n + 1));
        }
        n += 1;
    }
    proof {
        lemma_pass2_upto_frame(wordle@, pass1(wordle@, guess@), 5);
    }
    scores
}

/// Counts how often `target_char` occurs in `wordle`.
pub fn count_char_occurrences(wordle: &Vec<char>, target_char: &char) -> (count: usize)
    ensures
        count == count_in(wordle@, *target_char),
{
    let mut count: usize = 0;
    let mut i: usize = 0;
    while i < wordle.len()
        invariant
            i <= wordle@.len(),
            count <= i,
            count == count_in(wordle@.take(i as int), *target_char),
        decreases wordle@.len() - i,
    {
        proof {
            assert(wordle@.take(i + 1).drop_last() =~= wordle@.take(i as int));
            assert(wordle@.take(i + 1).last() == wordle@[i as int]);
        }
        if wordle[i] == *target_char {
            count += 1;
        }
        i += 1;
    }
    proof {
        assert(wordle@.take(wordle@.len() as int) =~= wordle@);
    }
    count
}

/// Returns true if and only if every classification in `score` is
/// `CorrectSpot`; a single `WrongSpot` or `NotPresent` entry makes the
/// guess unsolved.
pub fn is_solved(score: Vec<(char, Score)>) -> (solved: bool)
    ensures
        solved == spec_is_solved(score@),
{
    let mut i: usize = 0;
    while i < score.len()
        invariant
            i <= score@.len(),
            forall|j: int| 0 <= j < i ==> score@[j].1 == Score::CorrectSpot,
        decreases score@.len() - i,
    {
        let (_letter, sc) = score[i];
        match sc {
            Score::NotPresent => {
                proof {
                    assert(score@[i as int].1 != Score::CorrectSpot);
                }
                return false;
            },
            Score::WrongSpot => {
                proof {
                    assert(score@[i as int].1 != Score::CorrectSpot);
                }
                return false;
            },
            Score::CorrectSpot => {},
        }
        i += 1;
    }
    true
}

} // verus!
