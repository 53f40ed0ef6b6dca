use wordle::wordle::Score::{CorrectSpot, NotPresent, WrongSpot};
use wordle::wordle::{count_char_occurrences, is_solved, score_wordle, Score};

#[test]
fn test_score_wordle_all_correct() {
    // arrange
    let wordle = "image";
    let guess = "image";

    // act
    let wordle = score_wordle(wordle, guess);

    // assert
    assert_eq!(wordle.len(), 5);
    assert_eq!(wordle.get(0).unwrap(), &('i', CorrectSpot));
    assert_eq!(wordle.get(1).unwrap(), &('m', CorrectSpot));
    assert_eq!(wordle.get(2).unwrap(), &('a', CorrectSpot));
    assert_eq!(wordle.get(3).unwrap(), &('g', CorrectSpot));
    assert_eq!(wordle.get(4).unwrap(), &('e', CorrectSpot));
}

#[test]
fn test_score_wordle_non_correct() {
    // arrange
    let wordle = "image";
    let guess = "souls";

    // act
    let wordle = score_wordle(wordle, guess);

    // assert
    assert_eq!(wordle.len(), 5);
    assert_eq!(wordle.get(0).unwrap(), &('s', NotPresent));
    assert_eq!(wordle.get(1).unwrap(), &('o', NotPresent));
    assert_eq!(wordle.get(2).unwrap(), &('u', NotPresent));
    assert_eq!(wordle.get(3).unwrap(), &('l', NotPresent));
    assert_eq!(wordle.get(4).unwrap(), &('s', NotPresent));
}

#[test]
fn test_score_wordle_one_correct_spot() {
    // arrange
    let wordle = "slate";
    let guess = "sound";

    // act
    let wordle = score_wordle(wordle, guess);

    // assert
    assert_eq!(wordle.len(), 5);
    assert_eq!(wordle.get(0).unwrap(), &('s', CorrectSpot));
    assert_eq!(wordle.get(1).unwrap(), &('o', NotPresent));
    assert_eq!(wordle.get(2).unwrap(), &('u', NotPresent));
    assert_eq!(wordle.get(3).unwrap(), &('n', NotPresent));
    assert_eq!(wordle.get(4).unwrap(), &('d', NotPresent));
}

#[test]
fn test_score_wordle_some_correct_some_wrong_spot() {
    // arrange
    let wordle = "slate";
    let guess = "stale";

    // act
    let wordle = score_wordle(wordle, guess);

    // assert
    assert_eq!(wordle.len(), 5);
    assert_eq!(wordle.get(0).unwrap(), &('s', CorrectSpot));
    assert_eq!(wordle.get(1).unwrap(), &('t', WrongSpot));
    assert_eq!(wordle.get(2).unwrap(), &('a', CorrectSpot));
    assert_eq!(wordle.get(3).unwrap(), &('l', WrongSpot));
    assert_eq!(wordle.get(4).unwrap(), &('e', CorrectSpot));
}

#[test]
fn test_score_wordle_guessed_letter_twice_in_wordle() {
    // arrange
    let wordle = "truth";
    let guess = "tails";

    // act
    let wordle = score_wordle(wordle, guess);

    // assert
    assert_eq!(wordle.len(), 5);
    assert_eq!(wordle.get(0).unwrap(), &('t', CorrectSpot));
    assert_eq!(wordle.get(1).unwrap(), &('a', NotPresent));
    assert_eq!(wordle.get(2).unwrap(), &('i', NotPresent));
    assert_eq!(wordle.get(3).unwrap(), &('l', NotPresent));
    assert_eq!(wordle.get(4).unwrap(), &('s', NotPresent));
}

#[test]
fn test_score_wordle_guessed_letter_twice_in_wordle_multiple() {
    // arrange
    let wordle = "truth";
    let guess = "title";

    // act
    let wordle = score_wordle(wordle, guess);

    // assert
    assert_eq!(wordle.len(), 5);
    assert_eq!(wordle.get(0).unwrap(), &('t', CorrectSpot));
    assert_eq!(wordle.get(1).unwrap(), &('i', NotPresent));
    assert_eq!(wordle.get(2).unwrap(), &('t', WrongSpot));
    assert_eq!(wordle.get(3).unwrap(), &('l', NotPresent));
    assert_eq!(wordle.get(4).unwrap(), &('e', NotPresent));
}

#[test]
fn test_score_wordle_twice_guessed_single_letter() {
    // arrange
    let wordle = "truth";
    let guess = "tarry";

    // act
    let wordle = score_wordle(wordle, guess);

    // assert
    assert_eq!(wordle.len(), 5);
    assert_eq!(wordle.get(0).unwrap(), &('t', CorrectSpot));
    assert_eq!(wordle.get(1).unwrap(), &('a', NotPresent));
    assert_eq!(wordle.get(2).unwrap(), &('r', WrongSpot));
    assert_eq!(wordle.get(3).unwrap(), &('r', NotPresent));
    assert_eq!(wordle.get(4).unwrap(), &('y', NotPresent));
}

#[test]
fn test_score_wordle_edge_case_1() {
    // arrange
    let wordle = "fence";
    let guess = "eeece";

    // act
    let wordle = score_wordle(wordle, guess);

    // assert
    assert_eq!(wordle.len(), 5);
    assert_eq!(wordle.get(0).unwrap(), &('e', NotPresent));
    assert_eq!(wordle.get(1).unwrap(), &('e', CorrectSpot));
    assert_eq!(wordle.get(2).unwrap(), &('e', NotPresent));
    assert_eq!(wordle.get(3).unwrap(), &('c', CorrectSpot));
    assert_eq!(wordle.get(4).unwrap(), &('e', CorrectSpot));
}

#[test]
fn test_score_wordle_edge_case_2() {
    // arrange
    let wordle = "fence";
    let guess = "efece";

    // act
    let wordle = score_wordle(wordle, guess);

    // assert
    assert_eq!(wordle.len(), 5);
    assert_eq!(wordle.get(0).unwrap(), &('e', WrongSpot));
    assert_eq!(wordle.get(1).unwrap(), &('f', WrongSpot));
    assert_eq!(wordle.get(2).unwrap(), &('e', NotPresent));
    assert_eq!(wordle.get(3).unwrap(), &('c', CorrectSpot));
    assert_eq!(wordle.get(4).unwrap(), &('e', CorrectSpot));
}

#[test]
fn test_is_solved_all_correct() {
    let scored = score_wordle("image", "image");
    assert!(is_solved(scored));
}

#[test]
fn test_is_solved_false_on_wrong_spot() {
    let scored = vec![
        ('s', CorrectSpot),
        ('t', WrongSpot),
        ('a', CorrectSpot),
        ('l', CorrectSpot),
        ('e', CorrectSpot),
    ];
    assert!(!is_solved(scored));
}

#[test]
fn test_is_solved_false_on_not_present() {
    let scored = vec![
        ('s', CorrectSpot),
        ('o', NotPresent),
        ('u', CorrectSpot),
        ('n', CorrectSpot),
        ('d', CorrectSpot),
    ];
    assert!(!is_solved(scored));
}

#[test]
fn test_is_solved_false_after_partial_score() {
    let scored = score_wordle("slate", "stale");
    assert!(!is_solved(scored));
}

#[test]
fn test_count_char_occurrences_repeated() {
    let letters: Vec<char> = vec!['t', 'r', 'u', 't', 'h'];
    assert_eq!(count_char_occurrences(&letters, &'t'), 2);
    assert_eq!(count_char_occurrences(&letters, &'r'), 1);
    assert_eq!(count_char_occurrences(&letters, &'z'), 0);
}

#[test]
fn test_score_wordle_letters_follow_guess() {
    let scored = score_wordle("crane", "nacre");
    let letters: Vec<char> = scored.iter().map(|&(c, _)| c).collect();
    assert_eq!(letters, vec!['n', 'a', 'c', 'r', 'e']);
}

#[test]
fn test_score_wordle_all_wrong_spots() {
    let scored = score_wordle("crane", "nacre");
    assert_eq!(
        scored,
        vec![
            ('n', WrongSpot),
            ('a', WrongSpot),
            ('c', WrongSpot),
            ('r', WrongSpot),
            ('e', CorrectSpot),
        ]
    );
}

#[test]
fn test_score_enum_distinct() {
    assert_ne!(Score::CorrectSpot, Score::WrongSpot);
    assert_ne!(Score::WrongSpot, Score::NotPresent);
    assert_ne!(Score::CorrectSpot, Score::NotPresent);
}
