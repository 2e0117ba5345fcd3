use wordle_bot::{Guess, GuessedCharacter};

fn words_over(letters: &[char]) -> Vec<String> {
    let mut words = vec![String::new()];
    for _ in 0..5 {
        let mut longer = Vec::new();
        for word in &words {
            for letter in letters {
                let mut next = word.clone();
                next.push(*letter);
                longer.push(next);
            }
        }
        words = longer;
    }
    words
}

#[test]
fn feedback_allows_its_target() {
    let words = words_over(&['a', 'b', 'c']);
    for guess in &words {
        for target in &words {
            assert!(Guess::guess(guess, target).allows(target));
        }
    }
}

#[test]
fn allows_exactly_the_words_with_the_same_feedback() {
    let words = words_over(&['a', 'b']);
    let mut probes = words.clone();
    probes.push("abcab".to_string());
    probes.push("ccabc".to_string());
    probes.push("bacca".to_string());
    for guess in &probes {
        for target in &probes {
            let feedback = Guess::guess(guess, target);
            for candidate in &probes {
                let same = Guess::guess(guess, candidate).guess == feedback.guess;
                assert_eq!(feedback.allows(candidate), same);
            }
        }
    }
}

#[test]
fn feedback_of_a_word_against_itself_is_all_correct() {
    let feedback = Guess::guess("crane", "crane");
    assert_eq!(
        feedback.guess,
        [
            GuessedCharacter::Correct('c'),
            GuessedCharacter::Correct('r'),
            GuessedCharacter::Correct('a'),
            GuessedCharacter::Correct('n'),
            GuessedCharacter::Correct('e'),
        ]
    );
    assert!(feedback.allows("crane"));
    assert!(!feedback.allows("crate"));
}

#[test]
fn credit_goes_to_the_leftmost_duplicates() {
    // The target offers one `e` for credit; the guess has three.
    let feedback = Guess::guess("eerie", "stern");
    assert_eq!(
        feedback.guess,
        [
            GuessedCharacter::Elsewhere('e'),
            GuessedCharacter::Not('e'),
            GuessedCharacter::Elsewhere('r'),
            GuessedCharacter::Not('i'),
            GuessedCharacter::Not('e'),
        ]
    );
}

#[test]
fn a_correct_letter_uses_up_its_credit() {
    // The only `l` of the target is matched at position 3.
    let feedback = Guess::guess("lolly", "ankle");
    assert_eq!(
        feedback.guess,
        [
            GuessedCharacter::Not('l'),
            GuessedCharacter::Not('o'),
            GuessedCharacter::Not('l'),
            GuessedCharacter::Correct('l'),
            GuessedCharacter::Not('y'),
        ]
    );
}

#[test]
fn feedback_holds_letters_beyond_ascii() {
    let feedback = Guess::guess("würde", "wörte");
    assert_eq!(
        feedback.guess,
        [
            GuessedCharacter::Correct('w'),
            GuessedCharacter::Not('ü'),
            GuessedCharacter::Correct('r'),
            GuessedCharacter::Not('d'),
            GuessedCharacter::Correct('e'),
        ]
    );
    assert!(feedback.allows("wörte"));
    assert!(!feedback.allows("würde"));
}

#[test]
fn already_guessed_counts_earlier_elsewhere_marks() {
    let guess = Guess::new([
        GuessedCharacter::Elsewhere('a'),
        GuessedCharacter::Correct('a'),
        GuessedCharacter::Elsewhere('a'),
        GuessedCharacter::Elsewhere('c'),
        GuessedCharacter::Not('a'),
    ]);
    assert_eq!(guess.already_guessed(0, &'a'), 0);
    assert_eq!(guess.already_guessed(1, &'a'), 1);
    assert_eq!(guess.already_guessed(2, &'a'), 1);
    assert_eq!(guess.already_guessed(3, &'a'), 2);
    assert_eq!(guess.already_guessed(5, &'a'), 2);
    assert_eq!(guess.already_guessed(9, &'a'), 2);
    assert_eq!(guess.already_guessed(5, &'c'), 1);
    assert_eq!(guess.already_guessed(3, &'c'), 0);
    assert_eq!(guess.already_guessed(5, &'z'), 0);
}

#[test]
fn orange_in_candidate_is_zero_without_the_letter() {
    let guess = Guess::new([
        GuessedCharacter::Elsewhere('a'),
        GuessedCharacter::Correct('a'),
        GuessedCharacter::Elsewhere('c'),
        GuessedCharacter::Not('c'),
        GuessedCharacter::Not('b'),
    ]);
    assert_eq!(guess.orange_in_candidate(&'z', "aacca"), 0);
    assert_eq!(guess.orange_in_candidate(&'a', "babbb"), 0);
    assert_eq!(guess.orange_in_candidate(&'b', "babbb"), 4);
}

#[test]
fn orange_in_candidate_subtracts_only_marks_of_the_same_letter() {
    let guess = Guess::new([
        GuessedCharacter::Elsewhere('a'),
        GuessedCharacter::Correct('a'),
        GuessedCharacter::Correct('c'),
        GuessedCharacter::Not('c'),
        GuessedCharacter::Not('b'),
    ]);
    // `c` stands under `Correct('a')` and under `Correct('c')`: only the
    // second is taken off.
    assert_eq!(guess.orange_in_candidate(&'c', "ccccc"), 4);
    assert_eq!(guess.orange_in_candidate(&'c', "acacc"), 3);
    assert_eq!(guess.orange_in_candidate(&'a', "aaaaa"), 4);
    assert_eq!(guess.orange_in_candidate(&'a', "acaca"), 3);
}

#[test]
fn a_present_mark_needs_strictly_more_credit() {
    // Two `a` marked elsewhere: a candidate with a single spare `a` is out.
    let guess = Guess::new([
        GuessedCharacter::Elsewhere('a'),
        GuessedCharacter::Elsewhere('a'),
        GuessedCharacter::Not('b'),
        GuessedCharacter::Not('b'),
        GuessedCharacter::Not('b'),
    ]);
    assert!(guess.allows("ccaac"));
    assert!(!guess.allows("ccacc"));
    assert!(guess.allows("ccaaa"));
}

#[test]
fn new_keeps_the_statuses() {
    let statuses = [
        GuessedCharacter::Not('s'),
        GuessedCharacter::Elsewhere('t'),
        GuessedCharacter::Correct('a'),
        GuessedCharacter::Not('r'),
        GuessedCharacter::Elsewhere('e'),
    ];
    assert_eq!(Guess::new(statuses).guess, statuses);
}
