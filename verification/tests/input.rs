use wordle_bot::input::colour;
use wordle_bot::{Guess, GuessedCharacter};

#[test]
fn parse_reads_five_colour_digits() {
    let guess = Guess::parse("crane", "01220").expect("five letters and five digits");
    assert_eq!(
        guess.guess,
        [
            GuessedCharacter::Not('c'),
            GuessedCharacter::Elsewhere('r'),
            GuessedCharacter::Correct('a'),
            GuessedCharacter::Correct('n'),
            GuessedCharacter::Not('e'),
        ]
    );
}

#[test]
fn parse_refuses_a_wrong_length() {
    assert!(Guess::parse("cran", "01220").is_none());
    assert!(Guess::parse("cranes", "01220").is_none());
    assert!(Guess::parse("crane", "0122").is_none());
    assert!(Guess::parse("crane", "012201").is_none());
    assert!(Guess::parse("", "").is_none());
}

#[test]
fn parse_refuses_other_characters() {
    assert!(Guess::parse("crane", "01320").is_none());
    assert!(Guess::parse("crane", "0122x").is_none());
    assert!(Guess::parse("crane", " 1220").is_none());
}

#[test]
fn parse_counts_letters_not_bytes() {
    let guess = Guess::parse("würde", "20000").expect("five letters");
    assert_eq!(guess.guess[0], GuessedCharacter::Correct('w'));
    assert_eq!(guess.guess[1], GuessedCharacter::Not('ü'));
    assert_eq!(guess.guess[4], GuessedCharacter::Not('e'));
}

#[test]
fn colour_knows_three_digits() {
    assert_eq!(colour('0', 'q'), Some(GuessedCharacter::Not('q')));
    assert_eq!(colour('1', 'q'), Some(GuessedCharacter::Elsewhere('q')));
    assert_eq!(colour('2', 'q'), Some(GuessedCharacter::Correct('q')));
    assert_eq!(colour('3', 'q'), None);
    assert_eq!(colour('a', 'q'), None);
}
