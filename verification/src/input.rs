//! Feedback as a player types it: the guessed word, and one digit for the
//! colour of each of its letters.

use crate::feedback::{Guess, GuessedCharacter, WORD_LEN};
use vstd::prelude::*;
use vstd::string::*;

verus! {

/// The status that the colour digit `level` gives the guessed `letter`:
/// `0` for grey, `1` for yellow, `2` for green; none for any other
/// character.
pub open spec fn coloured(level: char, letter: char) -> Option<GuessedCharacter> {
    if level == '0' {
        Some(GuessedCharacter::Not(letter))
    } else if level == '1' {
        Some(GuessedCharacter::Elsewhere(letter))
    } else if level == '2' {
        Some(GuessedCharacter::Correct(letter))
    } else {
        None
    }
}

/// Whether `word` and `levels` together spell a feedback: five letters and
/// five colour digits.
pub open spec fn well_coloured(word: Seq<char>, levels: Seq<char>) -> bool {
    &&& word.len() == WORD_LEN
    &&& levels.len() == WORD_LEN
    &&& forall|i: int| 0 <= i < WORD_LEN ==> coloured(#[trigger] levels[i], word[i]) is Some
}

/// The status that the colour digit `level` gives the guessed `letter`.
pub fn colour(level: char, letter: char) -> (r: Option<GuessedCharacter>)
    ensures
        r == coloured(level, letter),
{
    if level == '0' {
        Some(GuessedCharacter::Not(letter))
    } else if level == '1' {
        Some(GuessedCharacter::Elsewhere(letter))
    } else if level == '2' {
        Some(GuessedCharacter::Correct(letter))
    } else {
        None
    }
}

impl Guess {
    /// The feedback that colours the letters of `word` as the digits of
    /// `levels` say; none unless there are five letters and five colour
    /// digits.
    pub fn parse(word: &str, levels: &str) -> (r: Option<Guess>)
        ensures
            r is Some <==> well_coloured(word@, levels@),
            r is Some ==> r.unwrap()@.len() == WORD_LEN && forall|i: int|
                0 <= i < WORD_LEN ==> coloured(levels@[i], word@[i]) == Some(
                    #[trigger] r.unwrap()@[i],
                ),
    {
        if word.unicode_len() != 5 || levels.unicode_len() != 5 {
            return None;
        }
        let mut res = Guess { guess: [GuessedCharacter::Correct('a'); 5] };
        let mut i: usize = 0;
        while i < 5
            invariant
                i <= 5,
                word@.len() == 5,
                levels@.len() == 5,
                res@.len() == 5,
                forall|k: int|
                    0 <= k < i ==> coloured(levels@[k], word@[k]) == Some(#[trigger] res@[k]),
            decreases 5 - i,
        {
            match colour(levels.get_char(i), word.get_char(i)) {
                Some(status) => {
                    res.guess[i] = status;
                },
                None => {
                    assert(coloured(levels@[i as int], word@[i as int]) is None);
                    return None;
                },
            }
            i += 1;
        }
        assert forall|k: int| 0 <= k < WORD_LEN implies coloured(
            #[trigger] levels@[k],
            word@[k],
        ) is Some by {
            assert(coloured(levels@[k], word@[k]) == Some(res@[k]));
        }
        Some(res)
    }
}

} // verus!
