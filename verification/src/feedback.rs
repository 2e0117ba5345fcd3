//! Feedback for one guess: how it is derived from a guess and a target, and
//! which candidate words it leaves possible.

use crate::count::{count_below, lemma_count_agree, lemma_count_implies};
use vstd::prelude::*;
use vstd::string::*;

verus! {

/// The number of letters in a word, and of entries in a feedback.
pub const WORD_LEN: usize = 5;

/// How one guessed letter, at its position, relates to the target.
#[derive(Debug, PartialEq, Eq, Clone, Copy, Structural)]
pub enum GuessedCharacter {
    /// The letter earns no credit at this position.
    Not(char),
    /// The letter occurs in the target, at another position.
    Elsewhere(char),
    /// The target holds the letter at this very position.
    Correct(char),
}

impl GuessedCharacter {
    /// The guessed letter, whatever its colour.
    pub open spec fn letter(self) -> char {
        match self {
            GuessedCharacter::Not(ch) => ch,
            GuessedCharacter::Elsewhere(ch) => ch,
            GuessedCharacter::Correct(ch) => ch,
        }
    }
}

/// The feedback for one guessed word: the entry at index `i` colours the
/// letter guessed at position `i`.
#[derive(Debug, Clone, Copy)]
pub struct Guess {
    pub guess: [GuessedCharacter; 5],
}

impl View for Guess {
    type V = Seq<GuessedCharacter>;

    open spec fn view(&self) -> Seq<GuessedCharacter> {
        self.guess@
    }
}

/// Position `k` of `w` holds `ch`.
pub open spec fn holds_letter(w: Seq<char>, ch: char) -> spec_fn(int) -> bool {
    |k: int| w[k] == ch
}

/// Position `k` of the target holds `ch`, and the guess does not match the
/// target there: the letter is available for credit.
pub open spec fn creditable(g: Seq<char>, t: Seq<char>, ch: char) -> spec_fn(int) -> bool {
    |k: int| t[k] == ch && g[k] != t[k]
}

/// Position `k` of the feedback is `Elsewhere(ch)`.
pub open spec fn marks_elsewhere(fb: Seq<GuessedCharacter>, ch: char) -> spec_fn(int) -> bool {
    |k: int| fb[k] == GuessedCharacter::Elsewhere(ch)
}

/// Position `k` of the feedback is `Correct(ch)`, and the candidate holds
/// `ch` there.
pub open spec fn green_match(fb: Seq<GuessedCharacter>, ch: char, c: Seq<char>) -> spec_fn(
    int,
) -> bool {
    |k: int| fb[k] == GuessedCharacter::Correct(ch) && c[k] == ch
}

/// The number of times `ch` occurs in `w`.
pub open spec fn occurrences(w: Seq<char>, ch: char) -> nat {
    count_below(holds_letter(w, ch), w.len() as int)
}

/// The credit that the target offers for `ch`: its occurrences at positions
/// where the guess does not match the target.
pub open spec fn available(g: Seq<char>, t: Seq<char>, ch: char) -> nat {
    count_below(creditable(g, t, ch), t.len() as int)
}

/// The number of positions before `i` that the feedback marks
/// `Elsewhere(ch)`.
pub open spec fn prior_present(fb: Seq<GuessedCharacter>, i: int, ch: char) -> nat {
    count_below(marks_elsewhere(fb, ch), i)
}

/// The status of position `i` of the guess, given the statuses `prev` of the
/// positions before it: `Correct` on a match; else `Elsewhere` while credit
/// for the letter is left, each earlier `Elsewhere` of the same letter
/// having used one; else `Not`.
pub open spec fn status_at(
    g: Seq<char>,
    t: Seq<char>,
    prev: Seq<GuessedCharacter>,
    i: int,
) -> GuessedCharacter {
    if g[i] == t[i] {
        GuessedCharacter::Correct(g[i])
    } else if prior_present(prev, i, g[i]) < available(g, t, g[i]) {
        GuessedCharacter::Elsewhere(g[i])
    } else {
        GuessedCharacter::Not(g[i])
    }
}

/// The feedback for the first `n` positions of the guess `g` against the
/// target `t`, scanned from left to right.
pub open spec fn derive_prefix(g: Seq<char>, t: Seq<char>, n: nat) -> Seq<GuessedCharacter>
    decreases n,
{
    if n == 0 {
        Seq::empty()
    } else {
        let prev = derive_prefix(g, t, (n - 1) as nat);
        prev.push(status_at(g, t, prev, n - 1))
    }
}

/// The feedback for the guess `g` against the target `t`.
pub open spec fn derive_feedback(g: Seq<char>, t: Seq<char>) -> Seq<GuessedCharacter> {
    derive_prefix(g, t, g.len())
}

/// The number of times that `ch` must be marked `Elsewhere` for the
/// candidate `c`: its occurrences in `c`, less those that the feedback
/// marks `Correct(ch)` where `c` holds `ch`.
pub open spec fn required_orange(fb: Seq<GuessedCharacter>, ch: char, c: Seq<char>) -> int {
    occurrences(c, ch) - count_below(green_match(fb, ch, c), fb.len() as int)
}

/// Whether the candidate `c` is consistent with the feedback at position
/// `i`.
pub open spec fn position_holds(fb: Seq<GuessedCharacter>, c: Seq<char>, i: int) -> bool {
    match fb[i] {
        GuessedCharacter::Correct(ch) => c[i] == ch,
        GuessedCharacter::Not(ch) => c[i] != ch && (required_orange(fb, ch, c) == 0
            || prior_present(fb, i, ch) >= required_orange(fb, ch, c)),
        GuessedCharacter::Elsewhere(ch) => c[i] != ch && required_orange(fb, ch, c) > 0
            && prior_present(fb, i, ch) < required_orange(fb, ch, c),
    }
}

/// Whether the candidate `c` is consistent with the feedback at every
/// position.
pub open spec fn allows(fb: Seq<GuessedCharacter>, c: Seq<char>) -> bool {
    forall|i: int| 0 <= i < fb.len() ==> #[trigger] position_holds(fb, c, i)
}

/// The letters of a five-letter word.
fn letters(word: &str) -> (r: [char; 5])
    requires
        word@.len() == WORD_LEN,
    ensures
        r@ == word@,
{
    let mut r: [char; 5] = ['a'; 5];
    let mut i: usize = 0;
    while i < 5
        invariant
            i <= 5,
            word@.len() == 5,
            forall|k: int| 0 <= k < i ==> r@[k] == word@[k],
        decreases 5 - i,
    {
        r[i] = word.get_char(i);
        i += 1;
    }
    assert(r@ =~= word@);
    r
}

/// The number of occurrences of `ch` in the word `w`.
fn count_letter(w: &[char; 5], ch: char) -> (n: usize)
    ensures
        n == occurrences(w@, ch),
        n <= 5,
{
    let mut n: usize = 0;
    let mut k: usize = 0;
    while k < 5
        invariant
            k <= 5,
            n <= k,
            n == count_below(holds_letter(w@, ch), k as int),
        decreases 5 - k,
    {
        if w[k] == ch {
            n += 1;
        }
        k += 1;
    }
    n
}

/// The credit that the target `t` offers the guess `g` for `ch`.
fn count_available(g: &[char; 5], t: &[char; 5], ch: char) -> (n: usize)
    ensures
        n == available(g@, t@, ch),
        n <= 5,
{
    let mut n: usize = 0;
    let mut k: usize = 0;
    while k < 5
        invariant
            k <= 5,
            n <= k,
            n == count_below(creditable(g@, t@, ch), k as int),
        decreases 5 - k,
    {
        if t[k] == ch && g[k] != t[k] {
            n += 1;
        }
        k += 1;
    }
    n
}

impl Guess {
    /// A feedback made of the five given statuses.
    pub fn new(guess: [GuessedCharacter; 5]) -> (r: Self)
        ensures
            r.guess == guess,
            r@ == guess@,
    {
        Guess { guess }
    }

    /// The feedback that the word `guess` earns when the word sought is
    /// `target`.
    pub fn guess(guess: &str, target: &str) -> (r: Self)
        requires
            guess@.len() == WORD_LEN,
            target@.len() == WORD_LEN,
        ensures
            r@ == derive_feedback(guess@, target@),
    {
        let g = letters(guess);
        let t = letters(target);
        let mut res = Guess { guess: [GuessedCharacter::Correct('a'); 5] };
        let mut i: usize = 0;
        while i < 5
            invariant
                i <= 5,
                g@ == guess@,
                t@ == target@,
                g@.len() == 5,
                t@.len() == 5,
                res@.take(i as int) == derive_prefix(g@, t@, i as nat),
            decreases 5 - i,
        {
            let ghost prev = res@.take(i as int);
            let status = if g[i] == t[i] {
                GuessedCharacter::Correct(g[i])
            } else {
                let credit = count_available(&g, &t, g[i]);
                let used = res.already_guessed(i, &g[i]);
                proof {
                    lemma_count_agree(
                        marks_elsewhere(res@, g@[i as int]),
                        marks_elsewhere(prev, g@[i as int]),
                        i as int,
                    );
                }
                if used < credit {
                    GuessedCharacter::Elsewhere(g[i])
                } else {
                    GuessedCharacter::Not(g[i])
                }
            };
            assert(status == status_at(g@, t@, prev, i as int));
            res.guess[i] = status;
            assert(res@.take(i as int + 1) =~= prev.push(status));
            i += 1;
        }
        assert(res@.take(5) =~= res@);
        res
    }

    /// The number of positions before `i` that this feedback marks
    /// `Elsewhere` with the letter `ch`.
    pub fn already_guessed(&self, i: usize, ch: &char) -> (n: usize)
        ensures
            n == prior_present(self@, if i < WORD_LEN { i as int } else { WORD_LEN as int }, *ch),
            n <= 5,
    {
        let end: usize = if i < 5 { i } else { 5 };
        let mut n: usize = 0;
        let mut l: usize = 0;
        while l < end
            invariant
                l <= end <= 5,
                n <= l,
                n == count_below(marks_elsewhere(self@, *ch), l as int),
            decreases end - l,
        {
            match self.guess[l] {
                GuessedCharacter::Elsewhere(c) => {
                    if c == *ch {
                        n += 1;
                    }
                },
                _ => {},
            }
            l += 1;
        }
        n
    }

    /// The number of times that `ch` must be marked `Elsewhere` in this
    /// feedback for `candidate`: the occurrences of `ch` in `candidate`,
    /// less those at positions that this feedback marks `Correct` with
    /// `ch`.
    pub fn orange_in_candidate(&self, ch: &char, candidate: &str) -> (n: usize)
        requires
            candidate@.len() == WORD_LEN,
        ensures
            n == required_orange(self@, *ch, candidate@),
    {
        let c = letters(candidate);
        self.orange_in(*ch, &c)
    }

    /// `orange_in_candidate` on a candidate given by its letters.
    fn orange_in(&self, ch: char, c: &[char; 5]) -> (n: usize)
        ensures
            n == required_orange(self@, ch, c@),
            n <= 5,
    {
        let total = count_letter(c, ch);
        if total == 0 {
            proof {
                lemma_count_implies(green_match(self@, ch, c@), holds_letter(c@, ch), 5);
            }
            return 0;
        }
        let mut green: usize = 0;
        let mut k: usize = 0;
        while k < 5
            invariant
                k <= 5,
                green == count_below(green_match(self@, ch, c@), k as int),
                green <= count_below(holds_letter(c@, ch), k as int) <= k,
            decreases 5 - k,
        {
            let is_green = match self.guess[k] {
                GuessedCharacter::Correct(x) => x == ch,
                _ => false,
            };
            if is_green && c[k] == ch {
                green += 1;
            }
            k += 1;
        }
        total - green
    }

    /// Whether `candidate` can be the word sought, given this feedback.
    pub fn allows(&self, candidate: &str) -> (r: bool)
        requires
            candidate@.len() == WORD_LEN,
        ensures
            r == allows(self@, candidate@),
    {
        let c = letters(candidate);
        let mut i: usize = 0;
        while i < 5
            invariant
                i <= 5,
                c@ == candidate@,
                forall|k: int| 0 <= k < i ==> #[trigger] position_holds(self@, c@, k),
            decreases 5 - i,
        {
            let ok = match self.guess[i] {
                GuessedCharacter::Not(ch) => {
                    if c[i] == ch {
                        false
                    } else {
                        let orange = self.orange_in(ch, &c);
                        orange == 0 || self.already_guessed(i, &ch) >= orange
                    }
                },
                GuessedCharacter::Elsewhere(ch) => {
                    if c[i] == ch {
                        false
                    } else {
                        let orange = self.orange_in(ch, &c);
                        orange != 0 && self.already_guessed(i, &ch) < orange
                    }
                },
                GuessedCharacter::Correct(ch) => c[i] == ch,
            };
            assert(ok == position_holds(self@, c@, i as int));
            if !ok {
                return false;
            }
            i += 1;
        }
        true
    }
}

} // verus!
