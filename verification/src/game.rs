//! A game in progress: a vocabulary and the feedback recorded so far, and
//! the words of the vocabulary that are still possible.

use crate::feedback::{allows, Guess, GuessedCharacter, WORD_LEN};
use crate::narrowing::{allowed_by, lemma_possible_narrows};
use vstd::prelude::*;
use vstd::string::*;

verus! {

/// The words of a vocabulary, each as its sequence of letters.
pub open spec fn word_views(words: Seq<String>) -> Seq<Seq<char>> {
    Seq::new(words.len(), |i: int| words[i]@)
}

/// The words that a list of borrowed words refers to, each as its sequence
/// of letters.
pub open spec fn borrowed_views(words: Seq<&String>) -> Seq<Seq<char>> {
    Seq::new(words.len(), |i: int| words[i]@)
}

/// The feedbacks of a history, each as its sequence of statuses.
pub open spec fn guess_views(guesses: Seq<Guess>) -> Seq<Seq<GuessedCharacter>> {
    Seq::new(guesses.len(), |i: int| guesses[i]@)
}

/// Whether every feedback of the history allows the word `w`.
pub open spec fn allowed_by_all(history: Seq<Seq<GuessedCharacter>>, w: Seq<char>) -> bool {
    forall|k: int| 0 <= k < history.len() ==> allows(#[trigger] history[k], w)
}

/// The test that a word passes when the whole history allows it.
pub open spec fn consistent_with(history: Seq<Seq<GuessedCharacter>>) -> spec_fn(
    Seq<char>,
) -> bool {
    |w: Seq<char>| allowed_by_all(history, w)
}

/// The words of the vocabulary that the whole history allows, in the order
/// of the vocabulary.
pub open spec fn possible_words(
    vocab: Seq<Seq<char>>,
    history: Seq<Seq<GuessedCharacter>>,
) -> Seq<Seq<char>> {
    vocab.filter(consistent_with(history))
}

/// Whether a list of words can be the vocabulary of a game: every word has
/// five letters, and the square of their number fits a machine word, so
/// that every score does.
pub open spec fn valid_vocabulary(vocab: Seq<Seq<char>>) -> bool {
    &&& forall|i: int| 0 <= i < vocab.len() ==> (#[trigger] vocab[i]).len() == WORD_LEN
    &&& vocab.len() * vocab.len() <= usize::MAX
}

/// A list of words that has been accepted as a vocabulary.
#[derive(Debug)]
struct Vocabulary {
    words: Vec<String>,
}

impl Vocabulary {
    #[verifier::type_invariant]
    spec fn inv(&self) -> bool {
        valid_vocabulary(word_views(self.words@))
    }

    /// The words, each as its sequence of letters.
    pub closed spec fn word_views(&self) -> Seq<Seq<char>> {
        word_views(self.words@)
    }
}

/// A vocabulary together with the feedback recorded so far.
#[derive(Debug)]
pub struct Wordle {
    vocab: Vocabulary,
    guesses: Vec<Guess>,
}

impl Clone for Vocabulary {
    fn clone(&self) -> (r: Self)
        ensures
            r.word_views() == self.word_views(),
    {
        proof {
            use_type_invariant(self);
        }
        let mut words: Vec<String> = Vec::new();
        let mut i: usize = 0;
        while i < self.words.len()
            invariant
                i <= self.words@.len(),
                words@.len() == i,
                forall|k: int| 0 <= k < i ==> (#[trigger] words@[k])@ == self.words@[k]@,
            decreases self.words@.len() - i,
        {
            words.push(self.words[i].clone());
            i += 1;
        }
        assert(word_views(words@) =~= word_views(self.words@));
        Vocabulary { words }
    }
}

impl Clone for Wordle {
    fn clone(&self) -> (r: Self)
        ensures
            r.vocabulary() == self.vocabulary(),
            r.history() == self.history(),
    {
        let vocab = self.vocab.clone();
        let mut guesses: Vec<Guess> = Vec::new();
        let mut i: usize = 0;
        while i < self.guesses.len()
            invariant
                i <= self.guesses@.len(),
                guesses@ == self.guesses@.take(i as int),
            decreases self.guesses@.len() - i,
        {
            guesses.push(self.guesses[i]);
            assert(self.guesses@.take(i as int + 1) =~= self.guesses@.take(i as int).push(
                self.guesses@[i as int],
            ));
            i += 1;
        }
        assert(self.guesses@.take(i as int) =~= self.guesses@);
        Wordle { vocab, guesses }
    }
}

/// Whether `word` has five letters.
pub fn is_word(word: &str) -> (r: bool)
    ensures
        r == (word@.len() == WORD_LEN),
{
    word.unicode_len() == 5
}

impl Wordle {
    /// The vocabulary of this game.
    pub closed spec fn vocabulary(&self) -> Seq<Seq<char>> {
        word_views(self.vocab.words@)
    }

    /// The feedback recorded so far, oldest first.
    pub closed spec fn history(&self) -> Seq<Seq<GuessedCharacter>> {
        guess_views(self.guesses@)
    }

    /// The words that are still possible, in the order of the vocabulary.
    pub open spec fn possible_words(&self) -> Seq<Seq<char>> {
        possible_words(self.vocabulary(), self.history())
    }

    /// The words of the vocabulary.
    pub(crate) fn words(&self) -> (r: &Vec<String>)
        ensures
            word_views(r@) == self.vocabulary(),
            valid_vocabulary(self.vocabulary()),
    {
        proof {
            use_type_invariant(&self.vocab);
        }
        &self.vocab.words
    }

    /// Whether `words` can be the vocabulary of a game.
    pub fn accepts(words: &Vec<String>) -> (r: bool)
        ensures
            r == valid_vocabulary(word_views(words@)),
    {
        let n = words.len();
        if n.checked_mul(n).is_none() {
            return false;
        }
        let mut i: usize = 0;
        while i < n
            invariant
                i <= n,
                n == words@.len(),
                forall|k: int| 0 <= k < i ==> (#[trigger] word_views(words@)[k]).len() == WORD_LEN,
            decreases n - i,
        {
            if !is_word(words[i].as_str()) {
                assert(word_views(words@)[i as int].len() != WORD_LEN);
                return false;
            }
            i += 1;
        }
        true
    }

    /// A game over the vocabulary `words`, with nothing recorded yet.
    pub fn new(words: Vec<String>) -> (r: Self)
        requires
            valid_vocabulary(word_views(words@)),
        ensures
            r.vocabulary() == word_views(words@),
            r.history() == Seq::<Seq<GuessedCharacter>>::empty(),
    {
        let r = Wordle { vocab: Vocabulary { words }, guesses: Vec::new() };
        assert(r.history() =~= Seq::<Seq<GuessedCharacter>>::empty());
        r
    }

    /// Records the feedback of one more guess.
    pub fn guess(&mut self, word: Guess)
        ensures
            final(self).vocabulary() == old(self).vocabulary(),
            final(self).history() == old(self).history().push(word@),
            final(self).possible_words() == old(self).possible_words().filter(allowed_by(word@)),
            forall|w: Seq<char>|
                final(self).possible_words().contains(w) ==> old(self).possible_words().contains(
                    w,
                ),
    {
        self.guesses.push(word);
        proof {
            assert(self.history() =~= old(self).history().push(word@));
            lemma_possible_narrows(old(self).vocabulary(), old(self).history(), word@);
        }
    }

    /// Whether the whole history allows `word`.
    pub fn is_possible(&self, word: &str) -> (r: bool)
        requires
            word@.len() == WORD_LEN,
        ensures
            r == allowed_by_all(self.history(), word@),
    {
        let mut k: usize = 0;
        while k < self.guesses.len()
            invariant
                k <= self.guesses@.len(),
                word@.len() == WORD_LEN,
                forall|l: int| 0 <= l < k ==> allows(#[trigger] self.history()[l], word@),
            decreases self.guesses@.len() - k,
        {
            if !self.guesses[k].allows(word) {
                assert(!allows(self.history()[k as int], word@));
                return false;
            }
            k += 1;
        }
        true
    }

    /// The words of the vocabulary that are still possible, in the order of
    /// the vocabulary.
    pub fn possible(&self) -> (r: Vec<&String>)
        ensures
            borrowed_views(r@) == possible_words(self.vocabulary(), self.history()),
    {
        proof {
            use_type_invariant(&self.vocab);
        }
        let ghost vocab = self.vocabulary();
        let ghost test = consistent_with(self.history());
        let mut r: Vec<&String> = Vec::new();
        let mut i: usize = 0;
        assert(vocab.take(0).filter(test) =~= borrowed_views(r@)) by {
            reveal(Seq::filter);
        }
        while i < self.vocab.words.len()
            invariant
                i <= self.vocab.words@.len(),
                vocab == self.vocabulary(),
                test == consistent_with(self.history()),
                valid_vocabulary(vocab),
                borrowed_views(r@) == vocab.take(i as int).filter(test),
            decreases self.vocab.words@.len() - i,
        {
            let word = &self.vocab.words[i];
            assert(vocab[i as int] == word@);
            let keep = self.is_possible(word.as_str());
            let ghost before = borrowed_views(r@);
            if keep {
                r.push(word);
            }
            proof {
                let next = vocab.take(i as int + 1);
                assert(next.drop_last() =~= vocab.take(i as int));
                assert(next.last() == word@);
                reveal(Seq::filter);
                if keep {
                    assert(borrowed_views(r@) =~= before.push(word@));
                }
            }
            i += 1;
        }
        assert(vocab.take(i as int) =~= vocab);
        r
    }

    /// Whether exactly one word is still possible.
    pub fn solved(&self) -> (r: bool)
        ensures
            r == (self.possible_words().len() == 1),
    {
        let possible = self.possible();
        possible.len() == 1
    }
}

} // verus!
