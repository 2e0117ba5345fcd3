//! Scoring a word as the next guess: the number of words that would stay
//! possible, summed over every word that may still be the target.

use crate::feedback::{derive_feedback, Guess, GuessedCharacter, WORD_LEN};
use crate::game::{
    borrowed_views, consistent_with, possible_words, valid_vocabulary, word_views, Wordle,
};
use crate::narrowing::lemma_allowed_by_push;
use crate::chunks::{
    add_scores, chunk_end, chunk_ranges, chunk_start, lemma_chunks_partition, worker_count,
};
use crate::ranking::{as_ints, entries, is_ranking};
use vstd::prelude::*;

verus! {

/// The number of words that stay possible once the feedback of the guess
/// `g` against the target `t` is recorded too.
pub open spec fn remaining(
    vocab: Seq<Seq<char>>,
    history: Seq<Seq<GuessedCharacter>>,
    g: Seq<char>,
    t: Seq<char>,
) -> nat {
    possible_words(vocab, history.push(derive_feedback(g, t))).len()
}

/// The share of the score of the guess `g` that the given targets
/// contribute: the sum of `remaining` over them.
pub open spec fn score_over(
    vocab: Seq<Seq<char>>,
    history: Seq<Seq<GuessedCharacter>>,
    targets: Seq<Seq<char>>,
    g: Seq<char>,
) -> nat
    decreases targets.len(),
{
    if targets.len() == 0 {
        0
    } else {
        score_over(vocab, history, targets.drop_last(), g) + remaining(
            vocab,
            history,
            g,
            targets.last(),
        )
    }
}

/// The score of the guess `g`: the sum of `remaining` over the words that
/// are possible now. A lower score is better.
pub open spec fn score(
    vocab: Seq<Seq<char>>,
    history: Seq<Seq<GuessedCharacter>>,
    g: Seq<char>,
) -> nat {
    score_over(vocab, history, possible_words(vocab, history), g)
}

/// The scores of the vocabulary's words, position by position.
pub open spec fn scores(vocab: Seq<Seq<char>>, history: Seq<Seq<GuessedCharacter>>) -> Seq<int> {
    Seq::new(vocab.len(), |j: int| score(vocab, history, vocab[j]) as int)
}

/// Each target contributes at most the size of the vocabulary.
pub proof fn lemma_score_over_bound(
    vocab: Seq<Seq<char>>,
    history: Seq<Seq<GuessedCharacter>>,
    targets: Seq<Seq<char>>,
    g: Seq<char>,
)
    ensures
        score_over(vocab, history, targets, g) <= targets.len() * vocab.len(),
    decreases targets.len(),
{
    if targets.len() > 0 {
        lemma_score_over_bound(vocab, history, targets.drop_last(), g);
        vocab.lemma_filter_len(consistent_with(history.push(derive_feedback(g, targets.last()))));
        assert((targets.len() - 1) * vocab.len() + vocab.len() == targets.len() * vocab.len())
            by (nonlinear_arith);
    }
}

/// The share of two runs of targets, one after the other, is the sum of
/// their shares.
pub proof fn lemma_score_over_concat(
    vocab: Seq<Seq<char>>,
    history: Seq<Seq<GuessedCharacter>>,
    a: Seq<Seq<char>>,
    b: Seq<Seq<char>>,
    g: Seq<char>,
)
    ensures
        score_over(vocab, history, a + b, g) == score_over(vocab, history, a, g) + score_over(
            vocab,
            history,
            b,
            g,
        ),
    decreases b.len(),
{
    if b.len() == 0 {
        assert(a + b =~= a);
    } else {
        lemma_score_over_concat(vocab, history, a, b.drop_last(), g);
        assert((a + b).drop_last() =~= a + b.drop_last());
        assert((a + b).last() == b.last());
    }
}

/// The shares of two adjoining ranges of targets add up to the share of the
/// range that they make together.
pub proof fn lemma_score_over_split(
    vocab: Seq<Seq<char>>,
    history: Seq<Seq<GuessedCharacter>>,
    targets: Seq<Seq<char>>,
    lo: int,
    mid: int,
    hi: int,
    g: Seq<char>,
)
    requires
        0 <= lo <= mid <= hi <= targets.len(),
    ensures
        score_over(vocab, history, targets.subrange(lo, hi), g) == score_over(
            vocab,
            history,
            targets.subrange(lo, mid),
            g,
        ) + score_over(vocab, history, targets.subrange(mid, hi), g),
{
    assert(targets.subrange(lo, hi) =~= targets.subrange(lo, mid) + targets.subrange(mid, hi));
    lemma_score_over_concat(
        vocab,
        history,
        targets.subrange(lo, mid),
        targets.subrange(mid, hi),
        g,
    );
}

/// The score of the guess `g` as the first `k` of the chunks made for `n`
/// workers add it up, each chunk contributing its own share.
pub open spec fn chunked_score(
    vocab: Seq<Seq<char>>,
    history: Seq<Seq<GuessedCharacter>>,
    n: nat,
    k: nat,
    g: Seq<char>,
) -> nat
    decreases k,
{
    if k == 0 {
        0
    } else {
        let targets = possible_words(vocab, history);
        chunked_score(vocab, history, n, (k - 1) as nat, g) + score_over(
            vocab,
            history,
            targets.subrange(
                chunk_start(targets.len(), n, k - 1),
                chunk_end(targets.len(), n, k - 1),
            ),
            g,
        )
    }
}

/// The first `k` chunks add up to the share of the targets that they
/// cover.
proof fn lemma_chunked_score_upto(
    vocab: Seq<Seq<char>>,
    history: Seq<Seq<GuessedCharacter>>,
    n: nat,
    k: nat,
    g: Seq<char>,
)
    requires
        0 < k <= worker_count(possible_words(vocab, history).len(), n),
    ensures
        chunked_score(vocab, history, n, k, g) == score_over(
            vocab,
            history,
            possible_words(vocab, history).subrange(
                0,
                chunk_end(possible_words(vocab, history).len(), n, k - 1),
            ),
            g,
        ),
    decreases k,
{
    let targets = possible_words(vocab, history);
    let len = targets.len();
    lemma_chunks_partition(len, n, k - 1);
    if k > 1 {
        lemma_chunked_score_upto(vocab, history, n, (k - 1) as nat, g);
        lemma_chunks_partition(len, n, k - 2);
        lemma_score_over_split(
            vocab,
            history,
            targets,
            0,
            chunk_start(len, n, k - 1),
            chunk_end(len, n, k - 1),
            g,
        );
    } else {
        assert(chunked_score(vocab, history, n, 0, g) == 0);
    }
}

/// However many workers are asked for, the shares of their chunks add up to
/// the score.
pub proof fn lemma_chunked_score(
    vocab: Seq<Seq<char>>,
    history: Seq<Seq<GuessedCharacter>>,
    n: nat,
    g: Seq<char>,
)
    ensures
        chunked_score(
            vocab,
            history,
            n,
            worker_count(possible_words(vocab, history).len(), n),
            g,
        ) == score(vocab, history, g),
{
    let targets = possible_words(vocab, history);
    let workers = worker_count(targets.len(), n);
    if workers > 0 {
        lemma_chunked_score_upto(vocab, history, n, workers, g);
        lemma_chunks_partition(targets.len(), n, workers - 1);
        assert(targets.subrange(0, targets.len() as int) =~= targets);
    }
}

/// Every possible word is a word of the vocabulary.
pub proof fn lemma_possible_in_vocabulary(
    vocab: Seq<Seq<char>>,
    history: Seq<Seq<GuessedCharacter>>,
    i: int,
)
    requires
        0 <= i < possible_words(vocab, history).len(),
    ensures
        vocab.contains(possible_words(vocab, history)[i]),
        possible_words(vocab, history).len() <= vocab.len(),
{
    let possible = possible_words(vocab, history);
    assert(possible.contains(possible[i]));
    vocab.lemma_filter_contains_rev(consistent_with(history), possible[i]);
    vocab.lemma_filter_len(consistent_with(history));
}

proof fn lemma_mul_le(a: int, b: int, c: int)
    requires
        0 <= a <= b,
        0 <= c,
    ensures
        a * c <= b * c,
{
    assert(a * c <= b * c) by (nonlinear_arith)
        requires
            0 <= a <= b,
            0 <= c,
    ;
}

impl Wordle {
    /// The number of words that stay possible once `extra` is recorded on
    /// top of the history.
    pub fn remaining_after(&self, extra: &Guess) -> (n: usize)
        ensures
            n == possible_words(self.vocabulary(), self.history().push(extra@)).len(),
            n <= self.vocabulary().len(),
    {
        let words = self.words();
        let ghost vocab = self.vocabulary();
        let ghost test = consistent_with(self.history().push(extra@));
        let mut n: usize = 0;
        let mut i: usize = 0;
        assert(vocab.take(0).filter(test).len() == 0) by {
            reveal(Seq::filter);
        }
        while i < words.len()
            invariant
                i <= words@.len(),
                vocab == self.vocabulary(),
                vocab == word_views(words@),
                valid_vocabulary(vocab),
                test == consistent_with(self.history().push(extra@)),
                n == vocab.take(i as int).filter(test).len(),
                n <= i,
            decreases words@.len() - i,
        {
            let word = words[i].as_str();
            assert(vocab[i as int] == word@);
            let keep = self.is_possible(word) && extra.allows(word);
            proof {
                let next = vocab.take(i as int + 1);
                assert(next.drop_last() =~= vocab.take(i as int));
                assert(next.last() == word@);
                reveal(Seq::filter);
                lemma_allowed_by_push(self.history(), extra@, word@);
            }
            if keep {
                n += 1;
            }
            i += 1;
        }
        assert(vocab.take(i as int) =~= vocab);
        n
    }

    /// For each word of the vocabulary, the share of its score that the
    /// targets at positions `lo..hi` of `targets` contribute.
    fn scores_of(&self, targets: &Vec<&String>, lo: usize, hi: usize) -> (r: Vec<usize>)
        requires
            borrowed_views(targets@) == self.possible_words(),
            lo <= hi <= targets@.len(),
        ensures
            r@.len() == self.vocabulary().len(),
            forall|j: int|
                0 <= j < r@.len() ==> #[trigger] r@[j] == score_over(
                    self.vocabulary(),
                    self.history(),
                    self.possible_words().subrange(lo as int, hi as int),
                    self.vocabulary()[j],
                ),
    {
        let words = self.words();
        let n = words.len();
        let ghost vocab = self.vocabulary();
        let ghost history = self.history();
        let ghost possible = self.possible_words();
        let mut r: Vec<usize> = Vec::new();
        let mut j: usize = 0;
        while j < n
            invariant
                j <= n,
                r@.len() == j,
                forall|k: int| 0 <= k < j ==> #[trigger] r@[k] == 0,
            decreases n - j,
        {
            r.push(0);
            j += 1;
        }
        let mut t: usize = lo;
        assert(possible.subrange(lo as int, lo as int) =~= Seq::<Seq<char>>::empty());
        while t < hi
            invariant
                lo <= t <= hi <= targets@.len(),
                n == words@.len(),
                vocab == self.vocabulary(),
                vocab == word_views(words@),
                valid_vocabulary(vocab),
                history == self.history(),
                possible == self.possible_words(),
                possible == borrowed_views(targets@),
                r@.len() == n,
                forall|k: int|
                    0 <= k < n ==> #[trigger] r@[k] == score_over(
                        vocab,
                        history,
                        possible.subrange(lo as int, t as int),
                        vocab[k],
                    ),
            decreases hi - t,
        {
            let target = targets[t].as_str();
            let ghost done = possible.subrange(lo as int, t as int);
            let ghost more = possible.subrange(lo as int, t as int + 1);
            proof {
                assert(possible[t as int] == target@);
                lemma_possible_in_vocabulary(vocab, history, t as int);
                assert(more.drop_last() =~= done);
                assert(more.last() == target@);
                lemma_mul_le(more.len() as int, n as int, n as int);
            }
            let mut j: usize = 0;
            while j < n
                invariant
                    j <= n,
                    n == words@.len(),
                    vocab == self.vocabulary(),
                    vocab == word_views(words@),
                    valid_vocabulary(vocab),
                    history == self.history(),
                    target@.len() == WORD_LEN,
                    more.len() > 0,
                    more.drop_last() == done,
                    more.last() == target@,
                    more.len() * n <= usize::MAX,
                    r@.len() == n,
                    forall|k: int|
                        0 <= k < j ==> #[trigger] r@[k] == score_over(
                            vocab,
                            history,
                            more,
                            vocab[k],
                        ),
                    forall|k: int|
                        j <= k < n ==> #[trigger] r@[k] == score_over(
                            vocab,
                            history,
                            done,
                            vocab[k],
                        ),
                decreases n - j,
            {
                let word = words[j].as_str();
                assert(vocab[j as int] == word@);
                let feedback = Guess::guess(word, target);
                let left = self.remaining_after(&feedback);
                proof {
                    lemma_score_over_bound(vocab, history, more, word@);
                }
                r.set(j, r[j] + left);
                j += 1;
            }
            t += 1;
        }
        r
    }

    /// For each word of the vocabulary, the share of its score that the
    /// possible words at positions `lo..hi` contribute as targets.
    pub fn partial_scores(&self, lo: usize, hi: usize) -> (r: Vec<usize>)
        requires
            lo <= hi <= self.possible_words().len(),
        ensures
            r@.len() == self.vocabulary().len(),
            forall|j: int|
                0 <= j < r@.len() ==> #[trigger] r@[j] == score_over(
                    self.vocabulary(),
                    self.history(),
                    self.possible_words().subrange(lo as int, hi as int),
                    self.vocabulary()[j],
                ),
    {
        let possible = self.possible();
        self.scores_of(&possible, lo, hi)
    }

    /// Every word of the vocabulary with its score, the best next guess
    /// first.
    pub fn next(&self) -> (r: Vec<(&String, usize)>)
        ensures
            is_ranking(
                self.vocabulary(),
                self.history(),
                scores(self.vocabulary(), self.history()),
                entries(r@),
            ),
    {
        let possible = self.possible();
        let totals = self.scores_of(&possible, 0, possible.len());
        proof {
            let all = self.possible_words();
            assert(all.subrange(0, all.len() as int) =~= all);
            assert(as_ints(totals@) =~= scores(self.vocabulary(), self.history()));
        }
        self.rank(&totals)
    }

    /// The result of `next`, computed as `n` workers would: the possible
    /// targets are split into chunks, each chunk is scored by itself, and
    /// the shares are added up. No worker is left without a target: fewer
    /// chunks are made where `n` exceeds the number of targets, and one
    /// where `n` is zero.
    pub fn next_parallel(&self, n: usize) -> (r: Vec<(&String, usize)>)
        ensures
            is_ranking(
                self.vocabulary(),
                self.history(),
                scores(self.vocabulary(), self.history()),
                entries(r@),
            ),
    {
        let possible = self.possible();
        let ranges = chunk_ranges(possible.len(), n);
        let mut totals = self.scores_of(&possible, 0, 0);
        let ghost vocab = self.vocabulary();
        let ghost history = self.history();
        let ghost all = self.possible_words();
        let mut k: usize = 0;
        let mut done: usize = 0;
        let size = self.words().len();
        while k < ranges.len()
            invariant
                k <= ranges@.len(),
                vocab == self.vocabulary(),
                history == self.history(),
                all == self.possible_words(),
                all == borrowed_views(possible@),
                valid_vocabulary(vocab),
                forall|i: int| 0 <= i < ranges@.len() ==> (#[trigger] ranges@[i]).0 < ranges@[i].1
                    <= all.len(),
                forall|i: int| 0 < i < ranges@.len() ==> (#[trigger] ranges@[i]).0 == ranges@[i
                    - 1].1,
                ranges@.len() > 0 ==> ranges@[0].0 == 0 && ranges@[ranges@.len() - 1].1
                    == all.len(),
                ranges@.len() == 0 ==> all.len() == 0,
                done <= all.len(),
                size == vocab.len(),
                k < ranges@.len() ==> done == ranges@[k as int].0,
                k == ranges@.len() ==> done == all.len(),
                totals@.len() == size,
                forall|j: int|
                    0 <= j < size ==> #[trigger] totals@[j] == score_over(
                        vocab,
                        history,
                        all.subrange(0, done as int),
                        vocab[j],
                    ),
            decreases ranges@.len() - k,
        {
            let lo = ranges[k].0;
            let hi = ranges[k].1;
            let part = self.scores_of(&possible, lo, hi);
            proof {
                vocab.lemma_filter_len(consistent_with(history));
                lemma_mul_le(hi as int, vocab.len() as int, vocab.len() as int);
                assert forall|j: int| 0 <= j < part@.len() implies totals@[j] + part@[j]
                    == score_over(vocab, history, all.subrange(0, hi as int), vocab[j])
                    && totals@[j] + part@[j] <= usize::MAX by {
                    lemma_score_over_split(vocab, history, all, 0, lo as int, hi as int, vocab[j]);
                    lemma_score_over_bound(vocab, history, all.subrange(0, hi as int), vocab[j]);
                }
            }
            let added = add_scores(&mut totals, &part);
            assert(added);
            done = hi;
            k += 1;
        }
        proof {
            assert(all.subrange(0, all.len() as int) =~= all);
            assert(as_ints(totals@) =~= scores(vocab, history));
        }
        self.rank(&totals)
    }
}

} // verus!
