//! Ranking the vocabulary by score: lower scores first; among equal scores
//! the words that are still possible first; among those the order of the
//! vocabulary.

use crate::game::{allowed_by_all, borrowed_views, valid_vocabulary, word_views, Wordle};
use crate::feedback::GuessedCharacter;
use vstd::prelude::*;

verus! {

/// Whether `j` is the first position of the vocabulary that holds `w`.
pub open spec fn is_first_of(vocab: Seq<Seq<char>>, w: Seq<char>, j: int) -> bool {
    &&& 0 <= j < vocab.len()
    &&& vocab[j] == w
    &&& forall|i: int| 0 <= i < j ==> #[trigger] vocab[i] != w
}

/// The first position of the vocabulary that holds `w`.
pub open spec fn first_index(vocab: Seq<Seq<char>>, w: Seq<char>) -> int {
    choose|j: int| is_first_of(vocab, w, j)
}

/// The position that `is_first_of` singles out is the one that
/// `first_index` names.
pub proof fn lemma_first_unique(vocab: Seq<Seq<char>>, w: Seq<char>, j: int)
    requires
        is_first_of(vocab, w, j),
    ensures
        first_index(vocab, w) == j,
{
    let f = first_index(vocab, w);
    assert(is_first_of(vocab, w, f));
    if f < j {
        assert(vocab[f] != w);
    }
    if j < f {
        assert(vocab[j] != w);
    }
}

/// Every word of the vocabulary has a first position, at or before any
/// position that holds it.
pub proof fn lemma_first_index(vocab: Seq<Seq<char>>, j: int)
    requires
        0 <= j < vocab.len(),
    ensures
        is_first_of(vocab, vocab[j], first_index(vocab, vocab[j])),
        first_index(vocab, vocab[j]) <= j,
    decreases j,
{
    let w = vocab[j];
    if exists|i: int| 0 <= i < j && vocab[i] == w {
        let i = choose|i: int| 0 <= i < j && vocab[i] == w;
        lemma_first_index(vocab, i);
    } else {
        assert(is_first_of(vocab, w, j));
    }
    let f = first_index(vocab, w);
    if j < f {
        assert(vocab[j] != w);
    }
}

/// Whether the word at position `a` is ranked before the word at position
/// `b`, given a total for each position.
pub open spec fn comes_before(
    vocab: Seq<Seq<char>>,
    history: Seq<Seq<GuessedCharacter>>,
    totals: Seq<int>,
    a: int,
    b: int,
) -> bool {
    let a_possible = allowed_by_all(history, vocab[a]);
    let b_possible = allowed_by_all(history, vocab[b]);
    totals[a] < totals[b] || (totals[a] == totals[b] && ((a_possible && !b_possible) || (
    a_possible == b_possible && a < b)))
}

/// Whether some entry of `r` is for the word `w`.
pub open spec fn ranks_word(r: Seq<(Seq<char>, int)>, w: Seq<char>) -> bool {
    exists|k: int| 0 <= k < r.len() && (#[trigger] r[k]).0 == w
}

/// Whether `r` ranks the vocabulary by the given totals: it holds every
/// word of the vocabulary once, each with the total of its first position,
/// in the order that `comes_before` gives.
pub open spec fn is_ranking(
    vocab: Seq<Seq<char>>,
    history: Seq<Seq<GuessedCharacter>>,
    totals: Seq<int>,
    r: Seq<(Seq<char>, int)>,
) -> bool {
    &&& forall|k: int|
        0 <= k < r.len() ==> vocab.contains((#[trigger] r[k]).0) && r[k].1 == totals[first_index(
            vocab,
            r[k].0,
        )]
    &&& forall|j: int| 0 <= j < vocab.len() ==> ranks_word(r, #[trigger] vocab[j])
    &&& forall|k1: int, k2: int|
        0 <= k1 < k2 < r.len() ==> comes_before(
            vocab,
            history,
            totals,
            first_index(vocab, (#[trigger] r[k1]).0),
            first_index(vocab, (#[trigger] r[k2]).0),
        )
}

/// A ranking holds no word at two places.
pub proof fn lemma_ranking_distinct(
    vocab: Seq<Seq<char>>,
    history: Seq<Seq<GuessedCharacter>>,
    totals: Seq<int>,
    r: Seq<(Seq<char>, int)>,
    k1: int,
    k2: int,
)
    requires
        is_ranking(vocab, history, totals, r),
        0 <= k1 < k2 < r.len(),
    ensures
        r[k1].0 != r[k2].0,
{
    let a = first_index(vocab, r[k1].0);
    let b = first_index(vocab, r[k2].0);
    assert(comes_before(vocab, history, totals, a, b));
}

/// Two rankings of one vocabulary by the same totals agree on the words at
/// the first `k + 1` places.
proof fn lemma_rankings_agree_upto(
    vocab: Seq<Seq<char>>,
    history: Seq<Seq<GuessedCharacter>>,
    totals: Seq<int>,
    r1: Seq<(Seq<char>, int)>,
    r2: Seq<(Seq<char>, int)>,
    k: int,
)
    requires
        is_ranking(vocab, history, totals, r1),
        is_ranking(vocab, history, totals, r2),
        0 <= k < r1.len(),
        k < r2.len(),
    ensures
        forall|i: int| 0 <= i <= k ==> (#[trigger] r1[i]).0 == r2[i].0,
    decreases k,
{
    if k > 0 {
        lemma_rankings_agree_upto(vocab, history, totals, r1, r2, k - 1);
    }
    let w1 = r1[k].0;
    let w2 = r2[k].0;
    if w1 != w2 {
        let a = first_index(vocab, w1);
        let b = first_index(vocab, w2);
        let j1 = choose|j: int| 0 <= j < vocab.len() && vocab[j] == w1;
        assert(ranks_word(r2, vocab[j1]));
        let k2 = choose|i: int| 0 <= i < r2.len() && (#[trigger] r2[i]).0 == w1;
        if k2 < k {
            assert(r1[k2].0 == r2[k2].0);
            lemma_ranking_distinct(vocab, history, totals, r1, k2, k);
        }
        assert(comes_before(vocab, history, totals, b, a));
        let j2 = choose|j: int| 0 <= j < vocab.len() && vocab[j] == w2;
        assert(ranks_word(r1, vocab[j2]));
        let k1 = choose|i: int| 0 <= i < r1.len() && (#[trigger] r1[i]).0 == w2;
        if k1 < k {
            assert(r1[k1].0 == r2[k1].0);
            lemma_ranking_distinct(vocab, history, totals, r2, k1, k);
        }
        assert(comes_before(vocab, history, totals, a, b));
    }
}

/// Of two rankings of one vocabulary by the same totals, the first is no
/// longer than the second.
proof fn lemma_ranking_no_longer(
    vocab: Seq<Seq<char>>,
    history: Seq<Seq<GuessedCharacter>>,
    totals: Seq<int>,
    r1: Seq<(Seq<char>, int)>,
    r2: Seq<(Seq<char>, int)>,
)
    requires
        is_ranking(vocab, history, totals, r1),
        is_ranking(vocab, history, totals, r2),
    ensures
        r1.len() <= r2.len(),
{
    if r1.len() > r2.len() {
        let k = r2.len() as int;
        let w = r1[k].0;
        let j = choose|j: int| 0 <= j < vocab.len() && vocab[j] == w;
        assert(ranks_word(r2, vocab[j]));
        let k2 = choose|i: int| 0 <= i < r2.len() && (#[trigger] r2[i]).0 == w;
        lemma_rankings_agree_upto(vocab, history, totals, r1, r2, k2);
        assert(r1[k2].0 == r2[k2].0);
        lemma_ranking_distinct(vocab, history, totals, r1, k2, k);
    }
}

/// The vocabulary, the history and the totals determine the ranking: in
/// whatever way the totals were added up, the same words come out with the
/// same totals in the same order.
pub proof fn lemma_ranking_unique(
    vocab: Seq<Seq<char>>,
    history: Seq<Seq<GuessedCharacter>>,
    totals: Seq<int>,
    r1: Seq<(Seq<char>, int)>,
    r2: Seq<(Seq<char>, int)>,
)
    requires
        is_ranking(vocab, history, totals, r1),
        is_ranking(vocab, history, totals, r2),
    ensures
        r1 == r2,
{
    lemma_ranking_no_longer(vocab, history, totals, r1, r2);
    lemma_ranking_no_longer(vocab, history, totals, r2, r1);
    if r1.len() > 0 {
        lemma_rankings_agree_upto(vocab, history, totals, r1, r2, r1.len() - 1);
    }
    assert(r1 =~= r2);
}

/// The totals as mathematical integers.
pub open spec fn as_ints(totals: Seq<usize>) -> Seq<int> {
    Seq::new(totals.len(), |j: int| totals[j] as int)
}

/// The entries of a ranking, each as the letters of its word and its
/// total.
pub open spec fn entries(r: Seq<(&String, usize)>) -> Seq<(Seq<char>, int)> {
    Seq::new(r.len(), |k: int| (r[k].0@, r[k].1 as int))
}

/// Whether no earlier word of the list equals the word at position `j`.
fn first_occurrence(words: &Vec<String>, j: usize) -> (r: bool)
    requires
        j < words@.len(),
    ensures
        r == is_first_of(word_views(words@), word_views(words@)[j as int], j as int),
{
    let ghost vocab = word_views(words@);
    let mut i: usize = 0;
    while i < j
        invariant
            i <= j < words@.len(),
            vocab == word_views(words@),
            forall|k: int| 0 <= k < i ==> #[trigger] vocab[k] != vocab[j as int],
        decreases j - i,
    {
        if words[i] == words[j] {
            assert(vocab[i as int] == vocab[j as int]);
            return false;
        }
        i += 1;
    }
    true
}

/// Whether position `a` is ranked before position `b`.
fn goes_before(totals: &Vec<usize>, flags: &Vec<bool>, a: usize, b: usize) -> (r: bool)
    requires
        a < totals@.len(),
        b < totals@.len(),
        flags@.len() == totals@.len(),
    ensures
        r == (totals@[a as int] < totals@[b as int] || (totals@[a as int] == totals@[b as int] && ((
        flags@[a as int] && !flags@[b as int]) || (flags@[a as int] == flags@[b as int] && a
            < b)))),
{
    let ta = totals[a];
    let tb = totals[b];
    if ta != tb {
        ta < tb
    } else if flags[a] != flags[b] {
        flags[a]
    } else {
        a < b
    }
}

impl Wordle {
    /// The vocabulary ranked by the given totals, one for each position of
    /// the vocabulary.
    pub fn rank(&self, totals: &Vec<usize>) -> (r: Vec<(&String, usize)>)
        requires
            totals@.len() == self.vocabulary().len(),
        ensures
            is_ranking(self.vocabulary(), self.history(), as_ints(totals@), entries(r@)),
    {
        let words = self.words();
        let n = words.len();
        let ghost vocab = self.vocabulary();
        let ghost history = self.history();
        let ghost ints = as_ints(totals@);
        let mut flags: Vec<bool> = Vec::new();
        let mut j: usize = 0;
        while j < n
            invariant
                j <= n,
                n == words@.len(),
                vocab == self.vocabulary(),
                vocab == word_views(words@),
                valid_vocabulary(vocab),
                history == self.history(),
                flags@.len() == j,
                forall|k: int|
                    0 <= k < j ==> #[trigger] flags@[k] == allowed_by_all(history, vocab[k]),
            decreases n - j,
        {
            assert(vocab[j as int] == words@[j as int]@);
            flags.push(self.is_possible(words[j].as_str()));
            j += 1;
        }
        let mut order: Vec<usize> = Vec::new();
        let mut j: usize = 0;
        while j < n
            invariant
                j <= n,
                n == words@.len(),
                n == totals@.len(),
                vocab == word_views(words@),
                ints == as_ints(totals@),
                flags@.len() == n,
                forall|k: int|
                    0 <= k < n ==> #[trigger] flags@[k] == allowed_by_all(history, vocab[k]),
                forall|k: int|
                    0 <= k < order@.len() ==> (#[trigger] order@[k]) < j && is_first_of(
                        vocab,
                        vocab[order@[k] as int],
                        order@[k] as int,
                    ),
                forall|p: int|
                    0 <= p < j && is_first_of(vocab, #[trigger] vocab[p], p) ==> exists|k: int|
                        0 <= k < order@.len() && #[trigger] order@[k] == p,
                forall|k1: int, k2: int|
                    0 <= k1 < k2 < order@.len() ==> comes_before(
                        vocab,
                        history,
                        ints,
                        #[trigger] order@[k1] as int,
                        #[trigger] order@[k2] as int,
                    ),
            decreases n - j,
        {
            if first_occurrence(words, j) {
                let mut idx: usize = 0;
                while idx < order.len() && goes_before(totals, &flags, order[idx], j)
                    invariant
                        idx <= order@.len(),
                        j < n,
                        n == totals@.len(),
                        flags@.len() == n,
                        vocab.len() == n,
                        ints == as_ints(totals@),
                        forall|k: int|
                            0 <= k < n ==> #[trigger] flags@[k] == allowed_by_all(
                                history,
                                vocab[k],
                            ),
                        forall|k: int| 0 <= k < order@.len() ==> (#[trigger] order@[k]) < j,
                        forall|k: int|
                            0 <= k < idx ==> comes_before(
                                vocab,
                                history,
                                ints,
                                #[trigger] order@[k] as int,
                                j as int,
                            ),
                    decreases order@.len() - idx,
                {
                    idx += 1;
                }
                let ghost before = order@;
                order.insert(idx, j);
                proof {
                    before.insert_ensures(idx as int, j);
                    let after = order@;
                    assert forall|k: int| idx <= k < before.len() implies comes_before(
                        vocab,
                        history,
                        ints,
                        j as int,
                        #[trigger] before[k] as int,
                    ) by {
                        assert(before[idx as int] < j);
                        assert(comes_before(
                            vocab,
                            history,
                            ints,
                            j as int,
                            before[idx as int] as int,
                        ));
                        if idx < k {
                            assert(comes_before(
                                vocab,
                                history,
                                ints,
                                before[idx as int] as int,
                                before[k] as int,
                            ));
                        }
                    }
                    assert forall|k: int| 0 <= k < after.len() implies (#[trigger] after[k]) < j
                        + 1 && is_first_of(vocab, vocab[after[k] as int], after[k] as int) by {
                        if k < idx {
                            assert(after[k] == before[k]);
                        } else if k > idx {
                            assert(after[k] == before[k - 1]);
                        }
                    }
                    assert forall|p: int|
                        0 <= p < j + 1 && is_first_of(vocab, #[trigger] vocab[p], p) implies exists|
                        k: int,
                    |
                        0 <= k < after.len() && #[trigger] after[k] == p by {
                        if p == j {
                            assert(after[idx as int] == p);
                        } else {
                            let k = choose|k: int|
                                0 <= k < before.len() && #[trigger] before[k] == p;
                            if k < idx {
                                assert(after[k] == p);
                            } else {
                                assert(after[k + 1] == before[k]);
                                assert(after[k + 1] == p);
                            }
                        }
                    }
                    assert forall|k1: int, k2: int| 0 <= k1 < k2 < after.len() implies comes_before(
                        vocab,
                        history,
                        ints,
                        #[trigger] after[k1] as int,
                        #[trigger] after[k2] as int,
                    ) by {
                        if k1 < idx {
                            assert(after[k1] == before[k1]);
                        } else if k1 > idx {
                            assert(after[k1] == before[k1 - 1]);
                        }
                        if k2 < idx {
                            assert(after[k2] == before[k2]);
                        } else if k2 > idx {
                            assert(after[k2] == before[k2 - 1]);
                        }
                    }
                }
            }
            j += 1;
        }
        let mut r: Vec<(&String, usize)> = Vec::new();
        let mut k: usize = 0;
        while k < order.len()
            invariant
                k <= order@.len(),
                n == words@.len(),
                n == totals@.len(),
                forall|i: int| 0 <= i < order@.len() ==> (#[trigger] order@[i]) < n,
                r@.len() == k,
                forall|i: int|
                    0 <= i < k ==> (#[trigger] r@[i]).0@ == words@[order@[i] as int]@ && r@[i].1
                        == totals@[order@[i] as int],
            decreases order@.len() - k,
        {
            let p = order[k];
            r.push((&words[p], totals[p]));
            k += 1;
        }
        proof {
            let e = entries(r@);
            assert forall|k: int| 0 <= k < e.len() implies vocab.contains((#[trigger] e[k]).0)
                && e[k].1 == ints[first_index(vocab, e[k].0)] && first_index(vocab, e[k].0)
                == order@[k] by {
                let p = order@[k] as int;
                assert(e[k].0 == vocab[p]);
                lemma_first_unique(vocab, vocab[p], p);
            }
            assert forall|j: int| 0 <= j < vocab.len() implies ranks_word(
                e,
                #[trigger] vocab[j],
            ) by {
                lemma_first_index(vocab, j);
                let p = first_index(vocab, vocab[j]);
                assert(is_first_of(vocab, vocab[p], p));
                let k = choose|k: int| 0 <= k < order@.len() && #[trigger] order@[k] == p;
                assert(e[k].0 == vocab[j]);
            }
            assert forall|k1: int, k2: int| 0 <= k1 < k2 < e.len() implies comes_before(
                vocab,
                history,
                ints,
                first_index(vocab, (#[trigger] e[k1]).0),
                first_index(vocab, (#[trigger] e[k2]).0),
            ) by {
                assert(comes_before(vocab, history, ints, order@[k1] as int, order@[k2] as int));
            }
        }
        r
    }

    /// The first `n` entries of a ranking, or all of them where there are
    /// fewer, each with a mark that says whether its word is still
    /// possible.
    pub fn best<'a>(&self, ranking: &Vec<(&'a String, usize)>, n: usize) -> (r: Vec<
        (&'a String, usize, bool),
    >)
        ensures
            r@.len() == if n < ranking@.len() {
                n as int
            } else {
                ranking@.len() as int
            },
            forall|k: int|
                0 <= k < r@.len() ==> (#[trigger] r@[k]).0@ == ranking@[k].0@ && r@[k].1
                    == ranking@[k].1 && r@[k].2 == self.possible_words().contains(ranking@[k].0@),
    {
        let possible = self.possible();
        let count: usize = if n < ranking.len() {
            n
        } else {
            ranking.len()
        };
        let mut r: Vec<(&'a String, usize, bool)> = Vec::new();
        let mut k: usize = 0;
        while k < count
            invariant
                k <= count <= ranking@.len(),
                borrowed_views(possible@) == self.possible_words(),
                r@.len() == k,
                forall|i: int|
                    0 <= i < k ==> (#[trigger] r@[i]).0@ == ranking@[i].0@ && r@[i].1
                        == ranking@[i].1 && r@[i].2 == self.possible_words().contains(
                        ranking@[i].0@,
                    ),
            decreases count - k,
        {
            let word = ranking[k].0;
            let mark = holds(&possible, word);
            r.push((word, ranking[k].1, mark));
            k += 1;
        }
        r
    }
}

/// Whether the list holds the word.
fn holds(list: &Vec<&String>, word: &String) -> (r: bool)
    ensures
        r == borrowed_views(list@).contains(word@),
{
    let ghost views = borrowed_views(list@);
    let mut i: usize = 0;
    while i < list.len()
        invariant
            i <= list@.len(),
            views == borrowed_views(list@),
            forall|k: int| 0 <= k < i ==> #[trigger] views[k] != word@,
        decreases list@.len() - i,
    {
        if *list[i] == *word {
            assert(views[i as int] == word@);
            return true;
        }
        i += 1;
    }
    false
}

} // verus!
