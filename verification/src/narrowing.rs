//! How the set of possible words shrinks as feedback is recorded.

use crate::feedback::{allows, derive_feedback, derive_prefix, status_at, GuessedCharacter};
use crate::game::{allowed_by_all, consistent_with, possible_words};
use crate::inverse::{lemma_allows_iff_same_feedback, lemma_derive_prefix};
use vstd::prelude::*;

verus! {

/// The test that a word passes when the feedback `fb` allows it.
pub open spec fn allowed_by(fb: Seq<GuessedCharacter>) -> spec_fn(Seq<char>) -> bool {
    |w: Seq<char>| allows(fb, w)
}

/// Filtering by `p` and then by `q` keeps what filtering by both keeps.
pub proof fn lemma_filter_twice<A>(
    s: Seq<A>,
    p: spec_fn(A) -> bool,
    q: spec_fn(A) -> bool,
    both: spec_fn(A) -> bool,
)
    requires
        forall|x: A| #[trigger] both(x) == (p(x) && q(x)),
    ensures
        s.filter(both) == s.filter(p).filter(q),
    decreases s.len(),
{
    reveal(Seq::filter);
    if s.len() > 0 {
        let rest = s.drop_last();
        lemma_filter_twice(rest, p, q, both);
        if p(s.last()) {
            let kept = rest.filter(p).push(s.last());
            assert(kept.drop_last() =~= rest.filter(p));
        }
    }
}

/// Where exactly one position of `s` passes the test `p`, filtering by `p`
/// leaves the item at that position alone.
pub proof fn lemma_filter_single<A>(s: Seq<A>, p: spec_fn(A) -> bool, j: int)
    requires
        0 <= j < s.len(),
        forall|i: int| 0 <= i < s.len() ==> (p(#[trigger] s[i]) <==> i == j),
    ensures
        s.filter(p) == seq![s[j]],
    decreases s.len(),
{
    reveal(Seq::filter);
    let rest = s.drop_last();
    if j == s.len() - 1 {
        lemma_filter_none(rest, p);
        assert(Seq::<A>::empty().push(s[j]) =~= seq![s[j]]);
    } else {
        assert(!p(s[s.len() - 1]));
        assert forall|i: int| 0 <= i < rest.len() implies (p(#[trigger] rest[i]) <==> i == j) by {
            assert(rest[i] == s[i]);
        }
        lemma_filter_single(rest, p, j);
    }
}

/// Where no position of `s` passes the test `p`, filtering by `p` leaves
/// nothing.
pub proof fn lemma_filter_none<A>(s: Seq<A>, p: spec_fn(A) -> bool)
    requires
        forall|i: int| 0 <= i < s.len() ==> !p(#[trigger] s[i]),
    ensures
        s.filter(p) == Seq::<A>::empty(),
    decreases s.len(),
{
    reveal(Seq::filter);
    if s.len() > 0 {
        let rest = s.drop_last();
        assert(!p(s[s.len() - 1]));
        assert forall|i: int| 0 <= i < rest.len() implies !p(#[trigger] rest[i]) by {
            assert(rest[i] == s[i]);
        }
        lemma_filter_none(rest, p);
    } else {
        assert(s =~= Seq::<A>::empty());
    }
}

/// A history with one more feedback allows a word exactly if the history
/// before allowed it and the new feedback allows it.
pub proof fn lemma_allowed_by_push(
    history: Seq<Seq<GuessedCharacter>>,
    fb: Seq<GuessedCharacter>,
    w: Seq<char>,
)
    ensures
        allowed_by_all(history.push(fb), w) <==> allowed_by_all(history, w) && allows(fb, w),
{
    let longer = history.push(fb);
    if allowed_by_all(longer, w) {
        assert forall|k: int| 0 <= k < history.len() implies allows(#[trigger] history[k], w) by {
            assert(longer[k] == history[k]);
        }
        assert(longer[history.len() as int] == fb);
    }
    if allowed_by_all(history, w) && allows(fb, w) {
        assert forall|k: int| 0 <= k < longer.len() implies allows(#[trigger] longer[k], w) by {
            if k < history.len() {
                assert(longer[k] == history[k]);
            }
        }
    }
}

/// Recording one more feedback narrows the possible words: those possible
/// afterwards are those possible before that the new feedback allows, in
/// the same order, so each of them was possible before.
pub proof fn lemma_possible_narrows(
    vocab: Seq<Seq<char>>,
    history: Seq<Seq<GuessedCharacter>>,
    fb: Seq<GuessedCharacter>,
)
    ensures
        possible_words(vocab, history.push(fb)) == possible_words(vocab, history).filter(
            allowed_by(fb),
        ),
        possible_words(vocab, history.push(fb)).len() <= possible_words(vocab, history).len(),
        forall|w: Seq<char>|
            possible_words(vocab, history.push(fb)).contains(w) ==> possible_words(
                vocab,
                history,
            ).contains(w),
{
    let before = possible_words(vocab, history);
    let after = possible_words(vocab, history.push(fb));
    assert forall|w: Seq<char>| #[trigger]
        consistent_with(history.push(fb))(w) == (consistent_with(history)(w) && allowed_by(fb)(
            w,
        )) by {
        lemma_allowed_by_push(history, fb, w);
    }
    lemma_filter_twice(
        vocab,
        consistent_with(history),
        allowed_by(fb),
        consistent_with(history.push(fb)),
    );
    before.lemma_filter_len(allowed_by(fb));
    assert forall|w: Seq<char>| after.contains(w) implies before.contains(w) by {
        before.lemma_filter_contains_rev(allowed_by(fb), w);
    }
}

/// A word guessed against itself earns a feedback that allows that word
/// and no other of the same length.
pub proof fn lemma_own_feedback_allows_only_target(t: Seq<char>, w: Seq<char>)
    requires
        w.len() == t.len(),
    ensures
        allows(derive_feedback(t, t), w) <==> w == t,
{
    lemma_allows_iff_same_feedback(t, t, w);
    lemma_derive_prefix(t, t, t.len());
    lemma_derive_prefix(t, w, t.len());
    if derive_feedback(t, w) == derive_feedback(t, t) {
        assert forall|i: int| 0 <= i < t.len() implies w[i] == t[i] by {
            assert(derive_prefix(t, t, t.len())[i] == status_at(
                t,
                t,
                derive_prefix(t, t, i as nat),
                i,
            ));
            assert(derive_prefix(t, w, t.len())[i] == status_at(
                t,
                w,
                derive_prefix(t, w, i as nat),
                i,
            ));
        }
        assert(w =~= t);
    }
}

/// Once the feedback of a word against itself is recorded, that word alone
/// is possible, if the vocabulary holds it once and it was possible before.
pub proof fn lemma_solved_by_target(
    vocab: Seq<Seq<char>>,
    history: Seq<Seq<GuessedCharacter>>,
    j: int,
)
    requires
        0 <= j < vocab.len(),
        forall|i: int| 0 <= i < vocab.len() ==> (#[trigger] vocab[i]).len() == vocab[j].len(),
        forall|i: int| 0 <= i < vocab.len() && i != j ==> #[trigger] vocab[i] != vocab[j],
        allowed_by_all(history, vocab[j]),
    ensures
        possible_words(vocab, history.push(derive_feedback(vocab[j], vocab[j]))) == seq![vocab[j]],
{
    let t = vocab[j];
    let fb = derive_feedback(t, t);
    let test = consistent_with(history.push(fb));
    assert forall|i: int| 0 <= i < vocab.len() implies (test(#[trigger] vocab[i]) <==> i == j) by {
        lemma_allowed_by_push(history, fb, vocab[i]);
        lemma_own_feedback_allows_only_target(t, vocab[i]);
    }
    lemma_filter_single(vocab, test, j);
}

} // verus!
