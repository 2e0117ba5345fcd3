//! Matching a candidate against a feedback is the inverse of deriving the
//! feedback: a feedback allows exactly the targets that would have produced
//! it.

use crate::count::{count_below, lemma_count_agree, lemma_count_split};
use crate::feedback::{
    allows, available, creditable, derive_feedback, derive_prefix, green_match, holds_letter,
    marks_elsewhere, position_holds, prior_present, required_orange, status_at, GuessedCharacter,
};
use vstd::prelude::*;

verus! {

/// The word whose letters a feedback colours.
pub open spec fn guessed_word(fb: Seq<GuessedCharacter>) -> Seq<char> {
    Seq::new(fb.len(), |i: int| fb[i].letter())
}

/// A position is marked `Correct` exactly where the candidate holds the
/// letter guessed there.
pub open spec fn greens_exact(fb: Seq<GuessedCharacter>, c: Seq<char>) -> bool {
    forall|k: int|
        0 <= k < fb.len() ==> (#[trigger] fb[k] is Correct <==> c[k] == fb[k].letter())
}

/// The feedback derived for the first `n` positions has `n` entries, colours
/// the letters of the guess, and extends the feedback derived for any
/// shorter prefix.
pub proof fn lemma_derive_prefix(g: Seq<char>, t: Seq<char>, n: nat)
    ensures
        derive_prefix(g, t, n).len() == n,
        forall|i: int| 0 <= i < n ==> (#[trigger] derive_prefix(g, t, n)[i]).letter() == g[i],
        forall|i: int|
            0 <= i < n ==> #[trigger] derive_prefix(g, t, n)[i] == status_at(
                g,
                t,
                derive_prefix(g, t, i as nat),
                i,
            ),
        forall|m: int|
            0 <= m <= n ==> #[trigger] derive_prefix(g, t, n).take(m) == derive_prefix(
                g,
                t,
                m as nat,
            ),
    decreases n,
{
    if n > 0 {
        let prev = derive_prefix(g, t, (n - 1) as nat);
        let full = derive_prefix(g, t, n);
        lemma_derive_prefix(g, t, (n - 1) as nat);
        assert forall|m: int| 0 <= m <= n implies #[trigger] full.take(m) == derive_prefix(
            g,
            t,
            m as nat,
        ) by {
            if m < n {
                assert(full.take(m) =~= prev.take(m));
            } else {
                assert(full.take(m) =~= full);
            }
        }
    } else {
        assert(derive_prefix(g, t, 0).take(0) =~= derive_prefix(g, t, 0));
    }
}

/// The feedback for a guess has one entry for each letter of the guess, and
/// colours that letter.
pub proof fn lemma_derive_feedback_word(g: Seq<char>, t: Seq<char>)
    ensures
        derive_feedback(g, t).len() == g.len(),
        guessed_word(derive_feedback(g, t)) == g,
{
    lemma_derive_prefix(g, t, g.len());
    assert(guessed_word(derive_feedback(g, t)) =~= g);
}

/// Where the `Correct` marks are exactly the positions at which the
/// candidate matches the guess, the number of `Elsewhere` marks that a
/// letter requires is the credit that the candidate offers for it.
pub proof fn lemma_required_is_available(fb: Seq<GuessedCharacter>, c: Seq<char>, ch: char)
    requires
        fb.len() == c.len(),
        greens_exact(fb, c),
    ensures
        required_orange(fb, ch, c) == available(guessed_word(fb), c, ch),
{
    let g = guessed_word(fb);
    let n = fb.len() as int;
    let matched = |k: int| g[k] == c[k];
    let holds = holds_letter(c, ch);
    lemma_count_split(holds, matched, n);
    lemma_count_agree(|k: int| holds(k) && matched(k), green_match(fb, ch, c), n);
    lemma_count_agree(|k: int| holds(k) && !matched(k), creditable(g, c, ch), n);
}

/// A feedback allows a candidate exactly if guessing the coloured word
/// against that candidate derives this very feedback.
pub proof fn lemma_allows_iff_derived(fb: Seq<GuessedCharacter>, c: Seq<char>)
    requires
        fb.len() == c.len(),
    ensures
        allows(fb, c) <==> derive_feedback(guessed_word(fb), c) == fb,
{
    let g = guessed_word(fb);
    let n = fb.len();
    lemma_derive_prefix(g, c, n);
    if allows(fb, c) {
        assert forall|k: int| 0 <= k < n implies (#[trigger] fb[k] is Correct <==> c[k]
            == fb[k].letter()) by {
            assert(position_holds(fb, c, k));
        }
        lemma_allowed_prefix(fb, c, n);
        assert(fb.take(n as int) =~= fb);
    }
    if derive_feedback(g, c) == fb {
        assert forall|k: int| 0 <= k < n implies (#[trigger] fb[k] is Correct <==> c[k]
            == fb[k].letter()) by {
            assert(fb[k] == status_at(g, c, derive_prefix(g, c, k as nat), k));
        }
        assert forall|i: int| 0 <= i < n implies #[trigger] position_holds(fb, c, i) by {
            let prev = derive_prefix(g, c, i as nat);
            assert(fb[i] == status_at(g, c, prev, i));
            assert(prev == fb.take(i));
            lemma_required_is_available(fb, c, g[i]);
            lemma_count_agree(marks_elsewhere(prev, g[i]), marks_elsewhere(fb, g[i]), i);
        }
    }
}

/// Deriving the feedback of the coloured word against an allowed candidate
/// reproduces the feedback, prefix by prefix.
proof fn lemma_allowed_prefix(fb: Seq<GuessedCharacter>, c: Seq<char>, m: nat)
    requires
        fb.len() == c.len(),
        m <= fb.len(),
        allows(fb, c),
        greens_exact(fb, c),
    ensures
        derive_prefix(guessed_word(fb), c, m) == fb.take(m as int),
    decreases m,
{
    let g = guessed_word(fb);
    if m > 0 {
        let i = m - 1;
        let prev = derive_prefix(g, c, i as nat);
        lemma_allowed_prefix(fb, c, i as nat);
        assert(position_holds(fb, c, i));
        lemma_required_is_available(fb, c, g[i]);
        lemma_count_agree(marks_elsewhere(prev, g[i]), marks_elsewhere(fb, g[i]), i);
        assert(status_at(g, c, prev, i) == fb[i]);
        assert(derive_prefix(g, c, m) =~= fb.take(m as int));
    } else {
        assert(derive_prefix(g, c, 0) =~= fb.take(0));
    }
}

/// The feedback for a guess against a target allows a candidate exactly if
/// the same guess against the candidate earns the same feedback.
pub proof fn lemma_allows_iff_same_feedback(g: Seq<char>, t: Seq<char>, c: Seq<char>)
    requires
        g.len() == t.len(),
        g.len() == c.len(),
    ensures
        allows(derive_feedback(g, t), c) <==> derive_feedback(g, c) == derive_feedback(g, t),
{
    lemma_derive_feedback_word(g, t);
    lemma_allows_iff_derived(derive_feedback(g, t), c);
}

/// A feedback always allows the target that produced it.
pub proof fn lemma_feedback_allows_target(g: Seq<char>, t: Seq<char>)
    requires
        g.len() == t.len(),
    ensures
        allows(derive_feedback(g, t), t),
{
    lemma_allows_iff_same_feedback(g, t, t);
}

/// A word guessed against itself is `Correct` at every position.
pub proof fn lemma_feedback_of_target(t: Seq<char>)
    ensures
        derive_feedback(t, t).len() == t.len(),
        forall|i: int|
            0 <= i < t.len() ==> #[trigger] derive_feedback(t, t)[i] == GuessedCharacter::Correct(
                t[i],
            ),
{
    lemma_derive_prefix(t, t, t.len());
}

} // verus!
