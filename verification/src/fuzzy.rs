//! Fuzzy matching of a query against a label.

use vstd::prelude::*;

verus! {

/// The score of the best match of `query` in `target`, as the `sublime_fuzzy`
/// crate finds it with its default scoring and without regard to case; `None`
/// where the whole query cannot be matched.
pub uninterp spec fn fuzzy_score(query: Seq<char>, target: Seq<char>) -> Option<isize>;

/// Calls `sublime_fuzzy::best_match` and reads the score of the match it returns.
///
/// Trusted: the result is a function of the characters of the two strings alone,
/// named `fuzzy_score`. Nothing else is claimed about it.
#[verifier::external_body]
pub(crate) fn best_match_score(query: &str, target: &str) -> (score: Option<isize>)
    ensures
        score == fuzzy_score(query@, target@),
{
    match sublime_fuzzy::best_match(query, target) {
        Some(found) => Some(found.score()),
        None => None,
    }
}

/// Whether a score keeps its entry in the filtered list: there is a match, and
/// its score is above zero.
pub open spec fn is_hit(score: Option<isize>) -> bool {
    match score {
        Some(s) => s > 0,
        None => false,
    }
}

/// Whether a score keeps its entry in the filtered list.
pub fn score_hits(score: Option<isize>) -> (hit: bool)
    ensures
        hit == is_hit(score),
{
    match score {
        Some(s) => s > 0,
        None => false,
    }
}

/// The positions of the scores that keep their entry, in rising order.
pub open spec fn kept(scores: Seq<Option<isize>>) -> Seq<usize>
    decreases scores.len(),
{
    if scores.len() == 0 {
        Seq::empty()
    } else if is_hit(scores.last()) {
        kept(scores.drop_last()).push((scores.len() - 1) as usize)
    } else {
        kept(scores.drop_last())
    }
}

/// `kept` lists exactly the positions of the hits, each once, in rising order.
pub proof fn lemma_kept(scores: Seq<Option<isize>>)
    requires
        scores.len() <= usize::MAX,
    ensures
        kept(scores).len() <= scores.len(),
        forall|k: int|
            0 <= k < kept(scores).len() ==> (#[trigger] kept(scores)[k] as int) < scores.len(),
        forall|k: int|
            0 <= k < kept(scores).len() ==> is_hit(scores[#[trigger] kept(scores)[k] as int]),
        forall|j: int, k: int|
            0 <= j < k < kept(scores).len() ==> kept(scores)[j] < kept(scores)[k],
        forall|i: int|
            0 <= i < scores.len() && is_hit(#[trigger] scores[i]) ==> kept(scores).contains(
                i as usize,
            ),
    decreases scores.len(),
{
    if scores.len() > 0 {
        let front = scores.drop_last();
        lemma_kept(front);
        let last = (scores.len() - 1) as usize;
        assert forall|i: int| 0 <= i < scores.len() && is_hit(#[trigger] scores[i]) implies kept(
            scores,
        ).contains(i as usize) by {
            if i < front.len() {
                assert(is_hit(front[i]));
                let k = choose|k: int| 0 <= k < kept(front).len() && kept(front)[k] == i as usize;
                assert(kept(scores)[k] == i as usize);
            } else {
                assert(kept(scores)[kept(scores).len() - 1] == last);
            }
        }
        assert forall|k: int| 0 <= k < kept(scores).len() implies is_hit(
            scores[#[trigger] kept(scores)[k] as int],
        ) by {
            if k < kept(front).len() {
                assert(kept(scores)[k] == kept(front)[k]);
                assert(scores[kept(front)[k] as int] == front[kept(front)[k] as int]);
            }
        }
    }
}

/// The positions of the scores that keep their entry, in rising order.
pub fn hits(scores: &Vec<Option<isize>>) -> (out: Vec<usize>)
    ensures
        out@ == kept(scores@),
{
    let mut out: Vec<usize> = Vec::new();
    let mut i: usize = 0;
    while i < scores.len()
        invariant
            i <= scores.len(),
            out@ == kept(scores@.take(i as int)),
        decreases scores.len() - i,
    {
        proof {
            assert(scores@.take(i + 1).drop_last() =~= scores@.take(i as int));
        }
        if score_hits(scores[i]) {
            out.push(i);
        }
        i += 1;
    }
    proof {
        assert(scores@.take(scores.len() as int) =~= scores@);
    }
    out
}

} // verus!
