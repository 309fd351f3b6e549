//! Which of several candidates fits best.
use vstd::prelude::*;

verus! {

/// The best of the first `n` scores, and the number of the first candidate that has it.
pub open spec fn best(scores: Seq<Option<u8>>, n: int) -> Option<(usize, u8)>
    decreases n,
{
    if n <= 0 {
        None
    } else {
        let b = best(scores, n - 1);
        match scores[n - 1] {
            Some(score) => if b is None || score > b->Some_0.1 {
                Some(((n - 1) as usize, score))
            } else {
                b
            },
            None => b,
        }
    }
}

/// The best score of all.
pub open spec fn winner(scores: Seq<Option<u8>>) -> Option<(usize, u8)> {
    best(scores, scores.len() as int)
}

/// The candidate that fits best wins, and among equals the first one. None does only if
/// none fits.
pub proof fn law_best_fit_wins(scores: Seq<Option<u8>>, n: int)
    requires
        0 <= n <= scores.len() <= usize::MAX,
    ensures
        match best(scores, n) {
            Some((i, score)) => {
                &&& i < n
                &&& scores[i as int] == Some(score)
                &&& forall|j: int|
                    0 <= j < n && (#[trigger] scores[j]) is Some ==> scores[j]->0 <= score
                &&& forall|j: int|
                    0 <= j < i && (#[trigger] scores[j]) is Some ==> scores[j]->0 < score
            },
            None => forall|j: int| 0 <= j < n ==> (#[trigger] scores[j]) is None,
        },
    decreases n,
{
    if n > 0 {
        law_best_fit_wins(scores, n - 1);
    }
}

} // verus!
