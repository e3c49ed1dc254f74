//! Which worker gets the next client.
use vstd::prelude::*;

verus! {

/// `i` is the first of the smallest numbers.
pub open spec fn is_least(counts: Seq<u64>, i: int) -> bool {
    &&& 0 <= i < counts.len()
    &&& forall|j: int| 0 <= j < counts.len() ==> counts[i] <= #[trigger] counts[j]
    &&& forall|j: int| 0 <= j < i ==> counts[i] < #[trigger] counts[j]
}

/// The worker with the fewest clients, the first of them where there are several, if there is any.
pub fn least_loaded(counts: &Vec<u64>) -> (worker: Option<usize>)
    ensures
        match worker {
            Some(i) => {
                &&& is_least(counts@, i as int)
                &&& i < counts@.len()
                &&& forall|j: int| 0 <= j < counts@.len() ==> counts@[i as int] <= #[trigger] counts@[j]
                &&& forall|j: int| 0 <= j < i ==> counts@[i as int] < #[trigger] counts@[j]
            },
            None => counts@.len() == 0,
        },
{
    let n: usize = counts.len();
    if n == 0 {
        return None;
    }
    let mut least: usize = 0;
    let mut i: usize = 1;
    while i < n
        invariant
            n == counts@.len(),
            least < i <= n,
            forall|j: int| 0 <= j < i ==> counts@[least as int] <= #[trigger] counts@[j],
            forall|j: int| 0 <= j < least ==> counts@[least as int] < #[trigger] counts@[j],
        decreases n - i,
    {
        if counts[i] < counts[least] {
            least = i;
        }
        i += 1;
    }
    Some(least)
}

} // verus!
