//! Searching a sequence for a shorter one.
use vstd::prelude::*;

verus! {

/// `target` stands in `s` at position `i`.
pub open spec fn occurs_at<T>(s: Seq<T>, target: Seq<T>, i: int) -> bool {
    &&& 0 <= i
    &&& i + target.len() <= s.len()
    &&& s.subrange(i, i + target.len()) == target
}

/// `i` is the first position at which `target` stands in `s`.
pub open spec fn first_at<T>(s: Seq<T>, target: Seq<T>, i: int) -> bool {
    &&& occurs_at(s, target, i)
    &&& forall|j: int| 0 <= j < i ==> !#[trigger] occurs_at(s, target, j)
}

/// The first position at which `target` stands in `s`, if it stands there at all.
pub open spec fn index_of<T>(s: Seq<T>, target: Seq<T>) -> Option<int> {
    if exists|i: int| first_at(s, target, i) {
        Some(choose|i: int| first_at(s, target, i))
    } else {
        None
    }
}

/// A first position is unique, so it is the one `index_of` gives.
pub proof fn lemma_index_is<T>(s: Seq<T>, target: Seq<T>, i: int)
    requires
        first_at(s, target, i),
    ensures
        index_of(s, target) == Some(i),
{
    let k = choose|k: int| first_at(s, target, k);
    assert(first_at(s, target, k));
    if k < i {
        assert(!occurs_at(s, target, k));
    } else if i < k {
        assert(!occurs_at(s, target, i));
    }
}

/// Wherever `target` occurs, there is a first occurrence no later than that.
pub proof fn lemma_occurs_index<T>(s: Seq<T>, target: Seq<T>, i: int)
    requires
        occurs_at(s, target, i),
    ensures
        index_of(s, target) matches Some(k) && first_at(s, target, k) && k <= i,
    decreases i,
{
    if exists|j: int| 0 <= j < i && #[trigger] occurs_at(s, target, j) {
        let j = choose|j: int| 0 <= j < i && #[trigger] occurs_at(s, target, j);
        lemma_occurs_index(s, target, j);
    } else {
        assert(first_at(s, target, i));
        lemma_index_is(s, target, i);
    }
}

/// What `index_of` says, in both directions.
pub proof fn lemma_index_of<T>(s: Seq<T>, target: Seq<T>)
    ensures
        match index_of(s, target) {
            Some(i) => first_at(s, target, i),
            None => forall|i: int| !#[trigger] occurs_at(s, target, i),
        },
{
    if index_of(s, target) is None {
        assert forall|i: int| !#[trigger] occurs_at(s, target, i) by {
            if occurs_at(s, target, i) {
                lemma_occurs_index(s, target, i);
            }
        }
    }
}

/// The first occurrence in a prefix is the first occurrence in the whole.
pub proof fn lemma_index_prefix<T>(s: Seq<T>, more: Seq<T>, target: Seq<T>)
    requires
        target.len() > 0,
        index_of(s, target) is Some,
    ensures
        index_of(s + more, target) == index_of(s, target),
{
    lemma_index_of(s, target);
    let i = index_of(s, target)->0;
    let whole = s + more;
    assert(whole.subrange(i, i + target.len()) =~= s.subrange(i, i + target.len()));
    assert forall|j: int| 0 <= j < i implies !#[trigger] occurs_at(whole, target, j) by {
        if occurs_at(whole, target, j) {
            assert(whole.subrange(j, j + target.len()) =~= s.subrange(j, j + target.len()));
            assert(occurs_at(s, target, j));
        }
    }
    lemma_index_is(whole, target, i);
}

/// Position of the first occurrence of `target` in `slice`.
pub fn find_in_u8_slice(slice: &[u8], target: &[u8]) -> (found: Option<usize>)
    requires
        target@.len() > 0,
    ensures
        match found {
            Some(i) => {
                &&& index_of(slice@, target@) == Some(i as int)
                &&& first_at(slice@, target@, i as int)
                &&& i + target@.len() <= slice@.len()
                &&& slice@.subrange(i as int, i + target@.len()) == target@
                &&& forall|j: int| 0 <= j < i ==> #[trigger] slice@.subrange(j, j + target@.len()) != target@
            },
            None => {
                &&& index_of(slice@, target@) is None
                &&& forall|j: int|
                    0 <= j && j + target@.len() <= slice@.len() ==> #[trigger] slice@.subrange(
                        j,
                        j + target@.len(),
                    ) != target@
            },
        },
{
    let n: usize = slice.len();
    let m: usize = target.len();
    let mut i: usize = 0;
    while i < n && m <= n - i
        invariant
            n == slice@.len(),
            m == target@.len(),
            m > 0,
            i <= n,
            forall|j: int| 0 <= j < i ==> !#[trigger] occurs_at(slice@, target@, j),
        decreases n - i,
    {
        let mut k: usize = 0;
        while k < m && slice[i + k] == target[k]
            invariant
                n == slice@.len(),
                m == target@.len(),
                i < n,
                m <= n - i,
                k <= m,
                forall|j: int| 0 <= j < k ==> slice@[i + j] == #[trigger] target@[j],
            decreases m - k,
        {
            k += 1;
        }
        if k == m {
            assert(slice@.subrange(i as int, i + m) =~= target@);
            assert forall|j: int| 0 <= j < i implies #[trigger] slice@.subrange(j, j + m) != target@ by {
                assert(!occurs_at(slice@, target@, j));
            }
            proof {
                lemma_index_is(slice@, target@, i as int);
            }
            return Some(i);
        }
        assert(!occurs_at(slice@, target@, i as int)) by {
            if occurs_at(slice@, target@, i as int) {
                assert(slice@.subrange(i as int, i + m)[k as int] == slice@[i + k]);
            }
        }
        i += 1;
    }
    assert forall|j: int| !#[trigger] occurs_at(slice@, target@, j) by {}
    assert forall|j: int| 0 <= j && j + m <= slice@.len() implies #[trigger] slice@.subrange(j, j + m) != target@ by {
        assert(!occurs_at(slice@, target@, j));
    }
    assert(index_of(slice@, target@) is None) by {
        lemma_index_of(slice@, target@);
    }
    None
}

} // verus!
