//! Persistent (immutable) collections: a singly-linked stack and an
//! unbalanced binary search tree usable as a set or a map. Every operation
//! that looks like a change returns a new version and shares the unchanged
//! parts with the version it came from.
use vstd::prelude::*;

pub mod set;
pub mod stack;

verus! {

/// `b` holds, position by position, clones of the items of `a`.
pub open spec fn clones<T: Clone>(a: Seq<T>, b: Seq<T>) -> bool {
    &&& a.len() == b.len()
    &&& forall|i: int| 0 <= i < a.len() ==> #[trigger] cloned(a[i], b[i])
}

/// Cloning a value of `T` gives back that same value (true of integers,
/// `bool` and `char`: see `lemma_exact_clone_primitives`).
pub open spec fn exact_clone<T: Clone>() -> bool {
    forall|a: T, b: T| #[trigger] cloned(a, b) ==> a == b
}

/// Cloning an integer, a `bool` or a `char` is exact.
pub proof fn lemma_exact_clone_primitives()
    ensures
        exact_clone::<u8>(),
        exact_clone::<u16>(),
        exact_clone::<u32>(),
        exact_clone::<u64>(),
        exact_clone::<usize>(),
        exact_clone::<i8>(),
        exact_clone::<i16>(),
        exact_clone::<i32>(),
        exact_clone::<i64>(),
        exact_clone::<isize>(),
        exact_clone::<bool>(),
        exact_clone::<char>(),
{
}

/// Under an exact clone, clones of a sequence are the sequence itself.
pub proof fn lemma_clones_exact<T: Clone>(a: Seq<T>, b: Seq<T>)
    requires
        exact_clone::<T>(),
        clones(a, b),
    ensures
        a == b,
{
    assert forall|i: int| 0 <= i < a.len() implies a[i] == b[i] by {
        assert(cloned(a[i], b[i]));
    }
    assert(a =~= b);
}

} // verus!
