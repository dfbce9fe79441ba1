use vstd::prelude::*;
use std::sync::Arc;

use crate::clones;
use crate::exact_clone;

verus! {

/// The ways in which a stack operation can fail.
#[derive(Debug, Clone, Copy, PartialEq, Eq, Structural)]
pub enum StackError {
    /// `head` or `tail` of an empty stack.
    NoSuchElementException,
    /// `get` or `update` at an index that is not below the size.
    IndexOutOfRange,
}

/// `r` is `s` with `x` pushed on top; the items of `s` come back as clones
/// (so, where cloning is exact, as themselves).
pub open spec fn consed<T: Clone>(s: Seq<T>, x: T, r: Seq<T>) -> bool {
    &&& r.len() == s.len() + 1
    &&& r[0] == x
    &&& clones(s, r.drop_first())
    &&& exact_clone::<T>() ==> r == seq![x] + s
}

/// `r` is `s` with the item at index `i` replaced by `x`: the items after `i`
/// are the very same, those before it are clones (so, where cloning is exact,
/// `r` is `s` updated at `i`).
pub open spec fn updated<T: Clone>(s: Seq<T>, i: int, x: T, r: Seq<T>) -> bool {
    &&& r.len() == s.len()
    &&& r[i] == x
    &&& r.skip(i + 1) == s.skip(i + 1)
    &&& forall|j: int| 0 <= j < i ==> #[trigger] cloned(s[j], r[j])
    &&& exact_clone::<T>() ==> r == s.update(i, x)
}

/// An immutable stack.
pub trait Stack<T: Clone>: Sized {
    /// The items of the stack, the head first.
    spec fn items(&self) -> Seq<T>;

    /// Returns an empty stack.
    fn empty() -> (r: Self)
        ensures
            r.items() == Seq::<T>::empty(),
    ;

    /// Tests whether a stack is empty.
    fn is_empty(&self) -> (r: bool)
        ensures
            r == (self.items().len() == 0),
    ;

    /// Returns a new stack with `value` as its head and this stack as its tail.
    fn cons(&self, value: T) -> (r: Self)
        ensures
            consed(self.items(), value, r.items()),
    ;

    /// Returns (a clone of) the head item of the stack, or
    /// `NoSuchElementException` if the stack is empty.
    fn head(&self) -> (r: Result<T, StackError>)
        ensures
            self.items().len() == 0 ==> r == Err::<T, StackError>(StackError::NoSuchElementException),
            self.items().len() > 0 ==> (r matches Ok(v) && cloned(self.items()[0], v)),
    ;

    /// Returns the tail of the stack (everything but the head), shared with
    /// this stack, or `NoSuchElementException` if the stack is empty.
    fn tail(&self) -> (r: Result<Arc<Self>, StackError>)
        ensures
            self.items().len() == 0 ==> r == Err::<Arc<Self>, StackError>(StackError::NoSuchElementException),
            self.items().len() > 0 ==> (r matches Ok(t) && (*t).items() == self.items().drop_first()),
    ;

    /// Returns a stack identical to this one except that the item at index `i`
    /// is `value`, or `IndexOutOfRange` if `i` is not below the size.
    fn update(&self, i: u32, value: T) -> (r: Result<Self, StackError>)
        ensures
            i >= self.items().len() ==> r == Err::<Self, StackError>(StackError::IndexOutOfRange),
            i < self.items().len() ==> (r matches Ok(s) && updated(self.items(), i as int, value, s.items())),
    ;

    /// Returns the number of items in the stack.
    fn size(&self) -> (r: u32)
        requires
            self.items().len() <= u32::MAX,
        ensures
            r == self.items().len(),
    ;

    /// Returns (a clone of) the item at index `i`, or `IndexOutOfRange` if
    /// `i` is not below the size.
    fn get(&self, i: u32) -> (r: Result<T, StackError>)
        ensures
            i >= self.items().len() ==> r == Err::<T, StackError>(StackError::IndexOutOfRange),
            i < self.items().len() ==> (r matches Ok(v) && cloned(self.items()[i as int], v)),
    ;
}

/// An immutable stack implemented as a singly-linked list whose tails are
/// shared between versions. `size`, `get` and `update` recurse once per node
/// they pass, so the call stack bounds the length they can reach.
#[derive(Debug, Clone)]
pub enum CustomStack<T> {
    Empty,
    Cons { value: T, tail: Arc<CustomStack<T>> },
}

impl<T> View for CustomStack<T> {
    type V = Seq<T>;

    /// The items of the stack, the head first.
    open spec fn view(&self) -> Seq<T>
        decreases self,
    {
        match self {
            CustomStack::Empty => Seq::empty(),
            CustomStack::Cons { value, tail } => seq![*value] + (**tail)@,
        }
    }
}

impl<T> CustomStack<T> {
    /// One step of the view: an empty stack has no items; a node has its
    /// value followed by the items of its tail.
    pub proof fn lemma_view_step(&self)
        ensures
            *self is Empty ==> self@ == Seq::<T>::empty(),
            *self matches CustomStack::Cons { value, tail } ==> {
                &&& self@ == seq![value] + (*tail)@
                &&& self@.len() == (*tail)@.len() + 1
                &&& self@[0] == value
                &&& self@.drop_first() == (*tail)@
            },
    {
        match *self {
            CustomStack::Empty => {
                assert(self@ =~= Seq::<T>::empty());
            },
            CustomStack::Cons { value, tail } => {
                assert(self@ == seq![value] + (*tail)@);
                assert(self@.drop_first() =~= (*tail)@);
            },
        }
    }
}

impl<T: Clone> CustomStack<T> {
    /// Copies the top node only: the value is cloned, the tail is shared.
    fn copy_top(&self) -> (r: Self)
        ensures
            clones(self@, r@),
    {
        match self {
            CustomStack::Empty => {
                let r = CustomStack::Empty;
                assert(r@ =~= self@);
                assert(clones(self@, r@));
                r
            },
            CustomStack::Cons { value, tail } => {
                let r = CustomStack::Cons { value: value.clone(), tail: tail.clone() };
                assert(r@ == seq![r@[0]] + (**tail)@);
                r
            },
        }
    }
}

impl<T: Clone> Stack<T> for CustomStack<T> {
    open spec fn items(&self) -> Seq<T> {
        self@
    }

    fn empty() -> (r: Self) {
        let r = CustomStack::Empty;
        assert(r@ =~= Seq::<T>::empty());
        r
    }

    fn is_empty(&self) -> (r: bool) {
        proof { self.lemma_view_step(); }
        match self {
            CustomStack::Empty => true,
            CustomStack::Cons { .. } => false,
        }
    }

    fn cons(&self, value: T) -> (r: Self) {
        let top = self.copy_top();
        let ghost top_items = top@;
        let r = CustomStack::Cons { value, tail: Arc::new(top) };
        proof {
            assert(r@.drop_first() =~= top_items);
            if exact_clone::<T>() {
                crate::lemma_clones_exact(self@, top_items);
                assert(r@ =~= seq![r@[0]] + self@);
            }
        }
        r
    }

    fn head(&self) -> (r: Result<T, StackError>) {
        proof { self.lemma_view_step(); }
        match self {
            CustomStack::Empty => Err(StackError::NoSuchElementException),
            CustomStack::Cons { value, .. } => Ok(value.clone()),
        }
    }

    fn tail(&self) -> (r: Result<Arc<Self>, StackError>) {
        proof { self.lemma_view_step(); }
        match self {
            CustomStack::Empty => Err(StackError::NoSuchElementException),
            CustomStack::Cons { tail, .. } => Ok(tail.clone()),
        }
    }

    fn update(&self, i: u32, new_value: T) -> (r: Result<Self, StackError>)
        decreases self,
    {
        proof { self.lemma_view_step(); }
        match self {
            CustomStack::Empty => Err(StackError::IndexOutOfRange),
            CustomStack::Cons { value, tail } => {
                if i == 0 {
                    let r = CustomStack::Cons { value: new_value, tail: tail.clone() };
                    assert(r@.skip(1) =~= self@.skip(1));
                    assert(r@ =~= self@.update(0, r@[0]));
                    Ok(r)
                } else {
                    match (**tail).update(i - 1, new_value) {
                        Err(e) => Err(e),
                        Ok(updated_tail) => {
                            let ghost rest = updated_tail@;
                            let value_copy = value.clone();
                            let r = CustomStack::Cons { value: value_copy, tail: Arc::new(updated_tail) };
                            proof {
                                r.lemma_view_step();
                                assert(r@.skip(i + 1) =~= rest.skip(i as int));
                                assert(self@.skip(i + 1) =~= (**tail)@.skip(i as int));
                                assert forall|j: int| 0 <= j < i implies #[trigger] cloned(self@[j], r@[j]) by {
                                    if j > 0 {
                                        assert(cloned((**tail)@[j - 1], rest[j - 1]));
                                    }
                                }
                                if exact_clone::<T>() {
                                    assert(cloned(*value, value_copy));
                                    assert(r@ =~= self@.update(i as int, new_value));
                                }
                            }
                            Ok(r)
                        },
                    }
                }
            },
        }
    }

    fn size(&self) -> (r: u32)
        decreases self,
    {
        proof { self.lemma_view_step(); }
        match self {
            CustomStack::Empty => 0,
            CustomStack::Cons { tail, .. } => 1 + (**tail).size(),
        }
    }

    fn get(&self, i: u32) -> (r: Result<T, StackError>)
        decreases self,
    {
        proof { self.lemma_view_step(); }
        match self {
            CustomStack::Empty => Err(StackError::IndexOutOfRange),
            CustomStack::Cons { value, tail } => {
                if i == 0 {
                    Ok(value.clone())
                } else {
                    (**tail).get(i - 1)
                }
            },
        }
    }
}

/// Returns the stack of all suffixes of `stack`, longest first: `stack`
/// itself, its tail, and so on down to the empty stack. Every suffix is shared
/// with `stack`, not copied.
pub fn suffixes<T: Clone>(stack: &Arc<CustomStack<T>>) -> (r: CustomStack<Arc<CustomStack<T>>>)
    ensures
        r@.len() == (**stack)@.len() + 1,
        forall|i: int| 0 <= i < r@.len() ==> (*#[trigger] r@[i])@ == (**stack)@.skip(i),
    decreases stack,
{
    proof { (**stack).lemma_view_step(); }
    let tail_suffixes = match &**stack {
        CustomStack::Empty => CustomStack::empty(),
        CustomStack::Cons { tail, .. } => suffixes(tail),
    };
    let ghost rest = tail_suffixes@;
    let r = CustomStack::Cons { value: stack.clone(), tail: Arc::new(tail_suffixes) };
    proof {
        r.lemma_view_step();
        assert forall|i: int| 0 <= i < r@.len() implies (*#[trigger] r@[i])@ == (**stack)@.skip(i) by {
            if i == 0 {
                assert((**stack)@.skip(0) =~= (**stack)@);
            } else {
                assert(rest[i - 1] == r@[i]);
                assert((**stack)@.skip(i) =~= (**stack)@.drop_first().skip(i - 1));
            }
        }
    }
    r
}

/// The items left after taking the tail `n` times (or until nothing is left).
pub open spec fn tail_times<T>(items: Seq<T>, n: nat) -> Seq<T>
    decreases n,
{
    if n == 0 || items.len() == 0 {
        items
    } else {
        tail_times(items.drop_first(), (n - 1) as nat)
    }
}

/// Pushing `x` onto `s` gives a stack `c` whose head is `x` and whose tail
/// holds the items of `s` (clones of them; the very items where cloning is
/// exact).
pub proof fn lemma_cons_then_tail_and_head<T: Clone>(s: CustomStack<T>, x: T, c: CustomStack<T>)
    requires
        consed(s@, x, c@),
    ensures
        c@.len() > 0,
        c@[0] == x,
        clones(s@, c@.drop_first()),
        exact_clone::<T>() ==> c@.drop_first() == s@,
{
}

/// After `n` pushes onto an empty stack, one after another, the size is `n`.
pub proof fn lemma_size_after_conses<T: Clone>(stacks: Seq<CustomStack<T>>, values: Seq<T>)
    requires
        stacks.len() == values.len() + 1,
        stacks[0]@.len() == 0,
        forall|k: int| 0 <= k < values.len() ==> consed(stacks[k]@, values[k], #[trigger] stacks[k + 1]@),
    ensures
        forall|k: int| 0 <= k < stacks.len() ==> (#[trigger] stacks[k])@.len() == k,
{
    assert forall|k: int| 0 <= k < stacks.len() implies (#[trigger] stacks[k])@.len() == k by {
        lemma_size_after_conses_prefix(stacks, values, k);
    }
}

proof fn lemma_size_after_conses_prefix<T: Clone>(stacks: Seq<CustomStack<T>>, values: Seq<T>, k: int)
    requires
        stacks.len() == values.len() + 1,
        stacks[0]@.len() == 0,
        forall|k: int| 0 <= k < values.len() ==> consed(stacks[k]@, values[k], #[trigger] stacks[k + 1]@),
        0 <= k < stacks.len(),
    ensures
        stacks[k]@.len() == k,
    decreases k,
{
    if k > 0 {
        lemma_size_after_conses_prefix(stacks, values, k - 1);
        assert(consed(stacks[k - 1]@, values[k - 1], stacks[k]@));
    }
}

/// Taking the tail `i` times and then the head reads the item at index `i`,
/// which is the item that `get(i)` reads.
pub proof fn lemma_get_is_tails_then_head<T>(s: CustomStack<T>, i: nat)
    requires
        i < s@.len(),
    ensures
        tail_times(s@, i) == s@.skip(i as int),
        tail_times(s@, i).len() > 0,
        tail_times(s@, i)[0] == s@[i as int],
{
    lemma_tail_times_skip(s@, i);
}

proof fn lemma_tail_times_skip<T>(items: Seq<T>, n: nat)
    requires
        n <= items.len(),
    ensures
        tail_times(items, n) == items.skip(n as int),
    decreases n,
{
    if n == 0 {
        assert(items.skip(0) =~= items);
    } else {
        lemma_tail_times_skip(items.drop_first(), (n - 1) as nat);
        assert(items.drop_first().skip(n - 1) =~= items.skip(n as int));
    }
}

/// Updating index `i` of `s` to `v` gives a stack `u` of the same size that
/// reads `v` at `i` and the items of `s` (as clones) everywhere else; where
/// cloning is exact, `u` holds exactly the items of `s` with index `i`
/// replaced. `s` itself is a value and stays as it was.
pub proof fn lemma_update_then_get<T: Clone>(s: CustomStack<T>, i: nat, v: T, u: CustomStack<T>)
    requires
        i < s@.len(),
        updated(s@, i as int, v, u@),
    ensures
        u@.len() == s@.len(),
        u@[i as int] == v,
        forall|j: int| 0 <= j < s@.len() && j != i ==> #[trigger] cloned(s@[j], u@[j]),
        exact_clone::<T>() ==> u@ == s@.update(i as int, v),
{
    assert forall|j: int| 0 <= j < s@.len() && j != i implies #[trigger] cloned(s@[j], u@[j]) by {
        if j > i {
            assert(u@[j] == u@.skip((i + 1) as int)[j - i - 1]);
            assert(s@[j] == s@.skip((i + 1) as int)[j - i - 1]);
        }
    }
}

} // verus!
