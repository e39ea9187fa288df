//! The stack of subtrees that a query still has to visit.

use smallvec::SmallVec;
use vstd::prelude::*;

verus! {

/// A stack of subtrees, each given by its first position and its size.
#[verifier::external_body]
pub struct TodoVec {
    items: SmallVec<[(usize, usize); 16]>,
}

/// What a [`TodoVec`] holds, from the bottom of the stack to its top.
pub uninterp spec fn todo_items(todo: TodoVec) -> Seq<(usize, usize)>;

impl View for TodoVec {
    type V = Seq<(usize, usize)>;

    open spec fn view(&self) -> Seq<(usize, usize)> {
        todo_items(*self)
    }
}

/// Calls `SmallVec::new`, which constructs a vector without items.
#[verifier::external_body]
pub(crate) fn todo_new() -> (todo: TodoVec)
    ensures
        todo_items(todo) == Seq::<(usize, usize)>::empty(),
{
    TodoVec { items: SmallVec::new() }
}

/// Calls `SmallVec::push`, which appends one item. It panics where the capacity it would have to
/// grow to cannot be allocated at all, which is far beyond the length allowed here.
#[verifier::external_body]
pub(crate) fn todo_push(todo: &mut TodoVec, item: (usize, usize))
    requires
        todo_items(*old(todo)).len() < 0x1_0000,
    ensures
        todo_items(*final(todo)) == todo_items(*old(todo)).push(item),
{
    todo.items.push(item);
}

/// Calls `SmallVec::pop`, which takes the last item off, and returns `None` and changes nothing
/// where there is none.
#[verifier::external_body]
pub(crate) fn todo_pop(todo: &mut TodoVec) -> (item: Option<(usize, usize)>)
    ensures
        match item {
            Some(last) => todo_items(*old(todo)) == todo_items(*final(todo)).push(last),
            None => todo_items(*old(todo)).len() == 0 && todo_items(*final(todo)).len() == 0,
        },
{
    todo.items.pop()
}

} // verus!
