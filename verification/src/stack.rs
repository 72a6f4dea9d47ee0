//! The stack of colors that are active at the current position of a line.

use crate::color::Color;
use vstd::prelude::*;

verus! {

/// `stack` without the last of its entries that equal `color`; `stack` itself
/// where none does.
pub open spec fn remove_last(stack: Seq<Color>, color: Color) -> Seq<Color>
    decreases stack.len(),
{
    if stack.len() == 0 {
        stack
    } else if stack.last() == color {
        stack.drop_last()
    } else {
        remove_last(stack.drop_last(), color).push(stack.last())
    }
}

/// The color that text is shown in under `stack`: its last entry, if any.
pub open spec fn top_of(stack: Seq<Color>) -> Option<Color> {
    if stack.len() == 0 {
        None
    } else {
        Some(stack.last())
    }
}

/// Where `color` last occurs at index `i`, removing its last occurrence
/// removes the entry at `i`.
pub proof fn lemma_remove_last_found(stack: Seq<Color>, color: Color, i: int)
    requires
        0 <= i < stack.len(),
        stack[i] == color,
        forall|j: int| i < j < stack.len() ==> stack[j] != color,
    ensures
        remove_last(stack, color) == stack.remove(i),
    decreases stack.len(),
{
    if stack.last() == color {
        assert(stack.remove(i) =~= stack.drop_last());
    } else {
        lemma_remove_last_found(stack.drop_last(), color, i);
        assert(stack.remove(i) =~= stack.drop_last().remove(i).push(stack.last()));
    }
}

/// Where `color` does not occur, removing its last occurrence changes nothing.
pub proof fn lemma_remove_last_absent(stack: Seq<Color>, color: Color)
    requires
        forall|j: int| 0 <= j < stack.len() ==> stack[j] != color,
    ensures
        remove_last(stack, color) == stack,
    decreases stack.len(),
{
    if stack.len() > 0 {
        lemma_remove_last_absent(stack.drop_last(), color);
        assert(stack.drop_last().push(stack.last()) =~= stack);
    }
}

/// The active colors in the order in which they were pushed. The last one is
/// the color that text is shown in.
pub struct Stack {
    items: Vec<Color>,
}

impl View for Stack {
    type V = Seq<Color>;

    closed spec fn view(&self) -> Seq<Color> {
        self.items@
    }
}

impl Stack {
    /// An empty stack.
    pub fn new() -> (stack: Self)
        ensures
            stack@ == Seq::<Color>::empty(),
    {
        Stack { items: Vec::new() }
    }

    /// Appends `color`, which becomes the visible color. The same color may
    /// be on the stack several times.
    pub fn push(&mut self, color: Color)
        ensures
            final(self)@ == old(self)@.push(color),
    {
        self.items.push(color);
    }

    /// Removes the last pushed entry that equals `color`, wherever it stands,
    /// and keeps the others in their order. Without such an entry the stack
    /// stays as it is.
    pub fn pop(&mut self, color: Color)
        ensures
            final(self)@ == remove_last(old(self)@, color),
    {
        let mut i: usize = self.items.len();
        while i > 0
            invariant
                i <= self.items.len(),
                self@ == old(self)@,
                forall|j: int| i <= j < self@.len() ==> self@[j] != color,
            decreases i,
        {
            i -= 1;
            if self.items[i] == color {
                self.items.remove(i);
                proof {
                    lemma_remove_last_found(old(self)@, color, i as int);
                }
                return ;
            }
        }
        proof {
            lemma_remove_last_absent(old(self)@, color);
        }
    }

    /// The visible color: the last pushed one that is still active.
    pub fn top(&self) -> (color: Option<Color>)
        ensures
            color == top_of(self@),
    {
        let n = self.items.len();
        if n == 0 {
            None
        } else {
            Some(self.items[n - 1])
        }
    }

    /// The colors from the first pushed to the last.
    pub fn items(&self) -> (items: &Vec<Color>)
        ensures
            items@ == self@,
    {
        &self.items
    }
}

} // verus!
