//! The query as a lazy sequence: each match is looked for when it is asked
//! for, and a caller that stops asking stops the search.
use crate::batch::{Handle, HandleModel};
use crate::model::Tree;
use crate::navigate::copy_path;
use crate::query::{found_in, handle_views, Pattern};
use crate::tree::{slot_views, Element};
use vstd::prelude::*;

verus! {

/// The number of elements of a tree, empty slots included.
pub open spec fn weight(tree: Tree) -> nat
    decreases tree, 0nat,
{
    match tree {
        Tree::Node { slots, .. } => 1 + row_weight(slots, 0),
        _ => 1,
    }
}

/// The number of elements in the slots of a row from slot `from` on.
pub open spec fn row_weight(slots: Seq<Tree>, from: nat) -> nat
    decreases slots, slots.len() - from,
{
    if from >= slots.len() {
        0
    } else {
        weight(slots[from as int]) + row_weight(slots, from + 1)
    }
}

/// The matches that a stack of subtrees still has to give: those of the
/// subtree on top first.
pub open spec fn pending_matches(stack: Seq<HandleModel>, pattern: Pattern) -> Seq<HandleModel>
    decreases stack.len(),
{
    if stack.len() == 0 {
        Seq::empty()
    } else {
        stack.last().element.found(pattern, stack.last().path) + pending_matches(
            stack.drop_last(),
            pattern,
        )
    }
}

/// The number of elements that a stack of subtrees holds.
pub open spec fn pending_weight(stack: Seq<HandleModel>) -> nat
    decreases stack.len(),
{
    if stack.len() == 0 {
        0
    } else {
        weight(stack.last().element) + pending_weight(stack.drop_last())
    }
}

/// A query under way. Its view is the sequence of the matches that it has
/// not handed out yet.
pub struct Matches {
    pattern: Pattern,
    stack: Vec<Handle>,
}

impl View for Matches {
    type V = Seq<HandleModel>;

    closed spec fn view(&self) -> Seq<HandleModel> {
        pending_matches(handle_views(self.stack@), self.pattern)
    }
}

impl Element {
    /// Starts a query. Nothing is searched until the first match is asked
    /// for; to go through the matches once more, start another query.
    pub fn matches(&self, pattern: Pattern) -> (m: Matches)
        ensures
            m@ == self@.matches(pattern),
    {
        let mut stack: Vec<Handle> = Vec::new();
        stack.push(Handle { path: Vec::new(), element: self.share() });
        let m = Matches { pattern, stack };
        proof {
            let views = handle_views(m.stack@);
            assert(views.last() == HandleModel { path: Seq::<usize>::empty(), element: self@ });
            assert(views.drop_last() =~= Seq::<HandleModel>::empty());
            assert(pending_matches(views.drop_last(), pattern) =~= Seq::<HandleModel>::empty());
            assert(m@ =~= self@.matches(pattern));
        }
        m
    }
}

impl Matches {
    /// The next match in pre-order, and `None` when there is none left.
    pub fn next(&mut self) -> (r: Option<Handle>)
        ensures
            match r {
                Some(h) => old(self)@.len() > 0 && h@ == old(self)@[0] && final(self)@ == old(
                    self,
                )@.drop_first(),
                None => old(self)@.len() == 0 && final(self)@.len() == 0,
            },
    {
        loop
            invariant
                self@ == old(self)@,
                self.pattern == old(self).pattern,
            decreases pending_weight(handle_views(self.stack@)),
        {
            let ghost stack = handle_views(self.stack@);
            let top = match self.stack.pop() {
                Some(h) => h,
                None => {
                    return None;
                },
            };
            let ghost rest = handle_views(self.stack@);
            assert(rest =~= stack.drop_last());
            assert(stack.last() == top@);
            match &top.element {
                Element::Node(n) => {
                    let ghost slots = slot_views(n.slots@);
                    assert(top.element@ == Tree::Node { kind: n.kind, slots });
                    let mut i: usize = n.slots.len();
                    while i > 0
                        invariant
                            i <= n.slots.len(),
                            slots == slot_views(n.slots@),
                            self.pattern == old(self).pattern,
                            pending_matches(handle_views(self.stack@), self.pattern) == found_in(
                                slots,
                                self.pattern,
                                top.path@,
                                i as nat,
                            ) + pending_matches(rest, self.pattern),
                            pending_weight(handle_views(self.stack@)) == row_weight(slots, i as nat)
                                + pending_weight(rest),
                        decreases i,
                    {
                        let ghost below = handle_views(self.stack@);
                        let mut path = copy_path(&top.path, top.path.len());
                        assert(top.path@.subrange(0, top.path.len() as int) =~= top.path@);
                        path.push(i - 1);
                        let child = Handle { path, element: n.slots[i - 1].share() };
                        assert(child@.element == slots[i as int - 1]);
                        self.stack.push(child);
                        proof {
                            let above = handle_views(self.stack@);
                            assert(above.last() == child@);
                            assert(above.drop_last() =~= below);
                            let here = slots[i as int - 1].found(self.pattern, top.path@.push((i - 1) as usize));
                            let behind = found_in(slots, self.pattern, top.path@, i as nat);
                            assert((here + behind) + pending_matches(rest, self.pattern) =~= here + (
                            behind + pending_matches(rest, self.pattern)));
                        }
                        i -= 1;
                    }
                    if self.pattern.matches(n.kind) {
                        proof {
                            let head = seq![top@];
                            let inner = found_in(slots, self.pattern, top.path@, 0);
                            let tail = pending_matches(rest, self.pattern);
                            assert(old(self)@ == (head + inner) + tail);
                            assert(((head + inner) + tail).drop_first() =~= inner + tail);
                        }
                        return Some(top);
                    }
                    assert(Seq::<HandleModel>::empty() + found_in(slots, self.pattern, top.path@, 0)
                        =~= found_in(slots, self.pattern, top.path@, 0));
                },
                _ => {
                    assert(Seq::<HandleModel>::empty() + pending_matches(rest, self.pattern)
                        =~= pending_matches(rest, self.pattern));
                },
            }
        }
    }
}

} // verus!
