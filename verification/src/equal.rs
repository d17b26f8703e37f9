//! Deep structural comparison of trees.
use crate::model::Tree;
use crate::tree::{slot_views, trivia_views, Element, Token, Trivia};
use vstd::prelude::*;

verus! {

/// Whether two byte strings hold the same bytes.
pub fn same_bytes(a: &Vec<u8>, b: &Vec<u8>) -> (r: bool)
    ensures
        r == (a@ == b@),
{
    if a.len() != b.len() {
        return false;
    }
    let mut i: usize = 0;
    while i < a.len()
        invariant
            i <= a.len(),
            a.len() == b.len(),
            a@.subrange(0, i as int) == b@.subrange(0, i as int),
        decreases a.len() - i,
    {
        if a[i] != b[i] {
            return false;
        }
        i += 1;
        assert(a@.subrange(0, i as int) =~= a@.subrange(0, i as int - 1).push(a@[i as int - 1]));
        assert(b@.subrange(0, i as int) =~= b@.subrange(0, i as int - 1).push(b@[i as int - 1]));
    }
    assert(a@.subrange(0, a.len() as int) =~= a@);
    assert(b@.subrange(0, b.len() as int) =~= b@);
    true
}

impl Trivia {
    /// Whether two pieces are of one kind and hold the same text.
    pub fn same_as(&self, other: &Trivia) -> (r: bool)
        ensures
            r == (self@ == other@),
    {
        self.kind == other.kind && same_bytes(&self.text, &other.text)
    }
}

/// Whether two runs of trivia hold the same pieces in the same order.
pub fn same_trivia(a: &Vec<Trivia>, b: &Vec<Trivia>) -> (r: bool)
    ensures
        r == (trivia_views(a@) == trivia_views(b@)),
{
    if a.len() != b.len() {
        assert(trivia_views(a@).len() != trivia_views(b@).len());
        return false;
    }
    let mut i: usize = 0;
    while i < a.len()
        invariant
            i <= a.len(),
            a.len() == b.len(),
            forall|j: int| 0 <= j < i ==> a@[j]@ == b@[j]@,
        decreases a.len() - i,
    {
        if !a[i].same_as(&b[i]) {
            assert(trivia_views(a@)[i as int] != trivia_views(b@)[i as int]);
            return false;
        }
        i += 1;
    }
    assert(trivia_views(a@) =~= trivia_views(b@));
    true
}

impl Token {
    /// Whether two tokens agree in kind, text and trivia.
    pub fn same_as(&self, other: &Token) -> (r: bool)
        ensures
            r == (self@ == other@),
    {
        self.kind == other.kind && same_bytes(&self.text, &other.text) && same_trivia(
            &self.leading,
            &other.leading,
        ) && same_trivia(&self.trailing, &other.trailing)
    }
}

impl Element {
    /// Whether two elements are the same tree: the same kinds, the same
    /// slots, the same tokens with the same trivia, all the way down.
    pub fn same_as(&self, other: &Element) -> (r: bool)
        ensures
            r == (self@ == other@),
        decreases self,
    {
        match (self, other) {
            (Element::Empty, Element::Empty) => true,
            (Element::Token(a), Element::Token(b)) => a.same_as(b),
            (Element::Node(a), Element::Node(b)) => {
                assert(self@ == Tree::Node { kind: a.kind, slots: slot_views(a.slots@) });
                assert(other@ == Tree::Node { kind: b.kind, slots: slot_views(b.slots@) });
                if a.kind != b.kind {
                    return false;
                }
                if a.slots.len() != b.slots.len() {
                    assert(slot_views(a.slots@).len() != slot_views(b.slots@).len());
                    return false;
                }
                let mut i: usize = 0;
                while i < a.slots.len()
                    invariant
                        i <= a.slots.len(),
                        a.slots.len() == b.slots.len(),
                        decreases_to!(self => a.slots),
                        self@ == (Tree::Node { kind: a.kind, slots: slot_views(a.slots@) }),
                        other@ == (Tree::Node { kind: b.kind, slots: slot_views(b.slots@) }),
                        a.kind == b.kind,
                        forall|j: int| 0 <= j < i ==> a.slots@[j]@ == b.slots@[j]@,
                    decreases a.slots.len() - i,
                {
                    proof {
                        broadcast use vstd::std_specs::vec::axiom_vec_index_decreases;

                    }
                    if !a.slots[i].same_as(&b.slots[i]) {
                        assert(slot_views(a.slots@)[i as int] != slot_views(b.slots@)[i as int]);
                        return false;
                    }
                    i += 1;
                }
                assert(slot_views(a.slots@) =~= slot_views(b.slots@));
                true
            },
            _ => false,
        }
    }
}

} // verus!
