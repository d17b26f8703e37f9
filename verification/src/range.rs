//! Where an element stands in the text of its tree.
use crate::model::{
    lemma_row_text_prefix_len, lemma_row_text_take, row_text, slot_texts, trivia_text, Path, Tree,
};
use crate::tree::{add_len, fit, slot_views, trivia_len, Element};
use vstd::prelude::*;

verus! {

/// A stretch of text: the bytes from `start` up to, not including, `end`.
#[derive(Clone, Copy, Debug, PartialEq, Eq, Structural)]
pub struct TextRange {
    pub start: usize,
    pub end: usize,
}

/// The stretch of `tree.text()` that the element at `path` takes up; `None`
/// where the path leaves the tree or the stretch ends past what a `usize` holds.
pub open spec fn range_in(tree: Tree, path: Path) -> Option<TextRange> {
    match tree.resolve(path) {
        Some(e) => if tree.offset_of(path) + e.text().len() <= usize::MAX {
            Some(
                TextRange {
                    start: tree.offset_of(path) as usize,
                    end: (tree.offset_of(path) + e.text().len()) as usize,
                },
            )
        } else {
            None
        },
        None => None,
    }
}

/// The stretch of the element at `path` without the trivia before its first
/// token and behind its last one. An element without a token has the empty
/// stretch at its start.
pub open spec fn trimmed_range_in(tree: Tree, path: Path) -> Option<TextRange> {
    match range_in(tree, path) {
        Some(r) => {
            let e = tree.resolve(path).unwrap();
            let start = r.start + e.leading_trivia_len();
            let end = r.end - e.trailing_trivia_len();
            Some(
                TextRange {
                    start: start as usize,
                    end: (if end < start {
                        start
                    } else {
                        end
                    }) as usize,
                },
            )
        },
        None => None,
    }
}

/// The length of the text of the first `upto` slots of a row, where a
/// `usize` holds it.
pub(crate) fn prefix_len(slots: &Vec<Element>, upto: usize) -> (r: Option<usize>)
    requires
        upto <= slots.len(),
    ensures
        r == fit(row_text(slot_views(slots@).subrange(0, upto as int)).len()),
{
    let ghost row = slot_views(slots@).subrange(0, upto as int);
    let mut total: usize = 0;
    let mut i: usize = 0;
    while i < upto
        invariant
            i <= upto <= slots.len(),
            row == slot_views(slots@).subrange(0, upto as int),
            total == row_text(row.subrange(0, i as int)).len(),
        decreases upto - i,
    {
        proof {
            lemma_row_text_take(row, i as int);
            lemma_row_text_prefix_len(row, i as int + 1);
            assert(row[i as int] == slots@[i as int]@);
        }
        match add_len(Some(total), slots[i].checked_len()) {
            Some(t) => {
                total = t;
            },
            None => {
                return None;
            },
        }
        i += 1;
    }
    assert(row.subrange(0, upto as int) =~= row);
    Some(total)
}

impl Element {
    /// The stretch of this tree's text that the element at `path` takes up.
    pub fn range_of(&self, path: &Vec<usize>) -> (r: Option<TextRange>)
        ensures
            r == range_in(self@, path@),
    {
        let mut cur: &Element = self;
        let mut start: usize = 0;
        let mut i: usize = 0;
        assert(path@.subrange(0, path.len() as int) =~= path@);
        while i < path.len()
            invariant
                i <= path.len(),
                self@.resolve(path@) == cur@.resolve(path@.subrange(i as int, path.len() as int)),
                self@.offset_of(path@) == start + cur@.offset_of(
                    path@.subrange(i as int, path.len() as int),
                ),
            decreases path.len() - i,
        {
            let ghost rest = path@.subrange(i as int, path.len() as int);
            assert(rest.drop_first() =~= path@.subrange(i as int + 1, path.len() as int));
            assert(rest[0] == path@[i as int]);
            match cur {
                Element::Node(n) => {
                    assert(cur@ == Tree::Node { kind: n.kind, slots: slot_views(n.slots@) });
                    assert(slot_views(n.slots@).len() == n.slots.len());
                    let k = path[i];
                    if k < n.slots.len() {
                        assert(slot_views(n.slots@)[k as int] == n.slots@[k as int]@);
                        match add_len(Some(start), prefix_len(&n.slots, k)) {
                            Some(s) => {
                                start = s;
                                cur = &n.slots[k];
                            },
                            None => {
                                proof {
                                    if self@.resolve(path@).is_some() {
                                        n.slots@[k as int]@.lemma_text_of_resolved(rest.drop_first());
                                    }
                                }
                                return None;
                            },
                        }
                    } else {
                        return None;
                    }
                },
                _ => {
                    return None;
                },
            }
            i += 1;
        }
        match add_len(Some(start), cur.checked_len()) {
            Some(end) => Some(TextRange { start, end }),
            None => None,
        }
    }

    /// The stretch of the element at `path` without the trivia before its
    /// first token and behind its last one.
    pub fn trimmed_range_of(&self, path: &Vec<usize>) -> (r: Option<TextRange>)
        ensures
            r == trimmed_range_in(self@, path@),
    {
        let whole = match self.range_of(path) {
            Some(r) => r,
            None => {
                return None;
            },
        };
        let e = match self.get(path) {
            Some(e) => e,
            None => {
                return None;
            },
        };
        proof {
            self@.lemma_text_of_resolved(path@);
        }
        let mut lead: usize = 0;
        match e.first_token() {
            Some(p) => {
                proof {
                    e@.lemma_first_token_resolves();
                    e@.lemma_text_of_resolved(p@);
                }
                match e.get(&p) {
                    Some(Element::Token(t)) => {
                        match trivia_len(&t.leading) {
                            Some(n) => {
                                lead = n;
                            },
                            None => {},
                        }
                    },
                    _ => {},
                }
            },
            None => {},
        }
        let mut trail: usize = 0;
        match e.last_token() {
            Some(p) => {
                proof {
                    e@.lemma_last_token_resolves();
                    e@.lemma_text_of_resolved(p@);
                }
                match e.get(&p) {
                    Some(Element::Token(t)) => {
                        match trivia_len(&t.trailing) {
                            Some(n) => {
                                trail = n;
                            },
                            None => {},
                        }
                    },
                    _ => {},
                }
            },
            None => {},
        }
        assert(lead == e@.leading_trivia_len());
        assert(trail == e@.trailing_trivia_len());
        let start = whole.start + lead;
        let end = whole.end - trail;
        Some(
            TextRange {
                start,
                end: if end < start {
                    start
                } else {
                    end
                },
            },
        )
    }
}

impl Tree {
    /// The element in slot `slot` of the node at `path` begins where the
    /// node begins, past the text of the slots before it.
    pub proof fn lemma_offset_push(self, path: Path, slot: usize)
        requires
            self.resolve(path) matches Some(Tree::Node { slots, .. }) && slot < slots.len(),
        ensures
            self.offset_of(path.push(slot)) == self.offset_of(path) + row_text(
                self.resolve(path).unwrap()->slots.subrange(0, slot as int),
            ).len(),
        decreases path.len(),
    {
        if path.len() == 0 {
            let rest = path.push(slot).drop_first();
            assert(rest =~= Seq::<usize>::empty());
            assert(path.push(slot)[0] == slot);
            assert(self->slots[slot as int].offset_of(rest) == 0);
        } else {
            match self {
                Tree::Node { slots, .. } => {
                    assert(path.push(slot).drop_first() =~= path.drop_first().push(slot));
                    slots[path[0] as int].lemma_offset_push(path.drop_first(), slot);
                },
                _ => {},
            }
        }
    }

    /// The slots of a node tile the node: the first begins where the node
    /// begins, each begins where the one before it ends, and the last ends
    /// where the node ends. So the stretches of the slots are in order, do
    /// not overlap, and together are the stretch of the node.
    pub proof fn lemma_slots_tile_node(self, path: Path, slot: usize)
        requires
            self.resolve(path) matches Some(Tree::Node { slots, .. }) && slot < slots.len(),
        ensures
            ({
                let node = self.resolve(path).unwrap();
                let slots = node->slots;
                let begin = self.offset_of(path.push(slot));
                let end = begin + slots[slot as int].text().len();
                &&& slot == 0 ==> begin == self.offset_of(path)
                &&& slot + 1 < slots.len() && slot < usize::MAX ==> self.offset_of(
                    path.push((slot + 1) as usize),
                ) == end
                &&& slot + 1 == slots.len() ==> end == self.offset_of(path) + node.text().len()
            }),
    {
        let slots = self.resolve(path).unwrap()->slots;
        self.lemma_offset_push(path, slot);
        lemma_row_text_take(slots, slot as int);
        if slot == 0 {
            assert(slots.subrange(0, 0) =~= Seq::<Tree>::empty());
            assert(slot_texts(Seq::<Tree>::empty()) =~= Seq::<Seq<u8>>::empty());
        }
        if slot + 1 < slots.len() && slot < usize::MAX {
            self.lemma_offset_push(path, (slot + 1) as usize);
        }
        if slot + 1 == slots.len() {
            assert(slots.subrange(0, slot + 1) =~= slots);
        }
    }
}

} // verus!
