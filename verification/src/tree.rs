//! The executable syntax tree: immutable once built, with subtrees shared
//! between the trees that hold them, and free to be read from many threads
//! at once.
use crate::model::{
    lemma_row_text_prefix_len, lemma_row_text_take, lemma_trivia_text_prefix_len,
    lemma_trivia_text_take, row_text, trivia_text, TokenModel, Tree, TriviaModel,
};
use std::sync::Arc;
use vstd::prelude::*;

verus! {

/// What a piece of trivia is made of.
#[derive(Clone, Copy, Debug, PartialEq, Eq, Structural)]
pub enum TriviaKind {
    /// A line break.
    Newline,
    /// Blanks and tabs.
    Whitespace,
    /// A comment that holds no line break.
    SingleLineComment,
    /// A comment that holds at least one line break.
    MultiLineComment,
    /// Source text that the parser passed over.
    Skipped,
}

/// One piece of trivia with its text.
#[derive(Debug)]
pub struct Trivia {
    pub kind: TriviaKind,
    pub text: Vec<u8>,
}

/// A terminal of the tree with the trivia attached to it.
#[derive(Debug)]
pub struct Token {
    pub kind: u16,
    pub leading: Vec<Trivia>,
    pub text: Vec<u8>,
    pub trailing: Vec<Trivia>,
}

/// An inner element of the tree: a kind tag and a row of slots.
#[derive(Debug)]
pub struct Node {
    pub kind: u16,
    pub slots: Vec<Element>,
}

/// What a slot holds. Tokens and nodes sit behind shared pointers, so that
/// a rebuilt tree shares every subtree that an edit did not touch.
#[derive(Debug)]
pub enum Element {
    /// A slot that holds nothing: an optional child that is absent, or the
    /// place of an element that was taken out.
    Empty,
    Token(Arc<Token>),
    Node(Arc<Node>),
}

impl View for Trivia {
    type V = TriviaModel;

    open spec fn view(&self) -> TriviaModel {
        TriviaModel { kind: self.kind, text: self.text@ }
    }
}

/// The models of a run of trivia pieces.
pub open spec fn trivia_views(pieces: Seq<Trivia>) -> Seq<TriviaModel> {
    Seq::new(pieces.len(), |i: int| pieces[i]@)
}

impl View for Token {
    type V = TokenModel;

    open spec fn view(&self) -> TokenModel {
        TokenModel {
            kind: self.kind,
            leading: trivia_views(self.leading@),
            text: self.text@,
            trailing: trivia_views(self.trailing@),
        }
    }
}

/// The models of a row of slots.
pub open spec fn slot_views(slots: Seq<Element>) -> Seq<Tree>
    decreases slots,
{
    Seq::new(
        slots.len(),
        |i: int|
            if 0 <= i < slots.len() {
                slots[i].view()
            } else {
                Tree::Empty
            },
    )
}

impl View for Element {
    type V = Tree;

    open spec fn view(&self) -> Tree
        decreases self,
    {
        match self {
            Element::Empty => Tree::Empty,
            Element::Token(t) => Tree::Token(t@),
            Element::Node(n) => Tree::Node { kind: n.kind, slots: slot_views(n.slots@) },
        }
    }
}

/// `Arc::clone` from std: a second pointer to the same allocation, so the
/// value behind the result is the value behind the argument.
#[verifier::external_body]
fn share_arc<T>(arc: &Arc<T>) -> (r: Arc<T>)
    ensures
        r == *arc,
{
    Arc::clone(arc)
}

/// Appends `src` to `out`.
pub fn push_bytes(out: &mut Vec<u8>, src: &Vec<u8>)
    ensures
        final(out)@ == old(out)@ + src@,
{
    let mut i: usize = 0;
    while i < src.len()
        invariant
            i <= src.len(),
            out@ == old(out)@ + src@.subrange(0, i as int),
        decreases src.len() - i,
    {
        out.push(src[i]);
        i += 1;
        assert(src@.subrange(0, i as int) =~= src@.subrange(0, i as int - 1).push(src@[i as int - 1]));
    }
    assert(src@.subrange(0, src.len() as int) =~= src@);
}

/// Appends the text of a run of trivia pieces to `out`.
pub fn push_trivia(out: &mut Vec<u8>, pieces: &Vec<Trivia>)
    ensures
        final(out)@ == old(out)@ + trivia_text(trivia_views(pieces@)),
{
    let ghost models = trivia_views(pieces@);
    let mut i: usize = 0;
    while i < pieces.len()
        invariant
            i <= pieces.len(),
            models == trivia_views(pieces@),
            out@ == old(out)@ + trivia_text(models.subrange(0, i as int)),
        decreases pieces.len() - i,
    {
        proof {
            lemma_trivia_text_take(models, i as int);
        }
        push_bytes(out, &pieces[i].text);
        i += 1;
    }
    assert(models.subrange(0, pieces.len() as int) =~= models);
}

/// The length of the text of a run of trivia pieces, where a `usize` holds it.
pub fn trivia_len(pieces: &Vec<Trivia>) -> (r: Option<usize>)
    ensures
        r == fit(trivia_text(trivia_views(pieces@)).len()),
{
    let ghost models = trivia_views(pieces@);
    let mut total: usize = 0;
    let mut i: usize = 0;
    while i < pieces.len()
        invariant
            i <= pieces.len(),
            models == trivia_views(pieces@),
            total == trivia_text(models.subrange(0, i as int)).len(),
        decreases pieces.len() - i,
    {
        proof {
            lemma_trivia_text_take(models, i as int);
            lemma_trivia_text_prefix_len(models, i as int + 1);
        }
        let n = pieces[i].text.len();
        if n > usize::MAX - total {
            return None;
        }
        total = total + n;
        i += 1;
    }
    assert(models.subrange(0, pieces.len() as int) =~= models);
    Some(total)
}

/// `Some(n)` where `n` is a length that a `usize` holds, `None` where it is not.
pub open spec fn fit(n: nat) -> Option<usize> {
    if n <= usize::MAX {
        Some(n as usize)
    } else {
        None
    }
}

/// The sum of two lengths, where a `usize` holds it.
pub fn add_len(a: Option<usize>, b: Option<usize>) -> (r: Option<usize>)
    ensures
        r == match (a, b) {
            (Some(x), Some(y)) => fit((x + y) as nat),
            _ => None,
        },
{
    match (a, b) {
        (Some(x), Some(y)) => if y > usize::MAX - x {
            None
        } else {
            Some(x + y)
        },
        _ => None,
    }
}

impl Token {
    /// The length of the token with its trivia, where a `usize` holds it.
    pub fn checked_len(&self) -> (r: Option<usize>)
        ensures
            r == fit(self@.full_text().len()),
    {
        let lead = trivia_len(&self.leading);
        let trail = trivia_len(&self.trailing);
        add_len(add_len(lead, Some(self.text.len())), trail)
    }

    /// Appends the token as it stands in the source to `out`.
    pub fn write_text(&self, out: &mut Vec<u8>)
        ensures
            final(out)@ == old(out)@ + self@.full_text(),
    {
        push_trivia(out, &self.leading);
        push_bytes(out, &self.text);
        push_trivia(out, &self.trailing);
    }
}

impl Element {
    /// The rows of a tree in memory are short enough for a `usize` to index
    /// them.
    pub proof fn lemma_view_indexable(&self)
        ensures
            self@.indexable(),
        decreases self,
    {
        match self {
            Element::Node(n) => {
                let slots = slot_views(n.slots@);
                assert(slots.len() == n.slots.len());
                assert forall|i: int| 0 <= i < slots.len() implies (#[trigger] slots[i]).indexable() by {
                    broadcast use vstd::std_specs::vec::axiom_vec_index_decreases;

                    n.slots@[i].lemma_view_indexable();
                    assert(slots[i] == n.slots@[i]@);
                }
            },
            _ => {},
        }
    }

    /// Another handle on the same element: the pointers are copied, the
    /// subtree is not.
    pub fn share(&self) -> (r: Element)
        ensures
            r == *self,
    {
        match self {
            Element::Empty => Element::Empty,
            Element::Token(t) => Element::Token(share_arc(t)),
            Element::Node(n) => Element::Node(share_arc(n)),
        }
    }

    /// The kind tag of the element; `None` for an empty slot.
    pub fn kind(&self) -> (k: Option<u16>)
        ensures
            k == self@.kind(),
    {
        match self {
            Element::Empty => None,
            Element::Token(t) => Some(t.kind),
            Element::Node(n) => Some(n.kind),
        }
    }

    /// Appends the text of the element to `out`.
    pub fn write_text(&self, out: &mut Vec<u8>)
        ensures
            final(out)@ == old(out)@ + self@.text(),
        decreases self,
    {
        match self {
            Element::Empty => {},
            Element::Token(t) => {
                t.write_text(out);
            },
            Element::Node(n) => {
                let ghost slots = slot_views(n.slots@);
                let mut i: usize = 0;
                while i < n.slots.len()
                    invariant
                        i <= n.slots.len(),
                        decreases_to!(self => n.slots),
                        slots == slot_views(n.slots@),
                        out@ == old(out)@ + row_text(slots.subrange(0, i as int)),
                    decreases n.slots.len() - i,
                {
                    proof {
                        lemma_row_text_take(slots, i as int);
                        broadcast use vstd::std_specs::vec::axiom_vec_index_decreases;
                    }
                    n.slots[i].write_text(out);
                    i += 1;
                }
                assert(slots.subrange(0, n.slots.len() as int) =~= slots);
            },
        }
    }

    /// The length of the element's text, where a `usize` holds it.
    pub fn checked_len(&self) -> (r: Option<usize>)
        ensures
            r == fit(self@.text().len()),
        decreases self,
    {
        match self {
            Element::Empty => Some(0),
            Element::Token(t) => t.checked_len(),
            Element::Node(n) => {
                let ghost slots = slot_views(n.slots@);
                let mut total: usize = 0;
                let mut i: usize = 0;
                while i < n.slots.len()
                    invariant
                        i <= n.slots.len(),
                        decreases_to!(self => n.slots),
                        slots == slot_views(n.slots@),
                        self@.text() == row_text(slots),
                        total == row_text(slots.subrange(0, i as int)).len(),
                    decreases n.slots.len() - i,
                {
                    proof {
                        lemma_row_text_take(slots, i as int);
                        lemma_row_text_prefix_len(slots, i as int + 1);
                        broadcast use vstd::std_specs::vec::axiom_vec_index_decreases;

                    }
                    match add_len(Some(total), n.slots[i].checked_len()) {
                        Some(t) => {
                            total = t;
                        },
                        None => {
                            return None;
                        },
                    }
                    i += 1;
                }
                assert(slots.subrange(0, n.slots.len() as int) =~= slots);
                Some(total)
            },
        }
    }

    /// The element that `path` leads to, if the path stays inside the tree.
    /// An empty slot on the way ends the path; one at its end is handed out
    /// as `Element::Empty`.
    pub fn get<'a>(&'a self, path: &Vec<usize>) -> (r: Option<&'a Element>)
        ensures
            match r {
                Some(e) => self@.resolve(path@) == Some(e@),
                None => self@.resolve(path@).is_none(),
            },
    {
        let mut cur: &Element = self;
        let mut i: usize = 0;
        assert(path@.subrange(0, path.len() as int) =~= path@);
        while i < path.len()
            invariant
                i <= path.len(),
                self@.resolve(path@) == cur@.resolve(path@.subrange(i as int, path.len() as int)),
            decreases path.len() - i,
        {
            let ghost rest = path@.subrange(i as int, path.len() as int);
            assert(rest.drop_first() =~= path@.subrange(i as int + 1, path.len() as int));
            assert(rest[0] == path@[i as int]);
            match cur {
                Element::Node(n) => {
                    assert(cur@ == Tree::Node { kind: n.kind, slots: slot_views(n.slots@) });
                    assert(slot_views(n.slots@).len() == n.slots.len());
                    if path[i] < n.slots.len() {
                        assert(slot_views(n.slots@)[path@[i as int] as int] == n.slots@[path@[i as int] as int]@);
                        cur = &n.slots[path[i]];
                    } else {
                        return None;
                    }
                },
                _ => {
                    return None;
                },
            }
            i += 1;
        }
        Some(cur)
    }

    /// The tree with the element at `path` exchanged for `new`. Only the
    /// nodes on the path are built anew; every other subtree is shared with
    /// `self`. Where the path leaves the tree, the result is `self`.
    pub fn replaced(&self, path: &Vec<usize>, new: Element) -> (r: Element)
        ensures
            r@ == self@.set_at(path@, new@),
    {
        assert(path@.subrange(0, path.len() as int) =~= path@);
        self.replaced_from(path, 0, new)
    }

    fn replaced_from(&self, path: &Vec<usize>, depth: usize, new: Element) -> (r: Element)
        requires
            depth <= path.len(),
        ensures
            r@ == self@.set_at(path@.subrange(depth as int, path.len() as int), new@),
        decreases path.len() - depth,
    {
        if depth == path.len() {
            return new;
        }
        let ghost rest = path@.subrange(depth as int, path.len() as int);
        assert(rest.drop_first() =~= path@.subrange(depth as int + 1, path.len() as int));
        assert(rest[0] == path@[depth as int]);
        match self {
            Element::Node(n) => {
                let k = path[depth];
                assert(self@ == Tree::Node { kind: n.kind, slots: slot_views(n.slots@) });
                assert(slot_views(n.slots@).len() == n.slots.len());
                if k < n.slots.len() {
                    let ghost old_slots = slot_views(n.slots@);
                    assert(old_slots[k as int] == n.slots@[k as int]@);
                    let mut slots: Vec<Element> = Vec::new();
                    let mut i: usize = 0;
                    while i < k
                        invariant
                            i <= k < n.slots.len(),
                            slots.len() == i,
                            forall|j: int| 0 <= j < i ==> slots@[j] == n.slots@[j],
                        decreases k - i,
                    {
                        slots.push(n.slots[i].share());
                        i += 1;
                    }
                    let child = n.slots[k].replaced_from(path, depth + 1, new);
                    slots.push(child);
                    i = k + 1;
                    while i < n.slots.len()
                        invariant
                            k < i <= n.slots.len(),
                            slots.len() == i,
                            forall|j: int| 0 <= j < i && j != k ==> slots@[j] == n.slots@[j],
                            slots@[k as int] == child,
                        decreases n.slots.len() - i,
                    {
                        slots.push(n.slots[i].share());
                        i += 1;
                    }
                    assert(slot_views(slots@) =~= old_slots.update(k as int, child@));
                    Element::Node(Arc::new(Node { kind: n.kind, slots }))
                } else {
                    self.share()
                }
            },
            _ => self.share(),
        }
    }

    /// The source text that the element stands for.
    pub fn text(&self) -> (r: Vec<u8>)
        ensures
            r@ == self@.text(),
    {
        let mut out: Vec<u8> = Vec::new();
        self.write_text(&mut out);
        out
    }
}

} // verus!
