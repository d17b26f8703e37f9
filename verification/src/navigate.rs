//! Finding one's way in a tree: first and last token, the sibling before an
//! element, and the tree without the blank trivia at its end.
use crate::model::{
    first_token_in, is_blank, last_token_in, prev_node_slot, trim_end, Tree, TriviaModel,
};
use crate::tree::{slot_views, trivia_views, Element, Token, Trivia, TriviaKind};
use std::sync::Arc;
use vstd::prelude::*;

verus! {

/// A copy of a byte string.
pub fn copy_bytes(src: &Vec<u8>) -> (r: Vec<u8>)
    ensures
        r@ == src@,
{
    let mut out: Vec<u8> = Vec::new();
    let mut i: usize = 0;
    while i < src.len()
        invariant
            i <= src.len(),
            out@ == src@.subrange(0, i as int),
        decreases src.len() - i,
    {
        out.push(src[i]);
        i += 1;
        assert(src@.subrange(0, i as int) =~= src@.subrange(0, i as int - 1).push(src@[i as int - 1]));
    }
    assert(src@.subrange(0, src.len() as int) =~= src@);
    out
}

/// A copy of the first `upto` steps of a path.
pub(crate) fn copy_path(src: &Vec<usize>, upto: usize) -> (r: Vec<usize>)
    requires
        upto <= src.len(),
    ensures
        r@ == src@.subrange(0, upto as int),
{
    let mut out: Vec<usize> = Vec::new();
    let mut i: usize = 0;
    while i < upto
        invariant
            i <= upto <= src.len(),
            out@ == src@.subrange(0, i as int),
        decreases upto - i,
    {
        out.push(src[i]);
        i += 1;
        assert(src@.subrange(0, i as int) =~= src@.subrange(0, i as int - 1).push(src@[i as int - 1]));
    }
    out
}

impl TriviaKind {
    /// Whether a piece of this kind is whitespace or a line break.
    pub fn is_blank(self) -> (b: bool)
        ensures
            b == is_blank(self),
    {
        match self {
            TriviaKind::Whitespace => true,
            TriviaKind::Newline => true,
            _ => false,
        }
    }
}

impl Trivia {
    /// A copy of the piece.
    pub fn duplicate(&self) -> (r: Trivia)
        ensures
            r@ == self@,
    {
        Trivia { kind: self.kind, text: copy_bytes(&self.text) }
    }
}

/// A copy of the first `upto` pieces of a run of trivia.
pub(crate) fn copy_trivia(pieces: &Vec<Trivia>, upto: usize) -> (r: Vec<Trivia>)
    requires
        upto <= pieces.len(),
    ensures
        trivia_views(r@) == trivia_views(pieces@).subrange(0, upto as int),
{
    let mut out: Vec<Trivia> = Vec::new();
    let mut i: usize = 0;
    while i < upto
        invariant
            i <= upto <= pieces.len(),
            out.len() == i,
            forall|j: int| 0 <= j < i ==> out@[j]@ == pieces@[j]@,
        decreases upto - i,
    {
        out.push(pieces[i].duplicate());
        i += 1;
    }
    assert(trivia_views(out@) =~= trivia_views(pieces@).subrange(0, upto as int));
    out
}

/// What `trim_end` keeps is a leading part of the run, and `kept` pieces of
/// it are kept where piece `kept - 1` is not blank.
proof fn lemma_trim_end_stops(pieces: Seq<TriviaModel>, kept: int)
    requires
        0 <= kept <= pieces.len(),
        kept > 0 ==> !is_blank(pieces[kept - 1].kind),
        forall|j: int| kept <= j < pieces.len() ==> is_blank(pieces[j].kind),
    ensures
        trim_end(pieces) == pieces.subrange(0, kept),
    decreases pieces.len(),
{
    if pieces.len() == kept {
        assert(pieces.subrange(0, kept) =~= pieces);
    } else {
        lemma_trim_end_stops(pieces.drop_last(), kept);
        assert(pieces.drop_last().subrange(0, kept) =~= pieces.subrange(0, kept));
    }
}

impl Token {
    /// The token without the blank pieces at the end of its trailing
    /// trivia. Comments stay, and so does what stands before them.
    pub fn trim_trailing_trivia(&self) -> (r: Token)
        ensures
            r@ == self@.trim_trailing(),
    {
        let mut kept: usize = self.trailing.len();
        while kept > 0 && self.trailing[kept - 1].kind.is_blank()
            invariant
                kept <= self.trailing.len(),
                forall|j: int|
                    kept <= j < self.trailing.len() ==> is_blank(
                        (#[trigger] trivia_views(self.trailing@)[j]).kind,
                    ),
            decreases kept,
        {
            kept -= 1;
        }
        proof {
            lemma_trim_end_stops(trivia_views(self.trailing@), kept as int);
        }
        let leading = copy_trivia(&self.leading, self.leading.len());
        assert(trivia_views(self.leading@).subrange(0, self.leading.len() as int) =~= trivia_views(
            self.leading@,
        ));
        Token {
            kind: self.kind,
            leading,
            text: copy_bytes(&self.text),
            trailing: copy_trivia(&self.trailing, kept),
        }
    }
}

impl Element {
    /// The path to the first token of the element, in source order.
    pub fn first_token(&self) -> (r: Option<Vec<usize>>)
        ensures
            match r {
                Some(p) => self@.first_token() == Some(p@),
                None => self@.first_token().is_none(),
            },
        decreases self,
    {
        match self {
            Element::Empty => None,
            Element::Token(_) => Some(Vec::new()),
            Element::Node(n) => {
                let ghost slots = slot_views(n.slots@);
                let mut i: usize = 0;
                while i < n.slots.len()
                    invariant
                        i <= n.slots.len(),
                        decreases_to!(self => n.slots),
                        slots == slot_views(n.slots@),
                        self@.first_token() == first_token_in(slots, i as nat),
                    decreases n.slots.len() - i,
                {
                    proof {
                        broadcast use vstd::std_specs::vec::axiom_vec_index_decreases;

                        assert(slots[i as int] == n.slots@[i as int]@);
                    }
                    match n.slots[i].first_token() {
                        Some(mut p) => {
                            let ghost tail = p@;
                            p.insert(0, i);
                            assert(p@ =~= seq![i] + tail);
                            return Some(p);
                        },
                        None => {},
                    }
                    i += 1;
                }
                None
            },
        }
    }

    /// The path to the last token of the element, in source order.
    pub fn last_token(&self) -> (r: Option<Vec<usize>>)
        ensures
            match r {
                Some(p) => self@.last_token() == Some(p@),
                None => self@.last_token().is_none(),
            },
        decreases self,
    {
        match self {
            Element::Empty => None,
            Element::Token(_) => Some(Vec::new()),
            Element::Node(n) => {
                let ghost slots = slot_views(n.slots@);
                let mut i: usize = n.slots.len();
                while i > 0
                    invariant
                        i <= n.slots.len(),
                        decreases_to!(self => n.slots),
                        slots == slot_views(n.slots@),
                        self@.last_token() == last_token_in(slots, i as nat),
                    decreases i,
                {
                    proof {
                        broadcast use vstd::std_specs::vec::axiom_vec_index_decreases;

                        assert(slots[i as int - 1] == n.slots@[i as int - 1]@);
                    }
                    match n.slots[i - 1].last_token() {
                        Some(mut p) => {
                            let ghost tail = p@;
                            p.insert(0, i - 1);
                            assert(p@ =~= seq![(i - 1) as usize] + tail);
                            return Some(p);
                        },
                        None => {},
                    }
                    i -= 1;
                }
                None
            },
        }
    }

    /// A copy of the trivia before the first token of the element.
    pub fn leading_trivia(&self) -> (r: Vec<Trivia>)
        ensures
            trivia_views(r@) == self@.leading_trivia(),
    {
        match self.first_token() {
            Some(p) => match self.get(&p) {
                Some(Element::Token(t)) => {
                    let r = copy_trivia(&t.leading, t.leading.len());
                    assert(trivia_views(t.leading@).subrange(0, t.leading.len() as int)
                        =~= trivia_views(t.leading@));
                    r
                },
                _ => {
                    let r: Vec<Trivia> = Vec::new();
                    assert(trivia_views(r@) =~= Seq::<TriviaModel>::empty());
                    r
                },
            },
            None => {
                let r: Vec<Trivia> = Vec::new();
                assert(trivia_views(r@) =~= Seq::<TriviaModel>::empty());
                r
            },
        }
    }

    /// A copy of the trivia behind the last token of the element.
    pub fn trailing_trivia(&self) -> (r: Vec<Trivia>)
        ensures
            trivia_views(r@) == self@.trailing_trivia(),
    {
        match self.last_token() {
            Some(p) => match self.get(&p) {
                Some(Element::Token(t)) => {
                    let r = copy_trivia(&t.trailing, t.trailing.len());
                    assert(trivia_views(t.trailing@).subrange(0, t.trailing.len() as int)
                        =~= trivia_views(t.trailing@));
                    r
                },
                _ => {
                    let r: Vec<Trivia> = Vec::new();
                    assert(trivia_views(r@) =~= Seq::<TriviaModel>::empty());
                    r
                },
            },
            None => {
                let r: Vec<Trivia> = Vec::new();
                assert(trivia_views(r@) =~= Seq::<TriviaModel>::empty());
                r
            },
        }
    }

    /// The element with `pieces` as the trivia before its first token.
    pub fn with_leading_trivia(&self, pieces: Vec<Trivia>) -> (r: Element)
        ensures
            r@ == self@.with_leading_trivia(trivia_views(pieces@)),
    {
        match self.first_token() {
            Some(p) => match self.get(&p) {
                Some(Element::Token(t)) => {
                    let trailing = copy_trivia(&t.trailing, t.trailing.len());
                    assert(trivia_views(t.trailing@).subrange(0, t.trailing.len() as int)
                        =~= trivia_views(t.trailing@));
                    let token = Token {
                        kind: t.kind,
                        leading: pieces,
                        text: copy_bytes(&t.text),
                        trailing,
                    };
                    self.replaced(&p, Element::Token(Arc::new(token)))
                },
                _ => self.share(),
            },
            None => self.share(),
        }
    }

    /// The element with `pieces` as the trivia behind its last token.
    pub fn with_trailing_trivia(&self, pieces: Vec<Trivia>) -> (r: Element)
        ensures
            r@ == self@.with_trailing_trivia(trivia_views(pieces@)),
    {
        match self.last_token() {
            Some(p) => match self.get(&p) {
                Some(Element::Token(t)) => {
                    let leading = copy_trivia(&t.leading, t.leading.len());
                    assert(trivia_views(t.leading@).subrange(0, t.leading.len() as int)
                        =~= trivia_views(t.leading@));
                    let token = Token {
                        kind: t.kind,
                        leading,
                        text: copy_bytes(&t.text),
                        trailing: pieces,
                    };
                    self.replaced(&p, Element::Token(Arc::new(token)))
                },
                _ => self.share(),
            },
            None => self.share(),
        }
    }

    /// The element dressed in the outer trivia of `other`: its own outer
    /// trivia is dropped, and that of `other` takes its place.
    pub fn with_outer_trivia_of(&self, other: &Element) -> (r: Element)
        ensures
            r@ == self@.with_outer_trivia_of(other@),
    {
        self.with_leading_trivia(other.leading_trivia()).with_trailing_trivia(
            other.trailing_trivia(),
        )
    }

    /// The element without the blank trivia at the end of its last token;
    /// `None` for an element that holds no token.
    pub fn trim_trailing_trivia(&self) -> (r: Option<Element>)
        ensures
            match r {
                Some(e) => self@.trim_trailing_trivia() == Some(e@),
                None => self@.trim_trailing_trivia().is_none(),
            },
    {
        match self.last_token() {
            Some(p) => {
                proof {
                    self@.lemma_last_token_resolves();
                }
                match self.get(&p) {
                    Some(Element::Token(t)) => {
                        let trimmed = Element::Token(Arc::new(t.trim_trailing_trivia()));
                        Some(self.replaced(&p, trimmed))
                    },
                    _ => None,
                }
            },
            None => None,
        }
    }

    /// The path to the nearest node that stands before the element at
    /// `path` under the same parent. Tokens and empty slots are passed over.
    pub fn prev_sibling(&self, path: &Vec<usize>) -> (r: Option<Vec<usize>>)
        ensures
            match r {
                Some(p) => self@.prev_sibling(path@) == Some(p@),
                None => self@.prev_sibling(path@).is_none(),
            },
    {
        if path.len() == 0 {
            return None;
        }
        let mut parent = copy_path(path, path.len() - 1);
        assert(parent@ =~= path@.drop_last());
        let last = path[path.len() - 1];
        match self.get(&parent) {
            Some(Element::Node(n)) => {
                let ghost slots = slot_views(n.slots@);
                if last > n.slots.len() {
                    return None;
                }
                let mut j: usize = last;
                while j > 0
                    invariant
                        j <= last <= n.slots.len(),
                        slots == slot_views(n.slots@),
                        path.len() > 0,
                        last == path@.last(),
                        parent@ == path@.drop_last(),
                        self@.resolve(path@.drop_last()) == Some(
                            Tree::Node { kind: n.kind, slots },
                        ),
                        prev_node_slot(slots, last as nat) == prev_node_slot(slots, j as nat),
                    decreases j,
                {
                    assert(slots[j as int - 1] == n.slots@[j as int - 1]@);
                    match &n.slots[j - 1] {
                        Element::Node(_) => {
                            parent.push(j - 1);
                            return Some(parent);
                        },
                        _ => {},
                    }
                    j -= 1;
                }
                None
            },
            _ => None,
        }
    }
}

} // verus!
