//! The mathematical model of a syntax tree: what a tree is, what text it
//! renders to, and how paths address and substitute elements of it.
use crate::tree::TriviaKind;
use vstd::prelude::*;

verus! {

/// One piece of trivia: a run of whitespace, a line break or a comment.
pub ghost struct TriviaModel {
    pub kind: TriviaKind,
    pub text: Seq<u8>,
}

/// A terminal: its own text, with the trivia before and after it.
pub ghost struct TokenModel {
    pub kind: u16,
    pub leading: Seq<TriviaModel>,
    pub text: Seq<u8>,
    pub trailing: Seq<TriviaModel>,
}

/// A syntax tree. A node has a fixed row of slots; a slot that holds nothing
/// is `Empty`, so that the position of every other slot stays the same when
/// an element is taken out.
pub ghost enum Tree {
    Empty,
    Token(TokenModel),
    Node { kind: u16, slots: Seq<Tree> },
}

/// A path names an element by the slot indices that lead to it from the root.
pub type Path = Seq<usize>;

/// The text of a run of trivia pieces, in order.
pub open spec fn trivia_text(pieces: Seq<TriviaModel>) -> Seq<u8> {
    pieces.map_values(|p: TriviaModel| p.text).flatten()
}

impl TokenModel {
    /// The token as it stands in the source: leading trivia, text, trailing trivia.
    pub open spec fn full_text(self) -> Seq<u8> {
        trivia_text(self.leading) + self.text + trivia_text(self.trailing)
    }
}

/// The texts of a row of slots, one per slot.
pub open spec fn slot_texts(slots: Seq<Tree>) -> Seq<Seq<u8>>
    decreases slots, 0int,
{
    Seq::new(
        slots.len(),
        |i: int|
            if 0 <= i < slots.len() {
                slots[i].text()
            } else {
                Seq::empty()
            },
    )
}

/// The text of a row of slots: the texts of the slots, one after the other.
pub open spec fn row_text(slots: Seq<Tree>) -> Seq<u8>
    decreases slots, 1int,
{
    slot_texts(slots).flatten()
}

impl Tree {
    /// The kind tag of a token or node; `None` for an empty slot.
    pub open spec fn kind(self) -> Option<u16> {
        match self {
            Tree::Empty => None,
            Tree::Token(t) => Some(t.kind),
            Tree::Node { kind, .. } => Some(kind),
        }
    }

    /// The source text that the tree stands for: every token with its trivia,
    /// in tree order.
    pub open spec fn text(self) -> Seq<u8>
        decreases self,
    {
        match self {
            Tree::Empty => Seq::empty(),
            Tree::Token(t) => t.full_text(),
            Tree::Node { slots, .. } => row_text(slots),
        }
    }

    /// The element that `path` leads to, if the path stays inside the tree.
    pub open spec fn resolve(self, path: Path) -> Option<Tree>
        decreases path.len(),
    {
        if path.len() == 0 {
            Some(self)
        } else {
            match self {
                Tree::Node { slots, .. } => if path[0] < slots.len() {
                    slots[path[0] as int].resolve(path.drop_first())
                } else {
                    None
                },
                _ => None,
            }
        }
    }

    /// The tree with the element at `path` exchanged for `new`; the tree
    /// itself where the path leaves it.
    pub open spec fn set_at(self, path: Path, new: Tree) -> Tree
        decreases path.len(),
    {
        if path.len() == 0 {
            new
        } else {
            match self {
                Tree::Node { kind, slots } => if path[0] < slots.len() {
                    Tree::Node {
                        kind,
                        slots: slots.update(
                            path[0] as int,
                            slots[path[0] as int].set_at(path.drop_first(), new),
                        ),
                    }
                } else {
                    self
                },
                _ => self,
            }
        }
    }

    /// The offset in `self.text()` at which the element at `path` begins.
    pub open spec fn offset_of(self, path: Path) -> int
        decreases path.len(),
    {
        if path.len() == 0 {
            0
        } else {
            match self {
                Tree::Node { slots, .. } => if path[0] < slots.len() {
                    row_text(slots.subrange(0, path[0] as int)).len() + slots[path[0] as int].offset_of(
                        path.drop_first(),
                    )
                } else {
                    0
                },
                _ => 0,
            }
        }
    }
}

/// The text of the first `i + 1` pieces is the text of the first `i` with
/// piece `i` behind it.
pub proof fn lemma_trivia_text_take(pieces: Seq<TriviaModel>, i: int)
    requires
        0 <= i < pieces.len(),
    ensures
        trivia_text(pieces.subrange(0, i + 1)) == trivia_text(pieces.subrange(0, i)) + pieces[i].text,
{
    let texts = pieces.map_values(|p: TriviaModel| p.text);
    assert(pieces.subrange(0, i + 1).map_values(|p: TriviaModel| p.text) =~= pieces.subrange(
        0,
        i,
    ).map_values(|p: TriviaModel| p.text).push(pieces[i].text));
    pieces.subrange(0, i).map_values(|p: TriviaModel| p.text).lemma_flatten_push(pieces[i].text);
}

/// No part of a run of trivia is longer than the whole.
pub proof fn lemma_trivia_text_prefix_len(pieces: Seq<TriviaModel>, i: int)
    requires
        0 <= i <= pieces.len(),
    ensures
        trivia_text(pieces.subrange(0, i)).len() <= trivia_text(pieces).len(),
{
    let a = pieces.subrange(0, i).map_values(|p: TriviaModel| p.text);
    let b = pieces.subrange(i, pieces.len() as int).map_values(|p: TriviaModel| p.text);
    assert(pieces.map_values(|p: TriviaModel| p.text) =~= a + b);
    vstd::seq_lib::lemma_flatten_concat(a, b);
}

/// No leading part of a row is longer than the whole row.
pub proof fn lemma_row_text_prefix_len(slots: Seq<Tree>, i: int)
    requires
        0 <= i <= slots.len(),
    ensures
        row_text(slots.subrange(0, i)).len() <= row_text(slots).len(),
{
    assert(slots =~= slots.subrange(0, i) + slots.subrange(i, slots.len() as int));
    lemma_row_text_concat(slots.subrange(0, i), slots.subrange(i, slots.len() as int));
}

/// The text of a row is the texts of its two parts, one after the other.
pub proof fn lemma_row_text_concat(a: Seq<Tree>, b: Seq<Tree>)
    ensures
        row_text(a + b) == row_text(a) + row_text(b),
{
    assert(slot_texts(a + b) =~= slot_texts(a) + slot_texts(b));
    vstd::seq_lib::lemma_flatten_concat(slot_texts(a), slot_texts(b));
}

/// The text of a row of one slot is the text of that slot.
pub proof fn lemma_row_text_single(t: Tree)
    ensures
        row_text(seq![t]) == t.text(),
{
    let texts = slot_texts(seq![t]);
    assert(texts =~= seq![t.text()]);
    texts.lemma_flatten_one_element();
    assert(texts.first() == t.text());
}

/// The text of the first `i + 1` slots is the text of the first `i` with
/// that of slot `i` behind it.
pub proof fn lemma_row_text_take(slots: Seq<Tree>, i: int)
    requires
        0 <= i < slots.len(),
    ensures
        row_text(slots.subrange(0, i + 1)) == row_text(slots.subrange(0, i)) + slots[i].text(),
{
    assert(slots.subrange(0, i + 1) =~= slots.subrange(0, i) + seq![slots[i]]);
    lemma_row_text_concat(slots.subrange(0, i), seq![slots[i]]);
    lemma_row_text_single(slots[i]);
}

/// A row's text is the text before slot `k`, the text of slot `k`, and the
/// text after it.
pub proof fn lemma_row_text_split(slots: Seq<Tree>, k: int)
    requires
        0 <= k < slots.len(),
    ensures
        row_text(slots) == row_text(slots.subrange(0, k)) + slots[k].text() + row_text(
            slots.subrange(k + 1, slots.len() as int),
        ),
{
    let a = slots.subrange(0, k);
    let b = slots.subrange(k + 1, slots.len() as int);
    assert(slots =~= (a + seq![slots[k]]) + b);
    lemma_row_text_concat(a + seq![slots[k]], b);
    lemma_row_text_concat(a, seq![slots[k]]);
    lemma_row_text_single(slots[k]);
}

/// Neither path leads through the other.
pub open spec fn apart(p: Path, q: Path) -> bool {
    !p.is_prefix_of(q) && !q.is_prefix_of(p)
}

/// Two non-empty paths are apart exactly when they part at the first step,
/// or share it and are apart behind it.
pub proof fn lemma_apart_step(p: Path, q: Path)
    requires
        apart(p, q),
    ensures
        p.len() > 0,
        q.len() > 0,
        p[0] == q[0] ==> apart(p.drop_first(), q.drop_first()),
{
    if p.len() == 0 {
        assert(p =~= q.subrange(0, 0));
    }
    if q.len() == 0 {
        assert(q =~= p.subrange(0, 0));
    }
    if p[0] == q[0] {
        let p_rest = p.drop_first();
        let q_rest = q.drop_first();
        if p_rest.is_prefix_of(q_rest) {
            assert(p =~= q.subrange(0, p.len() as int)) by {
                assert forall|i: int| 0 <= i < p.len() implies p[i] == q[i] by {
                    if i > 0 {
                        assert(p_rest[i - 1] == q_rest.subrange(0, p_rest.len() as int)[i - 1]);
                    }
                }
            }
        }
        if q_rest.is_prefix_of(p_rest) {
            assert(q =~= p.subrange(0, q.len() as int)) by {
                assert forall|i: int| 0 <= i < q.len() implies q[i] == p[i] by {
                    if i > 0 {
                        assert(q_rest[i - 1] == p_rest.subrange(0, q_rest.len() as int)[i - 1]);
                    }
                }
            }
        }
    }
}

impl Tree {
    /// After an exchange at a path that led somewhere, the path leads to the
    /// new element.
    pub proof fn lemma_resolve_set_same(self, path: Path, new: Tree)
        requires
            self.resolve(path).is_some(),
        ensures
            self.set_at(path, new).resolve(path) == Some(new),
        decreases path.len(),
    {
        if path.len() > 0 {
            match self {
                Tree::Node { slots, .. } => {
                    slots[path[0] as int].lemma_resolve_set_same(path.drop_first(), new);
                },
                _ => {},
            }
        }
    }

    /// An exchange at one path leaves what every path apart from it leads to.
    pub proof fn lemma_resolve_set_apart(self, path: Path, new: Tree, other: Path)
        requires
            apart(path, other),
        ensures
            self.set_at(path, new).resolve(other) == self.resolve(other),
        decreases path.len(),
    {
        lemma_apart_step(path, other);
        match self {
            Tree::Node { slots, .. } => {
                if path[0] < slots.len() && path[0] == other[0] {
                    slots[path[0] as int].lemma_resolve_set_apart(
                        path.drop_first(),
                        new,
                        other.drop_first(),
                    );
                }
            },
            _ => {},
        }
    }

    /// Exchanging an element for itself changes nothing.
    pub proof fn lemma_set_at_same(self, path: Path)
        requires
            self.resolve(path).is_some(),
        ensures
            self.set_at(path, self.resolve(path).unwrap()) == self,
        decreases path.len(),
    {
        if path.len() > 0 {
            match self {
                Tree::Node { kind, slots } => {
                    let k = path[0] as int;
                    slots[k].lemma_set_at_same(path.drop_first());
                    assert(slots.update(k, slots[k]) =~= slots);
                },
                _ => {},
            }
        }
    }

    /// Exchanges at two paths that are apart can be made in either order.
    pub proof fn lemma_set_at_commute(self, p: Path, a: Tree, q: Path, b: Tree)
        requires
            apart(p, q),
        ensures
            self.set_at(p, a).set_at(q, b) == self.set_at(q, b).set_at(p, a),
        decreases p.len(),
    {
        lemma_apart_step(p, q);
        match self {
            Tree::Node { kind, slots } => {
                let i = p[0] as int;
                let j = q[0] as int;
                if i < slots.len() && j < slots.len() {
                    if i == j {
                        slots[i].lemma_set_at_commute(p.drop_first(), a, q.drop_first(), b);
                        let x = slots[i].set_at(p.drop_first(), a).set_at(q.drop_first(), b);
                        assert(slots.update(i, slots[i].set_at(p.drop_first(), a)).update(i, x)
                            =~= slots.update(i, slots[i].set_at(q.drop_first(), b)).update(i, x));
                    } else {
                        let x = slots[i].set_at(p.drop_first(), a);
                        let y = slots[j].set_at(q.drop_first(), b);
                        assert(slots.update(i, x).update(j, y) =~= slots.update(j, y).update(i, x));
                    }
                }
            },
            _ => {},
        }
    }

    /// The element at a path lies inside the text of the tree: it begins at
    /// its offset and the text from there on, as long as the element, is the
    /// element's own text.
    pub proof fn lemma_text_of_resolved(self, path: Path)
        requires
            self.resolve(path).is_some(),
        ensures
            0 <= self.offset_of(path),
            self.offset_of(path) + self.resolve(path).unwrap().text().len() <= self.text().len(),
            self.text().subrange(
                self.offset_of(path),
                self.offset_of(path) + self.resolve(path).unwrap().text().len(),
            ) == self.resolve(path).unwrap().text(),
        decreases path.len(),
    {
        let e = self.resolve(path).unwrap();
        if path.len() == 0 {
            assert(self.text().subrange(0, self.text().len() as int) =~= self.text());
        } else {
            match self {
                Tree::Node { slots, .. } => {
                    let k = path[0] as int;
                    slots[k].lemma_text_of_resolved(path.drop_first());
                    lemma_row_text_split(slots, k);
                    let before = row_text(slots.subrange(0, k));
                    let o = slots[k].offset_of(path.drop_first());
                    assert(self.text().subrange(before.len() + o, before.len() + o + e.text().len())
                        =~= slots[k].text().subrange(o, o + e.text().len()));
                },
                _ => {},
            }
        }
    }

    /// An exchange is an edit of the text: the text of the new tree is the
    /// old text with the stretch of the old element cut out and the text of
    /// the new element put in its place.
    pub proof fn lemma_text_of_set_at(self, path: Path, new: Tree)
        requires
            self.resolve(path).is_some(),
        ensures
            0 <= self.offset_of(path),
            self.offset_of(path) + self.resolve(path).unwrap().text().len() <= self.text().len(),
            self.set_at(path, new).text() == self.text().subrange(0, self.offset_of(path))
                + new.text() + self.text().subrange(
                self.offset_of(path) + self.resolve(path).unwrap().text().len(),
                self.text().len() as int,
            ),
        decreases path.len(),
    {
        let e = self.resolve(path).unwrap();
        self.lemma_text_of_resolved(path);
        if path.len() == 0 {
            assert(self.set_at(path, new).text() =~= self.text().subrange(0, 0) + new.text()
                + self.text().subrange(self.text().len() as int, self.text().len() as int));
        } else {
            match self {
                Tree::Node { kind, slots } => {
                    let k = path[0] as int;
                    let child = slots[k].set_at(path.drop_first(), new);
                    let after = slots.update(k, child);
                    slots[k].lemma_text_of_set_at(path.drop_first(), new);
                    slots[k].lemma_text_of_resolved(path.drop_first());
                    lemma_row_text_split(slots, k);
                    lemma_row_text_split(after, k);
                    assert(after.subrange(0, k) =~= slots.subrange(0, k));
                    assert(after.subrange(k + 1, after.len() as int) =~= slots.subrange(
                        k + 1,
                        slots.len() as int,
                    ));
                    let before = row_text(slots.subrange(0, k));
                    let behind = row_text(slots.subrange(k + 1, slots.len() as int));
                    let o = slots[k].offset_of(path.drop_first());
                    let t = slots[k].text();
                    assert(self.text() == before + t + behind);
                    assert(self.set_at(path, new).text() == before + child.text() + behind);
                    assert(self.text().subrange(0, before.len() + o) =~= before + t.subrange(0, o));
                    assert(self.text().subrange(
                        before.len() + o + e.text().len(),
                        self.text().len() as int,
                    ) =~= t.subrange(o + e.text().len(), t.len() as int) + behind);
                    assert(before + child.text() + behind =~= (before + t.subrange(0, o))
                        + new.text() + (t.subrange(o + e.text().len(), t.len() as int) + behind));
                },
                _ => {},
            }
        }
    }
}

/// Whether a piece of trivia is blank: whitespace or a line break.
pub open spec fn is_blank(kind: TriviaKind) -> bool {
    kind == TriviaKind::Whitespace || kind == TriviaKind::Newline
}

/// A run of trivia without the blank pieces at its end.
pub open spec fn trim_end(pieces: Seq<TriviaModel>) -> Seq<TriviaModel>
    decreases pieces.len(),
{
    if pieces.len() > 0 && is_blank(pieces.last().kind) {
        trim_end(pieces.drop_last())
    } else {
        pieces
    }
}

impl TokenModel {
    /// The token without the blank pieces at the end of its trailing trivia.
    pub open spec fn trim_trailing(self) -> TokenModel {
        TokenModel { trailing: trim_end(self.trailing), ..self }
    }
}

/// The path to the first token at or behind slot `from` of a row. Slots
/// past the reach of a `usize` index are not looked at.
pub open spec fn first_token_in(slots: Seq<Tree>, from: nat) -> Option<Path>
    decreases slots, slots.len() - from,
{
    if from >= slots.len() || from > usize::MAX {
        None
    } else {
        match slots[from as int].first_token() {
            Some(p) => Some(seq![from as usize] + p),
            None => first_token_in(slots, from + 1),
        }
    }
}

/// The path to the last token before slot `upto` of a row. Slots past the
/// reach of a `usize` index are not looked at.
pub open spec fn last_token_in(slots: Seq<Tree>, upto: nat) -> Option<Path>
    decreases slots, upto,
{
    if upto == 0 || upto > slots.len() || upto - 1 > usize::MAX {
        None
    } else {
        match slots[upto - 1].last_token() {
            Some(p) => Some(seq![(upto - 1) as usize] + p),
            None => last_token_in(slots, (upto - 1) as nat),
        }
    }
}

/// The last slot before `before` that holds a node.
pub open spec fn prev_node_slot(slots: Seq<Tree>, before: nat) -> Option<nat>
    decreases before,
{
    if before == 0 || before > slots.len() {
        None
    } else if slots[before - 1] is Node {
        Some((before - 1) as nat)
    } else {
        prev_node_slot(slots, (before - 1) as nat)
    }
}

impl Tree {
    /// The path to the first token of the tree, in source order.
    pub open spec fn first_token(self) -> Option<Path>
        decreases self, 0nat,
    {
        match self {
            Tree::Empty => None,
            Tree::Token(_) => Some(Seq::empty()),
            Tree::Node { slots, .. } => first_token_in(slots, 0),
        }
    }

    /// The path to the last token of the tree, in source order.
    pub open spec fn last_token(self) -> Option<Path>
        decreases self, 0nat,
    {
        match self {
            Tree::Empty => None,
            Tree::Token(_) => Some(Seq::empty()),
            Tree::Node { slots, .. } => last_token_in(slots, slots.len()),
        }
    }

    /// The length of the trivia that stands before the first token's text.
    pub open spec fn leading_trivia_len(self) -> nat {
        trivia_text(self.leading_trivia()).len()
    }

    /// The length of the trivia that stands behind the last token's text.
    pub open spec fn trailing_trivia_len(self) -> nat {
        trivia_text(self.trailing_trivia()).len()
    }

    /// The tree with the blank trivia at the end of its last token taken
    /// off; `None` for a tree without a token.
    pub open spec fn trim_trailing_trivia(self) -> Option<Tree> {
        match self.last_token() {
            Some(p) => match self.resolve(p) {
                Some(Tree::Token(t)) => Some(self.set_at(p, Tree::Token(t.trim_trailing()))),
                _ => None,
            },
            None => None,
        }
    }

    /// The path to the nearest node that stands before the element at `path`
    /// under the same parent.
    pub open spec fn prev_sibling(self, path: Path) -> Option<Path> {
        if path.len() == 0 {
            None
        } else {
            match self.resolve(path.drop_last()) {
                Some(Tree::Node { slots, .. }) => match prev_node_slot(slots, path.last() as nat) {
                    Some(j) => Some(path.drop_last().push(j as usize)),
                    None => None,
                },
                _ => None,
            }
        }
    }

    /// The path of a tree's first token leads to a token.
    pub proof fn lemma_first_token_resolves(self)
        requires
            self.first_token().is_some(),
        ensures
            self.resolve(self.first_token().unwrap()) matches Some(t) && t is Token,
        decreases self, 0nat,
    {
        match self {
            Tree::Node { slots, .. } => {
                lemma_first_token_in_resolves(slots, 0);
                let p = first_token_in(slots, 0).unwrap();
                assert(p.drop_first() =~= p.subrange(1, p.len() as int));
            },
            _ => {},
        }
    }

    /// The path of a tree's last token leads to a token.
    pub proof fn lemma_last_token_resolves(self)
        requires
            self.last_token().is_some(),
        ensures
            self.resolve(self.last_token().unwrap()) matches Some(t) && t is Token,
        decreases self, 0nat,
    {
        match self {
            Tree::Node { slots, .. } => {
                lemma_last_token_in_resolves(slots, slots.len());
            },
            _ => {},
        }
    }
}

/// The first token found in a row lies in one of its slots, and the rest of
/// its path leads to a token there.
pub proof fn lemma_first_token_in_resolves(slots: Seq<Tree>, from: nat)
    requires
        first_token_in(slots, from).is_some(),
    ensures
        ({
            let p = first_token_in(slots, from).unwrap();
            &&& p.len() > 0
            &&& from <= p[0] < slots.len()
            &&& slots[p[0] as int].resolve(p.drop_first()) matches Some(t) && t is Token
        }),
    decreases slots, slots.len() - from,
{
    match slots[from as int].first_token() {
        Some(q) => {
            slots[from as int].lemma_first_token_resolves();
            assert((seq![from as usize] + q).drop_first() =~= q);
        },
        None => {
            lemma_first_token_in_resolves(slots, from + 1);
        },
    }
}

/// The last token found in a row lies in one of its slots, and the rest of
/// its path leads to a token there.
pub proof fn lemma_last_token_in_resolves(slots: Seq<Tree>, upto: nat)
    requires
        last_token_in(slots, upto).is_some(),
    ensures
        ({
            let p = last_token_in(slots, upto).unwrap();
            &&& p.len() > 0
            &&& p[0] < upto <= slots.len()
            &&& slots[p[0] as int].resolve(p.drop_first()) matches Some(t) && t is Token
        }),
    decreases slots, upto,
{
    match slots[upto - 1].last_token() {
        Some(q) => {
            slots[upto - 1].lemma_last_token_resolves();
            assert((seq![(upto - 1) as usize] + q).drop_first() =~= q);
        },
        None => {
            lemma_last_token_in_resolves(slots, (upto - 1) as nat);
        },
    }
}

impl Tree {
    /// A path that leads to a node leads on, by one more step, to the slot
    /// of that index.
    pub proof fn lemma_resolve_push(self, path: Path, slot: usize)
        requires
            self.resolve(path) matches Some(Tree::Node { slots, .. }) && slot < slots.len(),
        ensures
            self.resolve(path.push(slot)) == Some(self.resolve(path).unwrap()->slots[slot as int]),
        decreases path.len(),
    {
        if path.len() == 0 {
            let rest = path.push(slot).drop_first();
            assert(rest =~= Seq::<usize>::empty());
            assert(path.push(slot)[0] == slot);
            assert(self->slots[slot as int].resolve(rest) == Some(self->slots[slot as int]));
        } else {
            match self {
                Tree::Node { slots, .. } => {
                    assert(path.push(slot).drop_first() =~= path.drop_first().push(slot));
                    slots[path[0] as int].lemma_resolve_push(path.drop_first(), slot);
                },
                _ => {},
            }
        }
    }

    /// The sibling before an element is a node of the tree, stands under
    /// the same parent in an earlier slot, and is apart from the element.
    pub proof fn lemma_prev_sibling(self, path: Path)
        requires
            self.prev_sibling(path).is_some(),
        ensures
            ({
                let prev = self.prev_sibling(path).unwrap();
                &&& prev.len() == path.len()
                &&& prev.drop_last() == path.drop_last()
                &&& prev.last() < path.last()
                &&& self.resolve(prev) matches Some(t) && t is Node
                &&& apart(prev, path)
            }),
    {
        let parent = path.drop_last();
        let slots = self.resolve(parent).unwrap()->slots;
        lemma_prev_node_slot(slots, path.last() as nat);
        let j = prev_node_slot(slots, path.last() as nat).unwrap();
        let prev = parent.push(j as usize);
        assert(prev.drop_last() =~= parent);
        self.lemma_resolve_push(parent, j as usize);
        let k = path.len() - 1;
        if prev.is_prefix_of(path) {
            assert(path.subrange(0, prev.len() as int)[k] == path[k]);
        }
        if path.is_prefix_of(prev) {
            assert(prev.subrange(0, path.len() as int)[k] == prev[k]);
        }
    }
}

/// The slot that `prev_node_slot` finds lies before `before` and holds a node.
pub proof fn lemma_prev_node_slot(slots: Seq<Tree>, before: nat)
    requires
        prev_node_slot(slots, before).is_some(),
    ensures
        prev_node_slot(slots, before).unwrap() < before <= slots.len(),
        slots[prev_node_slot(slots, before).unwrap() as int] is Node,
    decreases before,
{
    if !(slots[before - 1] is Node) {
        lemma_prev_node_slot(slots, (before - 1) as nat);
    }
}

/// The element at `p` stands before the element at `q` in the source, and
/// neither holds the other: where the two paths part, `p` takes the
/// earlier slot.
pub open spec fn before(p: Path, q: Path) -> bool
    decreases p.len(),
{
    p.len() > 0 && q.len() > 0 && (p[0] < q[0] || (p[0] == q[0] && before(
        p.drop_first(),
        q.drop_first(),
    )))
}

/// What stands before another thing is apart from it.
pub proof fn lemma_before_apart(p: Path, q: Path)
    requires
        before(p, q),
    ensures
        apart(p, q),
        !before(q, p),
    decreases p.len(),
{
    if p[0] == q[0] {
        lemma_before_apart(p.drop_first(), q.drop_first());
        if p.is_prefix_of(q) {
            assert(p.drop_first() =~= q.drop_first().subrange(0, p.len() - 1));
        }
        if q.is_prefix_of(p) {
            assert(q.drop_first() =~= p.drop_first().subrange(0, q.len() - 1));
        }
    } else {
        if p.is_prefix_of(q) {
            assert(q.subrange(0, p.len() as int)[0] == q[0]);
        }
        if q.is_prefix_of(p) {
            assert(p.subrange(0, q.len() as int)[0] == p[0]);
        }
    }
}

/// Of two elements that are apart, one stands before the other.
pub proof fn lemma_apart_before(p: Path, q: Path)
    requires
        apart(p, q),
    ensures
        before(p, q) || before(q, p),
    decreases p.len(),
{
    lemma_apart_step(p, q);
    if p[0] == q[0] {
        lemma_apart_before(p.drop_first(), q.drop_first());
    }
}

/// Standing before is transitive.
pub proof fn lemma_before_trans(p: Path, q: Path, r: Path)
    requires
        before(p, q),
        before(q, r),
    ensures
        before(p, r),
    decreases p.len(),
{
    if p[0] == q[0] && q[0] == r[0] {
        lemma_before_trans(p.drop_first(), q.drop_first(), r.drop_first());
    }
}

impl Tree {
    /// An exchange does not move what stands before it.
    pub proof fn lemma_offset_set_after(self, p: Path, q: Path, new: Tree)
        requires
            before(p, q),
        ensures
            self.set_at(q, new).offset_of(p) == self.offset_of(p),
        decreases p.len(),
    {
        match self {
            Tree::Node { kind, slots } => {
                if q[0] < slots.len() {
                    let after = slots.update(q[0] as int, slots[q[0] as int].set_at(q.drop_first(), new));
                    if p[0] < slots.len() {
                        assert(after.subrange(0, p[0] as int) =~= slots.subrange(0, p[0] as int));
                        if p[0] == q[0] {
                            slots[p[0] as int].lemma_offset_set_after(
                                p.drop_first(),
                                q.drop_first(),
                                new,
                            );
                        }
                    }
                }
            },
            _ => {},
        }
    }

    /// The sibling before an element stands before it.
    pub proof fn lemma_prev_sibling_before(self, path: Path)
        requires
            self.prev_sibling(path).is_some(),
        ensures
            before(self.prev_sibling(path).unwrap(), path),
    {
        self.lemma_prev_sibling(path);
        lemma_before_siblings(self.prev_sibling(path).unwrap(), path);
    }
}

/// Of two slots of one node, the earlier stands before the later.
pub proof fn lemma_before_siblings(p: Path, q: Path)
    requires
        p.len() == q.len(),
        p.len() > 0,
        p.drop_last() == q.drop_last(),
        p.last() < q.last(),
    ensures
        before(p, q),
    decreases p.len(),
{
    if p.len() > 1 {
        assert(p[0] == p.drop_last()[0]);
        assert(q[0] == q.drop_last()[0]);
        assert(p.drop_first().drop_last() =~= p.drop_last().drop_first());
        assert(q.drop_first().drop_last() =~= q.drop_last().drop_first());
        lemma_before_siblings(p.drop_first(), q.drop_first());
    }
}

impl Tree {
    /// Every row of the tree is short enough for a `usize` to index it, as
    /// the rows of every tree in memory are.
    pub open spec fn indexable(self) -> bool
        decreases self,
    {
        match self {
            Tree::Node { slots, .. } => slots.len() <= usize::MAX && forall|i: int|
                0 <= i < slots.len() ==> (#[trigger] slots[i]).indexable(),
            _ => true,
        }
    }

    /// A tree without a token has no text.
    pub proof fn lemma_no_token_no_text(self)
        requires
            self.indexable(),
            self.last_token().is_none(),
        ensures
            self.text() == Seq::<u8>::empty(),
        decreases self, 0nat,
    {
        match self {
            Tree::Node { slots, .. } => {
                lemma_no_token_no_row_text(slots, slots.len());
                assert(slots.subrange(0, slots.len() as int) =~= slots);
            },
            _ => {},
        }
    }

    /// The last token of a tree ends where the tree ends.
    pub proof fn lemma_last_token_at_end(self)
        requires
            self.indexable(),
            self.last_token().is_some(),
        ensures
            ({
                let p = self.last_token().unwrap();
                &&& self.resolve(p) matches Some(t) && t is Token
                &&& self.offset_of(p) + self.resolve(p).unwrap().text().len() == self.text().len()
            }),
        decreases self, 0nat,
    {
        self.lemma_last_token_resolves();
        match self {
            Tree::Node { slots, .. } => {
                lemma_last_token_in_at_end(slots, slots.len());
                assert(slots.subrange(0, slots.len() as int) =~= slots);
            },
            _ => {},
        }
    }
}

/// The slots of a row that hold no token add nothing to its text.
pub proof fn lemma_no_token_no_row_text(slots: Seq<Tree>, upto: nat)
    requires
        upto <= slots.len() <= usize::MAX,
        forall|i: int| 0 <= i < slots.len() ==> (#[trigger] slots[i]).indexable(),
        last_token_in(slots, upto).is_none(),
    ensures
        row_text(slots.subrange(0, upto as int)) == Seq::<u8>::empty(),
    decreases slots, upto,
{
    if upto == 0 {
        assert(slot_texts(slots.subrange(0, 0)) =~= Seq::<Seq<u8>>::empty());
    } else {
        slots[upto - 1].lemma_no_token_no_text();
        lemma_no_token_no_row_text(slots, (upto - 1) as nat);
        lemma_row_text_take(slots, upto - 1);
    }
}

/// The last token among the first `upto` slots of a row ends where the
/// text of those slots ends.
pub proof fn lemma_last_token_in_at_end(slots: Seq<Tree>, upto: nat)
    requires
        upto <= slots.len() <= usize::MAX,
        forall|i: int| 0 <= i < slots.len() ==> (#[trigger] slots[i]).indexable(),
        last_token_in(slots, upto).is_some(),
    ensures
        ({
            let p = last_token_in(slots, upto).unwrap();
            let k = p[0] as int;
            &&& p.len() > 0
            &&& k < upto
            &&& slots[k].resolve(p.drop_first()).is_some()
            &&& row_text(slots.subrange(0, k)).len() + slots[k].offset_of(p.drop_first())
                + slots[k].resolve(p.drop_first()).unwrap().text().len() == row_text(
                slots.subrange(0, upto as int),
            ).len()
        }),
    decreases slots, upto,
{
    lemma_row_text_take(slots, upto - 1);
    match slots[upto - 1].last_token() {
        Some(q) => {
            slots[upto - 1].lemma_last_token_at_end();
            assert((seq![(upto - 1) as usize] + q).drop_first() =~= q);
        },
        None => {
            slots[upto - 1].lemma_no_token_no_text();
            lemma_last_token_in_at_end(slots, (upto - 1) as nat);
        },
    }
}

/// What `trim_end` keeps is a leading part of the run.
pub proof fn lemma_trim_end_is_prefix(pieces: Seq<TriviaModel>)
    ensures
        trim_end(pieces).len() <= pieces.len(),
        trim_end(pieces) == pieces.subrange(0, trim_end(pieces).len() as int),
        forall|i: int| trim_end(pieces).len() <= i < pieces.len() ==> is_blank((#[trigger] pieces[i]).kind),
    decreases pieces.len(),
{
    if pieces.len() > 0 && is_blank(pieces.last().kind) {
        lemma_trim_end_is_prefix(pieces.drop_last());
        let kept = trim_end(pieces).len() as int;
        assert(pieces.drop_last().subrange(0, kept) =~= pieces.subrange(0, kept));
        assert forall|i: int| kept <= i < pieces.len() implies is_blank((#[trigger] pieces[i]).kind) by {
            if i < pieces.len() - 1 {
                assert(pieces.drop_last()[i] == pieces[i]);
            }
        }
    } else {
        assert(pieces.subrange(0, pieces.len() as int) =~= pieces);
    }
}

/// The text of a run of trivia is the text of a leading part of it and the
/// text of the rest.
pub proof fn lemma_trivia_text_split(pieces: Seq<TriviaModel>, i: int)
    requires
        0 <= i <= pieces.len(),
    ensures
        trivia_text(pieces) == trivia_text(pieces.subrange(0, i)) + trivia_text(
            pieces.subrange(i, pieces.len() as int),
        ),
{
    let a = pieces.subrange(0, i).map_values(|p: TriviaModel| p.text);
    let b = pieces.subrange(i, pieces.len() as int).map_values(|p: TriviaModel| p.text);
    assert(pieces.map_values(|p: TriviaModel| p.text) =~= a + b);
    vstd::seq_lib::lemma_flatten_concat(a, b);
}

impl TokenModel {
    /// The blank trivia that `trim_trailing` takes off the end of the token.
    pub open spec fn trailing_blank(self) -> Seq<u8> {
        trivia_text(self.trailing.subrange(trim_end(self.trailing).len() as int, self.trailing.len() as int))
    }

    /// A token is its trimmed self with the blank trivia behind it.
    pub proof fn lemma_trim_trailing_text(self)
        ensures
            self.full_text() == self.trim_trailing().full_text() + self.trailing_blank(),
    {
        lemma_trim_end_is_prefix(self.trailing);
        lemma_trivia_text_split(self.trailing, trim_end(self.trailing).len() as int);
        assert(self.full_text() =~= self.trim_trailing().full_text() + self.trailing_blank());
    }
}

impl Tree {
    /// The blank trivia at the very end of the tree: what
    /// `trim_trailing_trivia` takes off.
    pub open spec fn trailing_blank(self) -> Seq<u8> {
        match self.last_token() {
            Some(p) => match self.resolve(p) {
                Some(Tree::Token(t)) => t.trailing_blank(),
                _ => Seq::empty(),
            },
            None => Seq::empty(),
        }
    }

    /// A tree is its trimmed self with the blank trivia behind it: trimming
    /// takes bytes off the end of the text and changes nothing before them.
    pub proof fn lemma_trim_trailing_trivia_text(self)
        requires
            self.indexable(),
            self.trim_trailing_trivia().is_some(),
        ensures
            self.text() == self.trim_trailing_trivia().unwrap().text() + self.trailing_blank(),
    {
        let p = self.last_token().unwrap();
        let t = self.resolve(p).unwrap()->Token_0;
        self.lemma_last_token_at_end();
        self.lemma_text_of_set_at(p, Tree::Token(t.trim_trailing()));
        t.lemma_trim_trailing_text();
        let o = self.offset_of(p);
        assert(self.text().subrange(self.text().len() as int, self.text().len() as int)
            =~= Seq::<u8>::empty());
        self.lemma_text_of_resolved(p);
        assert(self.text() =~= self.text().subrange(0, o) + t.full_text());
        assert(self.text() =~= (self.text().subrange(0, o) + t.trim_trailing().full_text())
            + t.trailing_blank());
        assert(self.trim_trailing_trivia().unwrap().text() =~= self.text().subrange(0, o)
            + t.trim_trailing().full_text());
    }
}

impl Tree {
    /// What stands before another element ends before that element begins.
    pub proof fn lemma_before_in_text(self, p: Path, q: Path)
        requires
            before(p, q),
            self.resolve(p).is_some(),
            self.resolve(q).is_some(),
        ensures
            self.offset_of(p) + self.resolve(p).unwrap().text().len() <= self.offset_of(q),
        decreases p.len(),
    {
        match self {
            Tree::Node { slots, .. } => {
                let i = p[0] as int;
                let j = q[0] as int;
                slots[i].lemma_text_of_resolved(p.drop_first());
                slots[j].lemma_text_of_resolved(q.drop_first());
                if i == j {
                    slots[i].lemma_before_in_text(p.drop_first(), q.drop_first());
                } else {
                    lemma_row_text_take(slots, i);
                    lemma_row_text_prefix_len(slots.subrange(0, j), i + 1);
                    assert(slots.subrange(0, j).subrange(0, i + 1) =~= slots.subrange(0, i + 1));
                }
            },
            _ => {},
        }
    }

    /// Every element of an indexable tree is indexable.
    pub proof fn lemma_resolve_indexable(self, path: Path)
        requires
            self.indexable(),
            self.resolve(path).is_some(),
        ensures
            self.resolve(path).unwrap().indexable(),
        decreases path.len(),
    {
        if path.len() > 0 {
            match self {
                Tree::Node { slots, .. } => {
                    slots[path[0] as int].lemma_resolve_indexable(path.drop_first());
                },
                _ => {},
            }
        }
    }
}

impl Tree {
    /// The trivia before the first token; none for a tree without a token.
    pub open spec fn leading_trivia(self) -> Seq<TriviaModel> {
        match self.first_token() {
            Some(p) => match self.resolve(p) {
                Some(Tree::Token(t)) => t.leading,
                _ => Seq::empty(),
            },
            None => Seq::empty(),
        }
    }

    /// The trivia behind the last token; none for a tree without a token.
    pub open spec fn trailing_trivia(self) -> Seq<TriviaModel> {
        match self.last_token() {
            Some(p) => match self.resolve(p) {
                Some(Tree::Token(t)) => t.trailing,
                _ => Seq::empty(),
            },
            None => Seq::empty(),
        }
    }

    /// The tree with `pieces` as the trivia before its first token; the tree
    /// itself where it has no token.
    pub open spec fn with_leading_trivia(self, pieces: Seq<TriviaModel>) -> Tree {
        match self.first_token() {
            Some(p) => match self.resolve(p) {
                Some(Tree::Token(t)) => self.set_at(p, Tree::Token(TokenModel { leading: pieces, ..t })),
                _ => self,
            },
            None => self,
        }
    }

    /// The tree with `pieces` as the trivia behind its last token; the tree
    /// itself where it has no token.
    pub open spec fn with_trailing_trivia(self, pieces: Seq<TriviaModel>) -> Tree {
        match self.last_token() {
            Some(p) => match self.resolve(p) {
                Some(Tree::Token(t)) => self.set_at(p, Tree::Token(TokenModel { trailing: pieces, ..t })),
                _ => self,
            },
            None => self,
        }
    }

    /// The tree dressed in the outer trivia of `other`: what stands before
    /// the first token of `other` and behind its last one.
    pub open spec fn with_outer_trivia_of(self, other: Tree) -> Tree {
        self.with_leading_trivia(other.leading_trivia()).with_trailing_trivia(
            other.trailing_trivia(),
        )
    }
}

} // verus!
