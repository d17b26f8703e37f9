//! Mutation batches: edits proposed against one snapshot of a tree, and
//! applied together when the batch is committed.
use crate::batch_laws::{
    below, lemma_apply_in_leaf, lemma_apply_in_node, lemma_below_is_range, lemma_insert_keeps_order,
};
use crate::model::{apart, before, Path, Tree};
use crate::navigate::copy_path;
use crate::tree::{slot_views, Element, Node};
use std::sync::Arc;
use vstd::prelude::*;

verus! {

/// The identity of an element of a snapshot: the path that leads to it and
/// the element that stood there when the handle was taken.
#[derive(Debug)]
pub struct Handle {
    pub path: Vec<usize>,
    pub element: Element,
}

/// What a handle is: a path and the element that it was taken from.
pub ghost struct HandleModel {
    pub path: Path,
    pub element: Tree,
}

impl View for Handle {
    type V = HandleModel;

    open spec fn view(&self) -> HandleModel {
        HandleModel { path: self.path@, element: self.element@ }
    }
}

/// Why a batch refuses an operation.
#[derive(Clone, Copy, Debug, PartialEq, Eq, Structural)]
pub enum Conflict {
    /// The handle does not name an element of the batch's snapshot.
    Stale,
    /// An earlier operation of the batch already changed the element, one
    /// above it or one below it.
    Superseded,
    /// The slot to insert into holds an element.
    Occupied,
}

/// One pending edit: the slot at `path` is to hold `new`.
pub ghost struct ChangeModel {
    pub path: Path,
    pub new: Tree,
}

/// What a batch is: its snapshot, its pending edits in the order of the
/// source, and the conflict that poisoned it, if one did.
pub ghost struct BatchModel {
    pub root: Tree,
    pub changes: Seq<ChangeModel>,
    pub conflict: Option<Conflict>,
}

/// The tree that results from making the edits one after the other.
pub open spec fn apply(root: Tree, changes: Seq<ChangeModel>) -> Tree
    decreases changes.len(),
{
    if changes.len() == 0 {
        root
    } else {
        apply(root, changes.drop_last()).set_at(changes.last().path, changes.last().new)
    }
}

/// Where an edit at `path` goes among the edits of a batch: behind the last
/// edit that stands before it in the source.
pub open spec fn position(changes: Seq<ChangeModel>, path: Path) -> int
    decreases changes.len(),
{
    if changes.len() == 0 {
        0
    } else if before(changes.last().path, path) {
        changes.len() as int
    } else {
        position(changes.drop_last(), path)
    }
}

/// No edit touches `path`, an element above it or one below it.
pub open spec fn clear_of(changes: Seq<ChangeModel>, path: Path) -> bool {
    forall|i: int| 0 <= i < changes.len() ==> apart((#[trigger] changes[i]).path, path)
}

impl BatchModel {
    /// Every edit names a slot of the snapshot, and the edits stand in the
    /// order of the source, each before the next and none inside another.
    pub open spec fn wf(self) -> bool {
        &&& forall|i: int|
            0 <= i < self.changes.len() ==> self.root.resolve((#[trigger] self.changes[i]).path).is_some()
        &&& forall|i: int, j: int|
            0 <= i < j < self.changes.len() ==> before(
                (#[trigger] self.changes[i]).path,
                (#[trigger] self.changes[j]).path,
            )
    }

    /// The snapshot holds, where the handle points, the very element that
    /// the handle was taken from.
    pub open spec fn holds(self, h: HandleModel) -> bool {
        h.element !is Empty && self.root.resolve(h.path) == Some(h.element)
    }

    /// The conflict that replacing the element of `prev` meets, if any.
    pub open spec fn replace_conflict(self, prev: HandleModel) -> Option<Conflict> {
        if self.conflict is Some {
            self.conflict
        } else if !self.holds(prev) {
            Some(Conflict::Stale)
        } else if !clear_of(self.changes, prev.path) {
            Some(Conflict::Superseded)
        } else {
            None
        }
    }

    /// The conflict that removing the node of `node` meets, if any.
    pub open spec fn remove_conflict(self, node: HandleModel) -> Option<Conflict> {
        if self.conflict is Some {
            self.conflict
        } else if !self.holds(node) || !(node.element is Node) {
            Some(Conflict::Stale)
        } else if !clear_of(self.changes, node.path) {
            Some(Conflict::Superseded)
        } else {
            None
        }
    }

    /// The conflict that inserting into slot `slot` of the node of `parent`
    /// meets, if any.
    pub open spec fn insert_conflict(self, parent: HandleModel, slot: usize) -> Option<Conflict> {
        if self.conflict is Some {
            self.conflict
        } else if !self.holds(parent) {
            Some(Conflict::Stale)
        } else {
            match parent.element {
                Tree::Node { slots, .. } => if slot >= slots.len() {
                    Some(Conflict::Stale)
                } else if !(slots[slot as int] is Empty) {
                    Some(Conflict::Occupied)
                } else if !clear_of(self.changes, parent.path.push(slot)) {
                    Some(Conflict::Superseded)
                } else {
                    None
                },
                _ => Some(Conflict::Stale),
            }
        }
    }

    /// The batch with one more edit, put where it belongs in the order of
    /// the source.
    pub open spec fn with_change(self, path: Path, new: Tree) -> BatchModel {
        BatchModel {
            changes: self.changes.insert(position(self.changes, path), ChangeModel { path, new }),
            ..self
        }
    }

    /// The batch after it met a conflict: the edits stay as they were.
    pub open spec fn poisoned(self, c: Conflict) -> BatchModel {
        BatchModel { conflict: Some(c), ..self }
    }

    /// The tree that committing the batch gives.
    pub open spec fn committed(self) -> Tree {
        apply(self.root, self.changes)
    }
}

/// Whether neither path leads through the other.
pub fn paths_apart(a: &Vec<usize>, b: &Vec<usize>) -> (r: bool)
    ensures
        r == apart(a@, b@),
{
    let mut i: usize = 0;
    while i < a.len() && i < b.len() && a[i] == b[i]
        invariant
            i <= a.len(),
            i <= b.len(),
            a@.subrange(0, i as int) == b@.subrange(0, i as int),
        decreases a.len() - i,
    {
        i += 1;
        assert(a@.subrange(0, i as int) =~= a@.subrange(0, i as int - 1).push(a@[i as int - 1]));
        assert(b@.subrange(0, i as int) =~= b@.subrange(0, i as int - 1).push(b@[i as int - 1]));
    }
    if i == a.len() {
        assert(a@ =~= a@.subrange(0, i as int));
        false
    } else if i == b.len() {
        assert(b@ =~= b@.subrange(0, i as int));
        false
    } else {
        assert(a@[i as int] != b@[i as int]);
        assert(a@.len() <= b@.len() ==> b@.subrange(0, a@.len() as int)[i as int] == b@[i as int]);
        assert(b@.len() <= a@.len() ==> a@.subrange(0, b@.len() as int)[i as int] == a@[i as int]);
        true
    }
}

struct Change {
    path: Vec<usize>,
    new: Element,
}

impl View for Change {
    type V = ChangeModel;

    closed spec fn view(&self) -> ChangeModel {
        ChangeModel { path: self.path@, new: self.new@ }
    }
}

impl Change {
    fn share(&self) -> (r: Change)
        ensures
            r@ == self@,
    {
        let path = copy_path(&self.path, self.path.len());
        assert(self.path@.subrange(0, self.path.len() as int) =~= self.path@);
        Change { path, new: self.new.share() }
    }
}

spec fn change_views(changes: Seq<Change>) -> Seq<ChangeModel> {
    Seq::new(changes.len(), |i: int| changes[i]@)
}

/// An accumulator of edits against one snapshot. The snapshot is never
/// changed: committing the batch gives a new tree.
pub struct MutationBatch {
    root: Element,
    changes: Vec<Change>,
    conflict: Option<Conflict>,
}

impl View for MutationBatch {
    type V = BatchModel;

    closed spec fn view(&self) -> BatchModel {
        BatchModel {
            root: self.root@,
            changes: change_views(self.changes@),
            conflict: self.conflict,
        }
    }
}

impl Element {
    /// A handle on the element at `path`; `None` where the path leaves the
    /// tree or ends in an empty slot.
    pub fn handle(&self, path: &Vec<usize>) -> (r: Option<Handle>)
        ensures
            match r {
                Some(h) => h@.path == path@ && h@.element !is Empty && self@.resolve(path@) == Some(
                    h@.element,
                ),
                None => self@.resolve(path@).is_none() || self@.resolve(path@) == Some(Tree::Empty),
            },
    {
        match self.get(path) {
            Some(Element::Empty) => None,
            Some(e) => {
                let p = copy_path(path, path.len());
                assert(path@.subrange(0, path.len() as int) =~= path@);
                Some(Handle { path: p, element: e.share() })
            },
            None => None,
        }
    }

    /// Starts a batch of edits against this tree as its snapshot.
    pub fn begin(&self) -> (b: MutationBatch)
        ensures
            b@ == (BatchModel { root: self@, changes: Seq::empty(), conflict: None }),
            b@.wf(),
    {
        let b = MutationBatch { root: self.share(), changes: Vec::new(), conflict: None };
        assert(b@.changes =~= Seq::empty());
        b
    }
}

impl MutationBatch {
    #[verifier::type_invariant]
    spec fn well_formed(self) -> bool {
        self@.wf()
    }

    /// Does nothing at run time, and tells a proof that a batch in memory
    /// is well-formed: each of its edits names a slot of its snapshot, and
    /// the edits stand in the order of the source.
    pub fn know_well_formed(&self)
        ensures
            self@.wf(),
    {
        proof {
            use_type_invariant(self);
        }
    }

    /// The snapshot that the batch was begun on.
    pub fn snapshot(&self) -> (r: &Element)
        ensures
            r@ == self@.root,
    {
        &self.root
    }

    /// The number of pending edits.
    pub fn len(&self) -> (n: usize)
        ensures
            n == self@.changes.len(),
    {
        self.changes.len()
    }

    /// The pending edit of index `i`: the path of the slot and the element
    /// that it is to hold, `Element::Empty` for a removal. `None` past the
    /// last edit.
    pub fn edit(&self, i: usize) -> (r: Option<(Vec<usize>, Element)>)
        ensures
            match r {
                Some((path, new)) => i < self@.changes.len() && path@ == self@.changes[i as int].path
                    && new@ == self@.changes[i as int].new,
                None => i >= self@.changes.len(),
            },
    {
        if i < self.changes.len() {
            let c = &self.changes[i];
            assert(self@.changes[i as int] == self.changes@[i as int]@);
            let path = copy_path(&c.path, c.path.len());
            assert(c.path@.subrange(0, c.path.len() as int) =~= c.path@);
            Some((path, c.new.share()))
        } else {
            None
        }
    }

    /// The conflict that poisoned the batch, if one did.
    pub fn conflict(&self) -> (c: Option<Conflict>)
        ensures
            c == self@.conflict,
    {
        self.conflict
    }

    fn holds(&self, h: &Handle) -> (r: bool)
        ensures
            r == self@.holds(h@),
    {
        match h.element {
            Element::Empty => false,
            _ => match self.root.get(&h.path) {
                Some(e) => e.same_as(&h.element),
                None => false,
            },
        }
    }

    fn is_clear(&self, path: &Vec<usize>) -> (r: bool)
        ensures
            r == clear_of(self@.changes, path@),
    {
        let mut i: usize = 0;
        while i < self.changes.len()
            invariant
                i <= self.changes.len(),
                forall|j: int| 0 <= j < i ==> apart((#[trigger] self@.changes[j]).path, path@),
            decreases self.changes.len() - i,
        {
            if !paths_apart(&self.changes[i].path, path) {
                assert(self@.changes[i as int].path == self.changes@[i as int].path@);
                return false;
            }
            assert(self@.changes[i as int].path == self.changes@[i as int].path@);
            i += 1;
        }
        true
    }

    fn poison(&mut self, c: Conflict)
        ensures
            final(self)@ == old(self)@.poisoned(c),
            final(self)@.wf(),
    {
        proof {
            use_type_invariant(&*self);
        }
        self.conflict = Some(c);
    }

    fn record(&mut self, path: &Vec<usize>, new: Element)
        requires
            old(self)@.root.resolve(path@).is_some(),
            clear_of(old(self)@.changes, path@),
        ensures
            final(self)@ == old(self)@.with_change(path@, new@),
            final(self)@.wf(),
    {
        proof {
            use_type_invariant(&*self);
        }
        let ghost before_it = self@;
        let ghost changes = self@.changes;
        let mut at: usize = self.changes.len();
        assert(changes.subrange(0, at as int) =~= changes);
        while at > 0 && !path_before(&self.changes[at - 1].path, path)
            invariant
                at <= self.changes.len(),
                self@ == before_it,
                changes == self@.changes,
                position(changes, path@) == position(changes.subrange(0, at as int), path@),
            decreases at,
        {
            assert(changes[at as int - 1].path == self.changes@[at as int - 1].path@);
            assert(changes.subrange(0, at as int).drop_last() =~= changes.subrange(0, at as int - 1));
            at -= 1;
        }
        proof {
            if at > 0 {
                assert(changes[at as int - 1].path == self.changes@[at as int - 1].path@);
                assert(changes.subrange(0, at as int).last() == changes[at as int - 1]);
            }
            assert(position(changes, path@) == at);
        }
        let mut next: Vec<Change> = Vec::new();
        let mut i: usize = 0;
        while i < at
            invariant
                i <= at <= self.changes.len(),
                self@ == before_it,
                changes == self@.changes,
                next.len() == i,
                forall|j: int| 0 <= j < i ==> (#[trigger] next@[j])@ == changes[j],
            decreases at - i,
        {
            let ghost earlier = next@;
            next.push(self.changes[i].share());
            assert(forall|j: int| 0 <= j < i ==> next@[j] == earlier[j]);
            assert(changes[i as int] == self.changes@[i as int]@);
            i += 1;
        }
        let p = copy_path(path, path.len());
        assert(path@.subrange(0, path.len() as int) =~= path@);
        let ghost earlier = next@;
        next.push(Change { path: p, new });
        assert(forall|j: int| 0 <= j < at ==> next@[j] == earlier[j]);
        while i < self.changes.len()
            invariant
                at <= i <= self.changes.len(),
                self@ == before_it,
                changes == self@.changes,
                next.len() == i + 1,
                forall|j: int| 0 <= j < at ==> (#[trigger] next@[j])@ == changes[j],
                next@[at as int]@ == (ChangeModel { path: path@, new: new@ }),
                forall|j: int| at < j <= i ==> (#[trigger] next@[j])@ == changes[j - 1],
            decreases self.changes.len() - i,
        {
            let ghost earlier = next@;
            next.push(self.changes[i].share());
            assert(forall|j: int| 0 <= j <= i ==> next@[j] == earlier[j]);
            assert(changes[i as int] == self.changes@[i as int]@);
            i += 1;
        }
        proof {
            assert(change_views(next@) =~= changes.insert(
                at as int,
                ChangeModel { path: path@, new: new@ },
            ));
            lemma_insert_keeps_order(before_it, path@, new@);
        }
        self.changes = next;
    }

    /// Proposes to put `next` in the place of the element of `prev`, with
    /// the trivia that `next` itself carries. On a conflict the batch keeps
    /// its edits, remembers the conflict and will not commit.
    pub fn replace_element_discard_trivia(&mut self, prev: &Handle, next: Element) -> (r: Result<
        (),
        Conflict,
    >)
        ensures
            final(self)@.wf(),
            match old(self)@.replace_conflict(prev@) {
                Some(c) => r == Err::<(), Conflict>(c) && final(self)@ == old(self)@.poisoned(c),
                None => r.is_ok() && final(self)@ == old(self)@.with_change(prev@.path, next@),
            },
    {
        proof {
            use_type_invariant(&*self);
        }
        match self.conflict {
            Some(c) => {
                return Err(c);
            },
            None => {},
        }
        if !self.holds(prev) {
            self.poison(Conflict::Stale);
            return Err(Conflict::Stale);
        }
        if !self.is_clear(&prev.path) {
            self.poison(Conflict::Superseded);
            return Err(Conflict::Superseded);
        }
        self.record(&prev.path, next);
        Ok(())
    }

    /// Proposes to put `next` in the place of the element of `prev`, and
    /// to keep the trivia around it: `next` gives up the trivia before its
    /// first token and behind its last one, and takes over that of `prev`.
    pub fn replace_element(&mut self, prev: &Handle, next: Element) -> (r: Result<(), Conflict>)
        ensures
            final(self)@.wf(),
            match old(self)@.replace_conflict(prev@) {
                Some(c) => r == Err::<(), Conflict>(c) && final(self)@ == old(self)@.poisoned(c),
                None => r.is_ok() && final(self)@ == old(self)@.with_change(
                    prev@.path,
                    next@.with_outer_trivia_of(prev@.element),
                ),
            },
    {
        let dressed = next.with_outer_trivia_of(&prev.element);
        self.replace_element_discard_trivia(prev, dressed)
    }

    /// Proposes to take the node of `node` out of the tree. Its slot stays
    /// and is empty, and the trivia of its tokens goes with it.
    pub fn remove_node(&mut self, node: &Handle) -> (r: Result<(), Conflict>)
        ensures
            final(self)@.wf(),
            match old(self)@.remove_conflict(node@) {
                Some(c) => r == Err::<(), Conflict>(c) && final(self)@ == old(self)@.poisoned(c),
                None => r.is_ok() && final(self)@ == old(self)@.with_change(node@.path, Tree::Empty),
            },
    {
        proof {
            use_type_invariant(&*self);
        }
        match self.conflict {
            Some(c) => {
                return Err(c);
            },
            None => {},
        }
        let is_node = match node.element {
            Element::Node(_) => true,
            _ => false,
        };
        if !is_node || !self.holds(node) {
            self.poison(Conflict::Stale);
            return Err(Conflict::Stale);
        }
        if !self.is_clear(&node.path) {
            self.poison(Conflict::Superseded);
            return Err(Conflict::Superseded);
        }
        self.record(&node.path, Element::Empty);
        Ok(())
    }

    /// Proposes to put `new` into the empty slot `slot` of the node of
    /// `parent`.
    pub fn insert_element(&mut self, parent: &Handle, slot: usize, new: Element) -> (r: Result<
        (),
        Conflict,
    >)
        ensures
            final(self)@.wf(),
            match old(self)@.insert_conflict(parent@, slot) {
                Some(c) => r == Err::<(), Conflict>(c) && final(self)@ == old(self)@.poisoned(c),
                None => r.is_ok() && final(self)@ == old(self)@.with_change(
                    parent@.path.push(slot),
                    new@,
                ),
            },
    {
        proof {
            use_type_invariant(&*self);
        }
        match self.conflict {
            Some(c) => {
                return Err(c);
            },
            None => {},
        }
        if !self.holds(parent) {
            self.poison(Conflict::Stale);
            return Err(Conflict::Stale);
        }
        match &parent.element {
            Element::Node(n) => {
                assert(parent.element@ == Tree::Node { kind: n.kind, slots: slot_views(n.slots@) });
                if slot >= n.slots.len() {
                    self.poison(Conflict::Stale);
                    return Err(Conflict::Stale);
                }
                assert(slot_views(n.slots@)[slot as int] == n.slots@[slot as int]@);
                match &n.slots[slot] {
                    Element::Empty => {},
                    _ => {
                        self.poison(Conflict::Occupied);
                        return Err(Conflict::Occupied);
                    },
                }
                let mut path = copy_path(&parent.path, parent.path.len());
                assert(parent.path@.subrange(0, parent.path.len() as int) =~= parent.path@);
                path.push(slot);
                if !self.is_clear(&path) {
                    self.poison(Conflict::Superseded);
                    return Err(Conflict::Superseded);
                }
                proof {
                    self@.root.lemma_resolve_push(parent.path@, slot);
                }
                self.record(&path, new);
                Ok(())
            },
            _ => {
                self.poison(Conflict::Stale);
                Err(Conflict::Stale)
            },
        }
    }

    /// Applies the edits to the snapshot and gives the new tree, in one pass
    /// from the root down and back: every node above an edited element is
    /// built anew once, and every subtree without an edit is shared with the
    /// snapshot. A poisoned batch gives its conflict and no tree.
    pub fn commit(self) -> (r: Result<Element, Conflict>)
        ensures
            match self@.conflict {
                Some(c) => r matches Err(e) && e == c,
                None => r matches Ok(t) && t@ == self@.committed(),
            },
    {
        match self.conflict {
            Some(c) => {
                return Err(c);
            },
            None => {},
        }
        proof {
            use_type_invariant(&self);
            let changes = self@.changes;
            assert forall|m: int| 0 <= m < changes.len() implies (#[trigger] self.changes@[m]).path@.subrange(
                0,
                self.changes@[m].path@.len() as int,
            ) == changes[m].path by {
                assert(self.changes@[m].path@.subrange(0, self.changes@[m].path@.len() as int)
                    =~= self.changes@[m].path@);
            }
            assert forall|a: int, b: int| 0 <= a < b < changes.len() implies before(
                (#[trigger] self.changes@[a]).path@.subrange(0, self.changes@[a].path@.len() as int),
                (#[trigger] self.changes@[b]).path@.subrange(0, self.changes@[b].path@.len() as int),
            ) by {
                assert(before(changes[a].path, changes[b].path));
            }
            assert(inner_changes(self.changes@, 0, self.changes@.len() as int, 0) =~= changes);
        }
        Ok(rebuild(&self.root, &self.changes, 0, self.changes.len(), 0))
    }
}

/// Whether the element at `a` stands before the element at `b` in the
/// source, neither holding the other.
pub fn path_before(a: &Vec<usize>, b: &Vec<usize>) -> (r: bool)
    ensures
        r == before(a@, b@),
{
    let mut i: usize = 0;
    assert(a@.subrange(0, a.len() as int) =~= a@);
    assert(b@.subrange(0, b.len() as int) =~= b@);
    while i < a.len() && i < b.len() && a[i] == b[i]
        invariant
            i <= a.len(),
            i <= b.len(),
            before(a@, b@) == before(
                a@.subrange(i as int, a.len() as int),
                b@.subrange(i as int, b.len() as int),
            ),
        decreases a.len() - i,
    {
        assert(a@.subrange(i as int, a.len() as int).drop_first() =~= a@.subrange(
            i as int + 1,
            a.len() as int,
        ));
        assert(b@.subrange(i as int, b.len() as int).drop_first() =~= b@.subrange(
            i as int + 1,
            b.len() as int,
        ));
        i += 1;
    }
    i < a.len() && i < b.len() && a[i] < b[i]
}

/// The edits `lo` to `hi` of a list, each with the first `depth` steps of
/// its path taken off.
spec fn inner_changes(changes: Seq<Change>, lo: int, hi: int, depth: int) -> Seq<ChangeModel> {
    Seq::new(
        (hi - lo) as nat,
        |t: int|
            ChangeModel {
                path: changes[lo + t].path@.subrange(depth, changes[lo + t].path@.len() as int),
                new: changes[lo + t].new@,
            },
    )
}

/// Makes the edits `lo` to `hi`, which lie in `element` at `depth` steps
/// from the root and stand in the order of the source, in one pass: a node
/// hands each of its slots the edits that lie in it, and a slot without
/// edits is shared as it is.
fn rebuild(element: &Element, changes: &Vec<Change>, lo: usize, hi: usize, depth: usize) -> (r:
    Element)
    requires
        lo <= hi <= changes.len(),
        forall|m: int| lo <= m < hi ==> depth <= (#[trigger] changes@[m]).path@.len(),
        forall|i: int, j: int|
            lo <= i < j < hi ==> before(
                (#[trigger] changes@[i]).path@.subrange(depth as int, changes@[i].path@.len() as int),
                (#[trigger] changes@[j]).path@.subrange(depth as int, changes@[j].path@.len() as int),
            ),
    ensures
        r@ == apply(element@, inner_changes(changes@, lo as int, hi as int, depth as int)),
    decreases element,
{
    let ghost all = inner_changes(changes@, lo as int, hi as int, depth as int);
    if lo == hi {
        assert(all =~= Seq::<ChangeModel>::empty());
        return element.share();
    }
    if changes[lo].path.len() == depth {
        proof {
            assert(all[0].path.len() == 0);
            if hi > lo + 1 {
                assert(before(
                    changes@[lo as int].path@.subrange(depth as int, changes@[lo as int].path@.len() as int),
                    changes@[lo as int + 1].path@.subrange(
                        depth as int,
                        changes@[lo as int + 1].path@.len() as int,
                    ),
                ));
            }
            assert(all.len() == 1);
            assert(all.drop_last() =~= Seq::<ChangeModel>::empty());
            assert(all.last() == all[0]);
        }
        return changes[lo].new.share();
    }
    proof {
        assert forall|t: int| 0 <= t < all.len() implies (#[trigger] all[t]).path.len() > 0 by {
            if t > 0 {
                assert(before(
                    changes@[lo as int].path@.subrange(depth as int, changes@[lo as int].path@.len() as int),
                    changes@[lo + t].path@.subrange(depth as int, changes@[lo + t].path@.len() as int),
                ));
            }
        }
    }
    proof {
        assert forall|m: int| lo <= m < hi implies depth < (#[trigger] changes@[m]).path@.len() by {
            assert(all[m - lo].path.len() > 0);
        }
    }
    match element {
        Element::Node(n) => {
            let ghost old_slots = slot_views(n.slots@);
            assert(element@ == Tree::Node { kind: n.kind, slots: old_slots });
            let mut slots: Vec<Element> = Vec::new();
            let mut k: usize = lo;
            let mut i: usize = 0;
            while i < n.slots.len()
                invariant
                    i <= n.slots.len(),
                    lo <= k <= hi <= changes.len(),
                    slots.len() == i,
                    decreases_to!(element => n.slots),
                    old_slots == slot_views(n.slots@),
                    all == inner_changes(changes@, lo as int, hi as int, depth as int),
                    forall|t: int| 0 <= t < all.len() ==> (#[trigger] all[t]).path.len() > 0,
                    forall|m: int| lo <= m < hi ==> depth < (#[trigger] changes@[m]).path@.len(),
                    forall|a: int, b: int|
                        lo <= a < b < hi ==> before(
                            (#[trigger] changes@[a]).path@.subrange(
                                depth as int,
                                changes@[a].path@.len() as int,
                            ),
                            (#[trigger] changes@[b]).path@.subrange(
                                depth as int,
                                changes@[b].path@.len() as int,
                            ),
                        ),
                    forall|m: int| lo <= m < k ==> (#[trigger] all[m - lo]).path[0] < i,
                    forall|m: int| k <= m < hi ==> (#[trigger] all[m - lo]).path[0] >= i,
                    forall|j: int| 0 <= j < i ==> (#[trigger] slots@[j])@ == apply(old_slots[j], below(all, j)),
                decreases n.slots.len() - i,
            {
                let start = k;
                while k < hi && changes[k].path[depth] == i
                    invariant
                        lo <= start <= k <= hi <= changes.len(),
                        all == inner_changes(changes@, lo as int, hi as int, depth as int),
                        forall|t: int| 0 <= t < all.len() ==> (#[trigger] all[t]).path.len() > 0,
                        forall|m: int| lo <= m < hi ==> depth < (#[trigger] changes@[m]).path@.len(),
                        forall|m: int| start <= m < k ==> (#[trigger] all[m - lo]).path[0] == i,
                    decreases hi - k,
                {
                    assert(depth < changes@[k as int].path@.len());
                    assert(all[k - lo].path[0] == changes@[k as int].path@[depth as int]);
                    k += 1;
                }
                proof {
                    broadcast use vstd::std_specs::vec::axiom_vec_index_decreases;

                    assert(old_slots[i as int] == n.slots@[i as int]@);
                    assert forall|m: int| k <= m < hi implies (#[trigger] all[m - lo]).path[0] > i by {
                        assert(depth < changes@[k as int].path@.len());
                        assert(all[k - lo].path.len() > 0);
                        assert(all[k - lo].path[0] == changes@[k as int].path@[depth as int]);
                        assert(all[k - lo].path[0] >= i);
                        if m > k {
                            assert(before(
                                changes@[k as int].path@.subrange(
                                    depth as int,
                                    changes@[k as int].path@.len() as int,
                                ),
                                changes@[m].path@.subrange(depth as int, changes@[m].path@.len() as int),
                            ));
                            assert(all[m - lo].path == changes@[m].path@.subrange(
                                depth as int,
                                changes@[m].path@.len() as int,
                            ));
                        }
                    }
                    assert forall|m: int| start <= m < k implies depth + 1 <= (#[trigger] changes@[m]).path@.len() by {
                        assert(all[m - lo].path.len() > 0);
                    }
                    assert forall|a: int, b: int| start <= a < b < k implies before(
                        (#[trigger] changes@[a]).path@.subrange(
                            depth + 1,
                            changes@[a].path@.len() as int,
                        ),
                        (#[trigger] changes@[b]).path@.subrange(
                            depth + 1,
                            changes@[b].path@.len() as int,
                        ),
                    ) by {
                        let pa = changes@[a].path@.subrange(depth as int, changes@[a].path@.len() as int);
                        let pb = changes@[b].path@.subrange(depth as int, changes@[b].path@.len() as int);
                        assert(before(pa, pb));
                        assert(all[a - lo].path == pa && all[b - lo].path == pb);
                        assert(pa[0] == i && pb[0] == i);
                        assert(pa.drop_first() =~= changes@[a].path@.subrange(
                            depth + 1,
                            changes@[a].path@.len() as int,
                        ));
                        assert(pb.drop_first() =~= changes@[b].path@.subrange(
                            depth + 1,
                            changes@[b].path@.len() as int,
                        ));
                    }
                }
                let slot = if start == k {
                    n.slots[i].share()
                } else {
                    assert(depth < changes[start as int].path.len());
                    rebuild(&n.slots[i], changes, start, k, depth + 1)
                };
                proof {
                    assert forall|m: int| 0 <= m < all.len() && !(start - lo <= m < k - lo) implies !((
                    #[trigger] all[m]).path.len() > 0 && all[m].path[0] == i) by {
                        if m < start - lo {
                            assert(all[(m + lo) - lo].path[0] < i);
                        } else {
                            assert(all[(m + lo) - lo].path[0] > i);
                        }
                    }
                    assert forall|m: int| start - lo <= m < k - lo implies (#[trigger] all[m]).path.len() > 0
                        && all[m].path[0] == i by {
                        assert(all[(m + lo) - lo].path[0] == i);
                    }
                    lemma_below_is_range(all, i as int, start - lo, k - lo);
                    assert(below(all, i as int) =~= inner_changes(
                        changes@,
                        start as int,
                        k as int,
                        depth + 1,
                    )) by {
                        assert forall|t: int| 0 <= t < k - start implies (#[trigger] changes@[start + t]).path@.subrange(
                            depth + 1,
                            changes@[start + t].path@.len() as int,
                        ) == all[(start - lo) + t].path.drop_first() by {
                            assert(all[(start - lo) + t].path.drop_first() =~= changes@[start + t].path@.subrange(
                                depth + 1,
                                changes@[start + t].path@.len() as int,
                            ));
                        }
                    }
                }
                assert(slot@ == apply(old_slots[i as int], below(all, i as int)));
                let ghost earlier = slots@;
                slots.push(slot);
                assert(forall|j: int| 0 <= j < i ==> slots@[j] == earlier[j]);
                i += 1;
            }
            proof {
                lemma_apply_in_node(n.kind, old_slots, all);
                assert(slot_views(slots@) =~= Seq::new(
                    old_slots.len(),
                    |j: int| apply(old_slots[j], below(all, j)),
                ));
            }
            Element::Node(Arc::new(Node { kind: n.kind, slots }))
        },
        _ => {
            proof {
                lemma_apply_in_leaf(element@, all);
            }
            element.share()
        },
    }
}

} // verus!
