//! The query engine: the nodes of a tree that a pattern accepts, in
//! pre-order, which is the order of the source.
use crate::batch::{Handle, HandleModel};
use crate::kinds::{classify, kind_class, KindClass};
use crate::model::{before, Path, Tree};
use crate::navigate::copy_path;
use crate::tree::{slot_views, Element};
use vstd::prelude::*;

verus! {

/// What a rule looks for.
#[derive(Clone, Copy, Debug, PartialEq, Eq, Structural)]
pub enum Pattern {
    /// Every node with this kind tag.
    Kind(u16),
    /// Every node whose kind tag is of this class.
    Class(KindClass),
}

impl Pattern {
    /// Whether the pattern accepts a node of kind `kind`.
    pub open spec fn accepts(self, kind: u16) -> bool {
        match self {
            Pattern::Kind(k) => kind == k,
            Pattern::Class(c) => kind_class(kind) == c,
        }
    }

    /// Whether the pattern accepts a node of kind `kind`.
    pub fn matches(&self, kind: u16) -> (b: bool)
        ensures
            b == self.accepts(kind),
    {
        match self {
            Pattern::Kind(k) => kind == *k,
            Pattern::Class(c) => classify(kind) == *c,
        }
    }
}

/// The matches in the slots of a row from slot `from` on, slot by slot. The
/// row is the slots of the node at `prefix`.
pub open spec fn found_in(slots: Seq<Tree>, pattern: Pattern, prefix: Path, from: nat) -> Seq<
    HandleModel,
>
    decreases slots, slots.len() - from,
{
    if from >= slots.len() || from > usize::MAX {
        Seq::empty()
    } else {
        slots[from as int].found(pattern, prefix.push(from as usize)) + found_in(
            slots,
            pattern,
            prefix,
            from + 1,
        )
    }
}

impl Tree {
    /// The nodes of this tree that the pattern accepts, in pre-order: a
    /// node before what its slots hold, and the slots from first to last.
    /// `prefix` is the path at which this tree stands in its root.
    pub open spec fn found(self, pattern: Pattern, prefix: Path) -> Seq<HandleModel>
        decreases self, 0nat,
    {
        match self {
            Tree::Node { kind, slots } => (if pattern.accepts(kind) {
                seq![HandleModel { path: prefix, element: self }]
            } else {
                Seq::empty()
            }) + found_in(slots, pattern, prefix, 0),
            _ => Seq::empty(),
        }
    }

    /// The matches of a pattern in a whole tree.
    pub open spec fn matches(self, pattern: Pattern) -> Seq<HandleModel> {
        self.found(pattern, Seq::empty())
    }
}

/// The models of a list of handles.
pub open spec fn handle_views(handles: Seq<Handle>) -> Seq<HandleModel> {
    Seq::new(handles.len(), |i: int| handles[i]@)
}

impl Element {
    fn collect(&self, pattern: Pattern, prefix: &mut Vec<usize>, out: &mut Vec<Handle>)
        ensures
            final(prefix)@ == old(prefix)@,
            handle_views(final(out)@) == handle_views(old(out)@) + self@.found(pattern, old(prefix)@),
        decreases self,
    {
        match self {
            Element::Node(n) => {
                let ghost slots = slot_views(n.slots@);
                let ghost before = handle_views(out@);
                if pattern.matches(n.kind) {
                    let path = copy_path(prefix, prefix.len());
                    assert(prefix@.subrange(0, prefix.len() as int) =~= prefix@);
                    out.push(Handle { path, element: self.share() });
                    assert(handle_views(out@) =~= before + seq![
                        HandleModel { path: prefix@, element: self@ },
                    ]);
                } else {
                    assert(handle_views(out@) =~= before + Seq::<HandleModel>::empty());
                }
                let ghost head = handle_views(out@);
                let mut i: usize = 0;
                while i < n.slots.len()
                    invariant
                        i <= n.slots.len(),
                        decreases_to!(self => n.slots),
                        slots == slot_views(n.slots@),
                        prefix@ == old(prefix)@,
                        handle_views(out@) + found_in(slots, pattern, prefix@, i as nat) == head
                            + found_in(slots, pattern, prefix@, 0),
                    decreases n.slots.len() - i,
                {
                    proof {
                        broadcast use vstd::std_specs::vec::axiom_vec_index_decreases;

                        assert(slots[i as int] == n.slots@[i as int]@);
                    }
                    let ghost collected = handle_views(out@);
                    let ghost rest = found_in(slots, pattern, prefix@, i as nat + 1);
                    let ghost here = slots[i as int].found(pattern, prefix@.push(i));
                    prefix.push(i);
                    n.slots[i].collect(pattern, prefix, out);
                    prefix.pop();
                    assert(prefix@ =~= old(prefix)@);
                    assert((collected + here) + rest =~= collected + (here + rest));
                    i += 1;
                }
                assert(handle_views(out@) =~= handle_views(out@) + Seq::<HandleModel>::empty());
                assert(head + found_in(slots, pattern, prefix@, 0) =~= before + self@.found(
                    pattern,
                    prefix@,
                ));
            },
            _ => {
                assert(handle_views(out@) =~= handle_views(out@) + Seq::<HandleModel>::empty());
            },
        }
    }

    /// The nodes of this tree that the pattern accepts, each with its path
    /// from the root, in pre-order. Nothing matching gives the empty list.
    pub fn query(&self, pattern: Pattern) -> (r: Vec<Handle>)
        ensures
            handle_views(r@) == self@.matches(pattern),
            r@.len() == self@.matches(pattern).len(),
    {
        let mut prefix: Vec<usize> = Vec::new();
        let mut out: Vec<Handle> = Vec::new();
        self.collect(pattern, &mut prefix, &mut out);
        assert(handle_views(Seq::<Handle>::empty()) =~= Seq::<HandleModel>::empty());
        assert(Seq::<HandleModel>::empty() + self@.matches(pattern) =~= self@.matches(pattern));
        assert(handle_views(out@).len() == out@.len());
        out
    }
}

/// Every match found in a row lies in one of its slots, at or behind
/// `from`: its path goes on from `prefix` by the index of that slot, and
/// what is left of the path leads, in that slot, to the matched node.
pub proof fn lemma_found_in_sound(
    slots: Seq<Tree>,
    pattern: Pattern,
    prefix: Path,
    from: nat,
    i: int,
)
    requires
        0 <= i < found_in(slots, pattern, prefix, from).len(),
    ensures
        ({
            let h = found_in(slots, pattern, prefix, from)[i];
            let n = prefix.len() as int;
            &&& prefix.is_prefix_of(h.path)
            &&& h.path.len() > n
            &&& from <= h.path[n] < slots.len()
            &&& slots[h.path[n] as int].resolve(h.path.subrange(n + 1, h.path.len() as int))
                == Some(h.element)
            &&& h.element matches Tree::Node { kind, .. } && pattern.accepts(kind)
        }),
    decreases slots, slots.len() - from,
{
    let here = slots[from as int].found(pattern, prefix.push(from as usize));
    let n = prefix.len() as int;
    if i < here.len() {
        slots[from as int].lemma_found_sound(pattern, prefix.push(from as usize), i);
        let h = here[i];
        let longer = prefix.push(from as usize);
        assert(h.path.subrange(0, n + 1) == longer);
        assert(h.path[n] == longer[n]);
        assert(prefix =~= h.path.subrange(0, n)) by {
            assert forall|j: int| 0 <= j < n implies prefix[j] == h.path[j] by {
                assert(longer[j] == h.path.subrange(0, n + 1)[j]);
            }
        }
    } else {
        lemma_found_in_sound(slots, pattern, prefix, from + 1, i - here.len());
    }
}

impl Tree {
    /// Every match is a node that the pattern accepts, and its path, past
    /// `prefix`, leads to it.
    pub proof fn lemma_found_sound(self, pattern: Pattern, prefix: Path, i: int)
        requires
            0 <= i < self.found(pattern, prefix).len(),
        ensures
            ({
                let h = self.found(pattern, prefix)[i];
                &&& prefix.is_prefix_of(h.path)
                &&& self.resolve(h.path.subrange(prefix.len() as int, h.path.len() as int))
                    == Some(h.element)
                &&& h.element matches Tree::Node { kind, .. } && pattern.accepts(kind)
            }),
        decreases self, 0nat,
    {
        match self {
            Tree::Node { kind, slots } => {
                let n = prefix.len() as int;
                let head = if pattern.accepts(kind) {
                    seq![HandleModel { path: prefix, element: self }]
                } else {
                    Seq::empty()
                };
                if i < head.len() {
                    assert(prefix.subrange(n, n) =~= Seq::<usize>::empty());
                    assert(prefix =~= prefix.subrange(0, n));
                } else {
                    lemma_found_in_sound(slots, pattern, prefix, 0, i - head.len());
                    let h = self.found(pattern, prefix)[i];
                    let rest = h.path.subrange(n, h.path.len() as int);
                    assert(rest.drop_first() =~= h.path.subrange(n + 1, h.path.len() as int));
                    assert(rest[0] == h.path[n]);
                }
            },
            _ => {},
        }
    }

    /// Every match of a pattern in a whole tree is a node of the tree that
    /// the pattern accepts, found at the path that its handle gives.
    pub proof fn lemma_matches_sound(self, pattern: Pattern, i: int)
        requires
            0 <= i < self.matches(pattern).len(),
        ensures
            ({
                let h = self.matches(pattern)[i];
                &&& self.resolve(h.path) == Some(h.element)
                &&& h.element matches Tree::Node { kind, .. } && pattern.accepts(kind)
            }),
    {
        self.lemma_found_sound(pattern, Seq::empty(), i);
        let h = self.matches(pattern)[i];
        assert(h.path.subrange(0, h.path.len() as int) =~= h.path);
    }

    /// Every node that the pattern accepts is among the matches.
    pub proof fn lemma_found_complete(self, pattern: Pattern, prefix: Path, path: Path)
        requires
            self.resolve(path) matches Some(Tree::Node { kind, .. }) && pattern.accepts(kind),
        ensures
            self.found(pattern, prefix).contains(
                HandleModel { path: prefix + path, element: self.resolve(path).unwrap() },
            ),
        decreases path.len(),
    {
        let target = HandleModel { path: prefix + path, element: self.resolve(path).unwrap() };
        match self {
            Tree::Node { kind, slots } => {
                let head = if pattern.accepts(kind) {
                    seq![HandleModel { path: prefix, element: self }]
                } else {
                    Seq::empty()
                };
                let row = found_in(slots, pattern, prefix, 0);
                if path.len() == 0 {
                    assert(prefix + path =~= prefix);
                    assert((head + row)[0] == target);
                } else {
                    let k = path[0];
                    slots[k as int].lemma_found_complete(pattern, prefix.push(k), path.drop_first());
                    assert(prefix.push(k) + path.drop_first() =~= prefix + path);
                    lemma_found_in_complete(slots, pattern, prefix, 0, k, target);
                    let j = choose|j: int| 0 <= j < row.len() && row[j] == target;
                    assert((head + row)[head.len() + j] == target);
                }
            },
            _ => {},
        }
    }

    /// Every node of a tree that the pattern accepts is among the matches of
    /// the pattern in the tree, under its own path.
    pub proof fn lemma_matches_complete(self, pattern: Pattern, path: Path)
        requires
            self.resolve(path) matches Some(Tree::Node { kind, .. }) && pattern.accepts(kind),
        ensures
            self.matches(pattern).contains(
                HandleModel { path, element: self.resolve(path).unwrap() },
            ),
    {
        self.lemma_found_complete(pattern, Seq::empty(), path);
        assert(Seq::<usize>::empty() + path =~= path);
    }
}

/// What is found in slot `k` of a row is found in the row.
pub proof fn lemma_found_in_complete(
    slots: Seq<Tree>,
    pattern: Pattern,
    prefix: Path,
    from: nat,
    k: usize,
    target: HandleModel,
)
    requires
        from <= k < slots.len(),
        slots[k as int].found(pattern, prefix.push(k)).contains(target),
    ensures
        found_in(slots, pattern, prefix, from).contains(target),
    decreases slots.len() - from,
{
    let here = slots[from as int].found(pattern, prefix.push(from as usize));
    let rest = found_in(slots, pattern, prefix, from + 1);
    if from == k {
        let j = choose|j: int| 0 <= j < here.len() && here[j] == target;
        assert((here + rest)[j] == target);
    } else {
        lemma_found_in_complete(slots, pattern, prefix, from + 1, k, target);
        let j = choose|j: int| 0 <= j < rest.len() && rest[j] == target;
        assert((here + rest)[here.len() + j] == target);
    }
}

/// The element at `p` comes before the element at `q` in pre-order: it
/// holds the other, or it stands before it in the source.
pub open spec fn precedes(p: Path, q: Path) -> bool
    decreases p.len(),
{
    q.len() > 0 && (p.len() == 0 || p[0] < q[0] || (p[0] == q[0] && precedes(
        p.drop_first(),
        q.drop_first(),
    )))
}

/// What comes before another element in pre-order lies on the way to it or
/// stands before it in the source, and is not the same element.
pub proof fn lemma_precedes(p: Path, q: Path)
    requires
        precedes(p, q),
    ensures
        p != q,
        p.is_prefix_of(q) || before(p, q),
    decreases p.len(),
{
    if p.len() == 0 {
        assert(p =~= q.subrange(0, 0));
    } else if p[0] == q[0] {
        lemma_precedes(p.drop_first(), q.drop_first());
        if p.drop_first().is_prefix_of(q.drop_first()) {
            assert(p =~= q.subrange(0, p.len() as int)) by {
                assert forall|i: int| 0 <= i < p.len() implies p[i] == q[i] by {
                    if i > 0 {
                        assert(p.drop_first()[i - 1] == q.drop_first().subrange(
                            0,
                            p.len() - 1,
                        )[i - 1]);
                    }
                }
            }
        }
        if p == q {
            assert(p.drop_first() == q.drop_first());
        }
    }
}

/// The matches found in a row come in pre-order.
pub proof fn lemma_found_in_order(
    slots: Seq<Tree>,
    pattern: Pattern,
    prefix: Path,
    from: nat,
    i: int,
    j: int,
)
    requires
        0 <= i < j < found_in(slots, pattern, prefix, from).len(),
    ensures
        ({
            let n = prefix.len() as int;
            let p = found_in(slots, pattern, prefix, from)[i].path;
            let q = found_in(slots, pattern, prefix, from)[j].path;
            precedes(p.subrange(n, p.len() as int), q.subrange(n, q.len() as int))
        }),
    decreases slots, slots.len() - from,
{
    let n = prefix.len() as int;
    let here = slots[from as int].found(pattern, prefix.push(from as usize));
    let all = found_in(slots, pattern, prefix, from);
    let p = all[i].path;
    let q = all[j].path;
    let a = p.subrange(n, p.len() as int);
    let b = q.subrange(n, q.len() as int);
    lemma_found_in_sound(slots, pattern, prefix, from, i);
    lemma_found_in_sound(slots, pattern, prefix, from, j);
    assert(a[0] == p[n] && b[0] == q[n]);
    if j < here.len() {
        slots[from as int].lemma_found_order(pattern, prefix.push(from as usize), i, j);
        slots[from as int].lemma_found_sound(pattern, prefix.push(from as usize), i);
        slots[from as int].lemma_found_sound(pattern, prefix.push(from as usize), j);
        let longer = prefix.push(from as usize);
        assert(p.subrange(0, n + 1)[n] == longer[n]);
        assert(q.subrange(0, n + 1)[n] == longer[n]);
        assert(a.drop_first() =~= p.subrange(n + 1, p.len() as int));
        assert(b.drop_first() =~= q.subrange(n + 1, q.len() as int));
    } else if i < here.len() {
        slots[from as int].lemma_found_sound(pattern, prefix.push(from as usize), i);
        let longer = prefix.push(from as usize);
        assert(p.subrange(0, n + 1)[n] == longer[n]);
        lemma_found_in_sound(slots, pattern, prefix, from + 1, j - here.len());
    } else {
        lemma_found_in_order(slots, pattern, prefix, from + 1, i - here.len(), j - here.len());
    }
}

impl Tree {
    /// The matches come in pre-order.
    pub proof fn lemma_found_order(self, pattern: Pattern, prefix: Path, i: int, j: int)
        requires
            0 <= i < j < self.found(pattern, prefix).len(),
        ensures
            ({
                let n = prefix.len() as int;
                let p = self.found(pattern, prefix)[i].path;
                let q = self.found(pattern, prefix)[j].path;
                precedes(p.subrange(n, p.len() as int), q.subrange(n, q.len() as int))
            }),
        decreases self, 0nat,
    {
        match self {
            Tree::Node { kind, slots } => {
                let n = prefix.len() as int;
                let head = if pattern.accepts(kind) {
                    seq![HandleModel { path: prefix, element: self }]
                } else {
                    Seq::empty()
                };
                if i < head.len() {
                    lemma_found_in_sound(slots, pattern, prefix, 0, j - head.len());
                    assert(prefix.subrange(n, n).len() == 0);
                } else {
                    lemma_found_in_order(slots, pattern, prefix, 0, i - head.len(), j - head.len());
                }
            },
            _ => {},
        }
    }

    /// The matches of a pattern in a tree come in the order of the source:
    /// of two matches, the earlier holds the later or stands before it.
    pub proof fn lemma_matches_in_source_order(self, pattern: Pattern, i: int, j: int)
        requires
            0 <= i < j < self.matches(pattern).len(),
        ensures
            ({
                let p = self.matches(pattern)[i].path;
                let q = self.matches(pattern)[j].path;
                &&& p != q
                &&& p.is_prefix_of(q) || before(p, q)
            }),
    {
        let p = self.matches(pattern)[i].path;
        let q = self.matches(pattern)[j].path;
        self.lemma_found_order(pattern, Seq::empty(), i, j);
        assert(p.subrange(0, p.len() as int) =~= p);
        assert(q.subrange(0, q.len() as int) =~= q);
        lemma_precedes(p, q);
    }
}

} // verus!
