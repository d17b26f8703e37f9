//! What holds of every batch: where its edits go, what a commit does to the
//! snapshot, and that two batches on one snapshot do not see each other.
use crate::batch::{apply, clear_of, position, BatchModel, ChangeModel};
use crate::model::{
    apart, before, lemma_apart_before, lemma_before_apart, lemma_before_trans, Path, Tree,
};
use vstd::prelude::*;

verus! {

/// An edit that is clear of the edits of a well-formed batch goes between
/// those that stand before it and those that stand behind it, and the batch
/// stays well-formed.
pub proof fn lemma_insert_keeps_order(batch: BatchModel, path: Path, new: Tree)
    requires
        batch.wf(),
        batch.root.resolve(path).is_some(),
        clear_of(batch.changes, path),
    ensures
        batch.with_change(path, new).wf(),
        0 <= position(batch.changes, path) <= batch.changes.len(),
        forall|k: int|
            0 <= k < position(batch.changes, path) ==> before(
                (#[trigger] batch.changes[k]).path,
                path,
            ),
        forall|k: int|
            position(batch.changes, path) <= k < batch.changes.len() ==> before(
                path,
                (#[trigger] batch.changes[k]).path,
            ),
{
    let changes = batch.changes;
    let at = position(changes, path);
    lemma_position(changes, path);
    assert forall|k: int| 0 <= k < at implies before((#[trigger] changes[k]).path, path) by {
        if k < at - 1 {
            lemma_before_trans(changes[k].path, changes[at - 1].path, path);
        }
    }
    assert forall|k: int| at <= k < changes.len() implies before(path, (#[trigger] changes[k]).path) by {
        assert(apart(changes[k].path, path));
        lemma_apart_before(changes[k].path, path);
    }
    let after = changes.insert(at, ChangeModel { path, new });
    assert forall|i: int, j: int| 0 <= i < j < after.len() implies before(
        (#[trigger] after[i]).path,
        (#[trigger] after[j]).path,
    ) by {
        if i < at && j > at {
            assert(before(changes[i].path, changes[j - 1].path));
        } else if i > at {
            assert(before(changes[i - 1].path, changes[j - 1].path));
        } else if j < at {
            assert(before(changes[i].path, changes[j].path));
        }
    }
    assert forall|i: int| 0 <= i < after.len() implies batch.root.resolve(
        (#[trigger] after[i]).path,
    ).is_some() by {
        if i < at {
            assert(batch.root.resolve(changes[i].path).is_some());
        } else if i > at {
            assert(batch.root.resolve(changes[i - 1].path).is_some());
        }
    }
}

/// The position of an edit lies behind an edit that stands before it, or is
/// the front, and no edit from there on stands before it.
pub proof fn lemma_position(changes: Seq<ChangeModel>, path: Path)
    ensures
        0 <= position(changes, path) <= changes.len(),
        position(changes, path) > 0 ==> before(changes[position(changes, path) - 1].path, path),
        forall|k: int|
            position(changes, path) <= k < changes.len() ==> !before(
                (#[trigger] changes[k]).path,
                path,
            ),
    decreases changes.len(),
{
    if changes.len() > 0 && !before(changes.last().path, path) {
        lemma_position(changes.drop_last(), path);
        assert forall|k: int| position(changes, path) <= k < changes.len() implies !before(
            (#[trigger] changes[k]).path,
            path,
        ) by {
            if k < changes.len() - 1 {
                assert(changes.drop_last()[k] == changes[k]);
            }
        }
    }
}

/// Committing a batch without edits gives the snapshot itself.
pub proof fn lemma_commit_empty(root: Tree)
    ensures
        (BatchModel { root, changes: Seq::empty(), conflict: None }).committed() == root,
{
}

/// What no edit of a batch touches is, after the commit, what it was in the
/// snapshot.
pub proof fn lemma_commit_elsewhere(root: Tree, changes: Seq<ChangeModel>, path: Path)
    requires
        clear_of(changes, path),
    ensures
        apply(root, changes).resolve(path) == root.resolve(path),
    decreases changes.len(),
{
    if changes.len() > 0 {
        let rest = changes.drop_last();
        assert forall|i: int| 0 <= i < rest.len() implies apart((#[trigger] rest[i]).path, path) by {
            assert(rest[i] == changes[i]);
        }
        lemma_commit_elsewhere(root, rest, path);
        assert(apart(changes[changes.len() - 1].path, path));
        apply(root, rest).lemma_resolve_set_apart(changes.last().path, changes.last().new, path);
    }
}

/// After the commit of a well-formed batch, every edit has taken effect:
/// the slot that it names holds the element that it proposed.
pub proof fn lemma_commit_effect(batch: BatchModel, i: int)
    requires
        batch.wf(),
        0 <= i < batch.changes.len(),
    ensures
        batch.committed().resolve(batch.changes[i].path) == Some(batch.changes[i].new),
    decreases batch.changes.len(),
{
    let changes = batch.changes;
    let rest = changes.drop_last();
    let last = changes.last();
    let target = changes[i].path;
    let shorter = BatchModel { changes: rest, ..batch };
    assert forall|j: int| 0 <= j < rest.len() implies rest[j] == changes[j] by {}
    if i == changes.len() - 1 {
        assert forall|j: int| 0 <= j < rest.len() implies apart((#[trigger] rest[j]).path, target) by {
            lemma_before_apart(changes[j].path, changes[i].path);
        }
        lemma_commit_elsewhere(batch.root, rest, target);
        assert(batch.root.resolve(changes[i].path).is_some());
        apply(batch.root, rest).lemma_resolve_set_same(target, last.new);
    } else {
        assert(shorter.wf()) by {
            assert forall|j: int| 0 <= j < rest.len() implies batch.root.resolve(
                (#[trigger] rest[j]).path,
            ).is_some() by {
                assert(batch.root.resolve(changes[j].path).is_some());
            }
            assert forall|j: int, k: int| 0 <= j < k < rest.len() implies before(
                (#[trigger] rest[j]).path,
                (#[trigger] rest[k]).path,
            ) by {
                assert(before(changes[j].path, changes[k].path));
            }
        }
        lemma_commit_effect(shorter, i);
        lemma_before_apart(changes[i].path, changes[changes.len() - 1].path);
        apply(batch.root, rest).lemma_resolve_set_apart(last.path, last.new, target);
    }
}

/// The last two edits of a well-formed batch can change places: the commit
/// gives the same tree.
pub proof fn lemma_commit_order(root: Tree, changes: Seq<ChangeModel>, a: ChangeModel, b: ChangeModel)
    requires
        apart(a.path, b.path),
    ensures
        apply(root, changes.push(a).push(b)) == apply(root, changes.push(b).push(a)),
{
    let ab = changes.push(a).push(b);
    let ba = changes.push(b).push(a);
    assert(ab.drop_last() =~= changes.push(a) && ab.last() == b);
    assert(ba.drop_last() =~= changes.push(b) && ba.last() == a);
    assert(changes.push(a).drop_last() =~= changes && changes.push(a).last() == a);
    assert(changes.push(b).drop_last() =~= changes && changes.push(b).last() == b);
    assert(apply(root, changes.push(a)) == apply(root, changes).set_at(a.path, a.new));
    assert(apply(root, changes.push(b)) == apply(root, changes).set_at(b.path, b.new));
    assert(apply(root, ab) == apply(root, changes.push(a)).set_at(b.path, b.new));
    assert(apply(root, ba) == apply(root, changes.push(b)).set_at(a.path, a.new));
    apply(root, changes).lemma_set_at_commute(a.path, a.new, b.path, b.new);
}

/// Two batches begun on one snapshot do not see each other. Whatever the
/// first one holds and whether or not it was committed, the commit of the
/// second puts each of its edits where the snapshot had the slot, and
/// leaves every path that its own edits do not touch as the snapshot had
/// it: nothing is moved onto the tree that the first batch gave.
pub proof fn lemma_snapshot_isolation(first: BatchModel, second: BatchModel)
    requires
        first.wf(),
        second.wf(),
        first.root == second.root,
    ensures
        second.committed() == apply(first.root, second.changes),
        forall|i: int|
            0 <= i < second.changes.len() ==> second.committed().resolve(
                (#[trigger] second.changes[i]).path,
            ) == Some(second.changes[i].new),
        forall|path: Path|
            clear_of(second.changes, path) ==> #[trigger] second.committed().resolve(path)
                == first.root.resolve(path),
{
    assert forall|i: int| 0 <= i < second.changes.len() implies second.committed().resolve(
        (#[trigger] second.changes[i]).path,
    ) == Some(second.changes[i].new) by {
        lemma_commit_effect(second, i);
    }
    assert forall|path: Path| clear_of(second.changes, path) implies #[trigger] second.committed().resolve(
        path,
    ) == first.root.resolve(path) by {
        lemma_commit_elsewhere(second.root, second.changes, path);
    }
}

/// The edits of a list that lie in slot `slot` of the node they are made
/// on, each as an edit of what that slot holds.
pub open spec fn below(changes: Seq<ChangeModel>, slot: int) -> Seq<ChangeModel>
    decreases changes.len(),
{
    if changes.len() == 0 {
        Seq::empty()
    } else {
        let rest = below(changes.drop_last(), slot);
        let c = changes.last();
        if c.path.len() > 0 && c.path[0] == slot {
            rest.push(ChangeModel { path: c.path.drop_first(), new: c.new })
        } else {
            rest
        }
    }
}

/// Edits on a node, none of them on the node itself, are edits on its
/// slots: each slot takes the edits that lie in it, and the slots do not
/// see each other.
pub proof fn lemma_apply_in_node(kind: u16, slots: Seq<Tree>, changes: Seq<ChangeModel>)
    requires
        forall|i: int| 0 <= i < changes.len() ==> (#[trigger] changes[i]).path.len() > 0,
    ensures
        apply(Tree::Node { kind, slots }, changes) == (Tree::Node {
            kind,
            slots: Seq::new(slots.len(), |i: int| apply(slots[i], below(changes, i))),
        }),
    decreases changes.len(),
{
    let node = Tree::Node { kind, slots };
    let after = Seq::new(slots.len(), |i: int| apply(slots[i], below(changes, i)));
    if changes.len() == 0 {
        assert(after =~= slots);
    } else {
        let rest = changes.drop_last();
        let c = changes.last();
        assert forall|i: int| 0 <= i < rest.len() implies (#[trigger] rest[i]).path.len() > 0 by {
            assert(rest[i] == changes[i]);
        }
        lemma_apply_in_node(kind, slots, rest);
        let earlier = Seq::new(slots.len(), |i: int| apply(slots[i], below(rest, i)));
        assert(changes[changes.len() - 1].path.len() > 0);
        let j = c.path[0] as int;
        if j < slots.len() {
            let inner = ChangeModel { path: c.path.drop_first(), new: c.new };
            assert(below(changes, j) == below(rest, j).push(inner));
            assert(below(rest, j).push(inner).drop_last() =~= below(rest, j));
            assert(after =~= earlier.update(j, earlier[j].set_at(c.path.drop_first(), c.new)));
        } else {
            assert(after =~= earlier);
        }
    }
}

/// Edits below an element that is no node change nothing.
pub proof fn lemma_apply_in_leaf(tree: Tree, changes: Seq<ChangeModel>)
    requires
        !(tree is Node),
        forall|i: int| 0 <= i < changes.len() ==> (#[trigger] changes[i]).path.len() > 0,
    ensures
        apply(tree, changes) == tree,
    decreases changes.len(),
{
    if changes.len() > 0 {
        let rest = changes.drop_last();
        assert forall|i: int| 0 <= i < rest.len() implies (#[trigger] rest[i]).path.len() > 0 by {
            assert(rest[i] == changes[i]);
        }
        lemma_apply_in_leaf(tree, rest);
        assert(changes[changes.len() - 1].path.len() > 0);
    }
}

/// Where the edits that lie in a slot stand side by side in the list, they
/// are the edits of that slot.
pub proof fn lemma_below_is_range(changes: Seq<ChangeModel>, slot: int, a: int, b: int)
    requires
        0 <= a <= b <= changes.len(),
        forall|m: int| a <= m < b ==> (#[trigger] changes[m]).path.len() > 0 && changes[m].path[0] == slot,
        forall|m: int|
            0 <= m < changes.len() && !(a <= m < b) ==> !((#[trigger] changes[m]).path.len() > 0
                && changes[m].path[0] == slot),
    ensures
        below(changes, slot) == Seq::new(
            (b - a) as nat,
            |t: int| ChangeModel { path: changes[a + t].path.drop_first(), new: changes[a + t].new },
        ),
    decreases changes.len(),
{
    let range = Seq::new(
        (b - a) as nat,
        |t: int| ChangeModel { path: changes[a + t].path.drop_first(), new: changes[a + t].new },
    );
    if changes.len() == 0 {
        assert(range =~= Seq::<ChangeModel>::empty());
    } else {
        let rest = changes.drop_last();
        let last = changes.len() - 1;
        assert forall|m: int| 0 <= m < rest.len() implies (#[trigger] rest[m]) == changes[m] by {}
        if a < b && b == changes.len() {
            lemma_below_is_range(rest, slot, a, b - 1);
            assert(changes[last].path.len() > 0 && changes[last].path[0] == slot);
            assert(below(changes, slot) =~= range);
        } else {
            let a2 = if a > last { last } else { a };
            let b2 = if b > last { last } else { b };
            lemma_below_is_range(rest, slot, a2, b2);
            assert(!(changes[last].path.len() > 0 && changes[last].path[0] == slot));
            assert(below(changes, slot) =~= range);
        }
    }
}

} // verus!
