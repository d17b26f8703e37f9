//! The edits of a batch as edits of the text: for each pending edit the
//! stretch of the snapshot's text that it replaces and the text that it puts
//! there.
use crate::batch::{apply, clear_of, BatchModel, ChangeModel, MutationBatch};
use crate::batch_laws::lemma_commit_elsewhere;
use crate::model::{apart, before, lemma_before_apart, Path, Tree};
use crate::navigate::copy_bytes;
use crate::range::{range_in, TextRange};
use vstd::prelude::*;

verus! {

/// One edit of a text: the bytes of `range` give way to `text`. An empty
/// `text` is a removal, an empty range an insertion.
#[derive(Debug)]
pub struct TextEdit {
    pub range: TextRange,
    pub text: Vec<u8>,
}

/// What an edit of a text is: the bytes from `start` up to `end` give way
/// to `text`.
pub ghost struct EditModel {
    pub start: int,
    pub end: int,
    pub text: Seq<u8>,
}

impl View for TextEdit {
    type V = EditModel;

    open spec fn view(&self) -> EditModel {
        EditModel { start: self.range.start as int, end: self.range.end as int, text: self.text@ }
    }
}

/// The models of a list of edits.
pub open spec fn edit_views(edits: Seq<TextEdit>) -> Seq<EditModel> {
    Seq::new(edits.len(), |i: int| edits[i]@)
}

/// The text with one edit made.
pub open spec fn splice(text: Seq<u8>, edit: EditModel) -> Seq<u8> {
    text.subrange(0, edit.start) + edit.text + text.subrange(edit.end, text.len() as int)
}

/// Whether an edit names a stretch of the text.
pub open spec fn fits(text: Seq<u8>, edit: EditModel) -> bool {
    0 <= edit.start <= edit.end <= text.len()
}

/// The text with a list of edits made. The edits are in the order of the
/// source and speak of the text as it was; so the last is made first, and
/// none moves the stretch of one that is still to be made.
pub open spec fn apply_edits(text: Seq<u8>, edits: Seq<EditModel>) -> Seq<u8>
    decreases edits.len(),
{
    if edits.len() == 0 {
        text
    } else {
        splice(apply_edits(text, edits.drop_first()), edits.first())
    }
}

/// Whether each edit, at the time it is made, names a stretch of the text.
pub open spec fn edits_fit(text: Seq<u8>, edits: Seq<EditModel>) -> bool
    decreases edits.len(),
{
    edits.len() == 0 || (edits_fit(text, edits.drop_first()) && fits(
        apply_edits(text, edits.drop_first()),
        edits.first(),
    ))
}

/// The edit of the text that one edit of the tree amounts to.
pub open spec fn edit_of(root: Tree, change: ChangeModel) -> EditModel {
    EditModel {
        start: root.offset_of(change.path),
        end: root.offset_of(change.path) + root.resolve(change.path).unwrap().text().len(),
        text: change.new.text(),
    }
}

/// The edits of the text that the edits of a batch amount to.
pub open spec fn edits_of(root: Tree, changes: Seq<ChangeModel>) -> Seq<EditModel> {
    Seq::new(changes.len(), |i: int| edit_of(root, changes[i]))
}

/// Making one edit first and the others after it gives what the others
/// give on the tree that the one edit gave.
pub proof fn lemma_apply_first(root: Tree, first: ChangeModel, rest: Seq<ChangeModel>)
    ensures
        apply(root, seq![first] + rest) == apply(root.set_at(first.path, first.new), rest),
    decreases rest.len(),
{
    let all = seq![first] + rest;
    if rest.len() == 0 {
        assert(all.drop_last() =~= Seq::<ChangeModel>::empty());
        assert(apply(root, all.drop_last()) == root);
        assert(all.last() == first);
    } else {
        assert(all.drop_last() =~= seq![first] + rest.drop_last());
        assert(all.last() == rest.last());
        lemma_apply_first(root, first, rest.drop_last());
    }
}

/// An edit that is clear of all the others can be made before them or
/// after them.
pub proof fn lemma_apply_commute(root: Tree, first: ChangeModel, rest: Seq<ChangeModel>)
    requires
        clear_of(rest, first.path),
    ensures
        apply(root.set_at(first.path, first.new), rest) == apply(root, rest).set_at(
            first.path,
            first.new,
        ),
    decreases rest.len(),
{
    if rest.len() > 0 {
        let shorter = rest.drop_last();
        let last = rest.last();
        assert forall|i: int| 0 <= i < shorter.len() implies apart(
            (#[trigger] shorter[i]).path,
            first.path,
        ) by {
            assert(shorter[i] == rest[i]);
        }
        lemma_apply_commute(root, first, shorter);
        assert(apart(rest[rest.len() - 1].path, first.path));
        apply(root, shorter).lemma_set_at_commute(first.path, first.new, last.path, last.new);
    }
}

/// Edits behind an element do not move it.
pub proof fn lemma_offset_apply_after(root: Tree, changes: Seq<ChangeModel>, path: Path)
    requires
        forall|i: int| 0 <= i < changes.len() ==> before(path, (#[trigger] changes[i]).path),
    ensures
        apply(root, changes).offset_of(path) == root.offset_of(path),
    decreases changes.len(),
{
    if changes.len() > 0 {
        let shorter = changes.drop_last();
        assert forall|i: int| 0 <= i < shorter.len() implies before(path, (#[trigger] shorter[i]).path) by {
            assert(shorter[i] == changes[i]);
        }
        lemma_offset_apply_after(root, shorter, path);
        assert(before(path, changes[changes.len() - 1].path));
        apply(root, shorter).lemma_offset_set_after(path, changes.last().path, changes.last().new);
    }
}

/// Nothing is lost and nothing is made up in a commit: the text of the
/// committed tree is the text of the snapshot with the edits of the batch
/// made in it, each on the stretch of the element that it replaces, and
/// every byte outside those stretches is kept.
pub proof fn lemma_commit_is_text_edit(batch: BatchModel)
    requires
        batch.wf(),
    ensures
        edits_fit(batch.root.text(), edits_of(batch.root, batch.changes)),
        batch.committed().text() == apply_edits(
            batch.root.text(),
            edits_of(batch.root, batch.changes),
        ),
    decreases batch.changes.len(),
{
    let root = batch.root;
    let changes = batch.changes;
    let edits = edits_of(root, changes);
    if changes.len() > 0 {
        let first = changes.first();
        let rest = changes.drop_first();
        let shorter = BatchModel { changes: rest, ..batch };
        assert forall|i: int| 0 <= i < rest.len() implies rest[i] == changes[i + 1] by {}
        assert(shorter.wf()) by {
            assert forall|i: int| 0 <= i < rest.len() implies root.resolve(
                (#[trigger] rest[i]).path,
            ).is_some() by {
                assert(root.resolve(changes[i + 1].path).is_some());
            }
            assert forall|i: int, j: int| 0 <= i < j < rest.len() implies before(
                (#[trigger] rest[i]).path,
                (#[trigger] rest[j]).path,
            ) by {
                assert(before(changes[i + 1].path, changes[j + 1].path));
            }
        }
        lemma_commit_is_text_edit(shorter);
        assert(edits.drop_first() =~= edits_of(root, rest));
        assert(edits.first() == edit_of(root, first));
        assert forall|i: int| 0 <= i < rest.len() implies before(first.path, (#[trigger] rest[i]).path) by {
            assert(before(changes[0].path, changes[i + 1].path));
        }
        assert(clear_of(rest, first.path)) by {
            assert forall|i: int| 0 <= i < rest.len() implies apart(
                (#[trigger] rest[i]).path,
                first.path,
            ) by {
                lemma_before_apart(first.path, rest[i].path);
            }
        }
        let others = apply(root, rest);
        assert(changes =~= seq![first] + rest);
        lemma_apply_first(root, first, rest);
        lemma_apply_commute(root, first, rest);
        lemma_commit_elsewhere(root, rest, first.path);
        lemma_offset_apply_after(root, rest, first.path);
        assert(root.resolve(changes[0].path).is_some());
        others.lemma_text_of_set_at(first.path, first.new);
    }
}

impl MutationBatch {
    /// The edits of the batch as edits of the snapshot's text, in the order
    /// of the source. Made in that text, they give the text of the tree that
    /// the commit gives. `None` for a poisoned batch, and where a stretch
    /// ends past what a `usize` holds.
    pub fn text_edits(&self) -> (r: Option<Vec<TextEdit>>)
        ensures
            match r {
                Some(edits) => {
                    &&& self@.conflict.is_none()
                    &&& edit_views(edits@) == edits_of(self@.root, self@.changes)
                    &&& apply_edits(self@.root.text(), edit_views(edits@)) == self@.committed().text()
                },
                None => self@.conflict.is_some() || exists|i: int|
                    0 <= i < self@.changes.len() && range_in(
                        self@.root,
                        (#[trigger] self@.changes[i]).path,
                    ).is_none(),
            },
    {
        if self.conflict().is_some() {
            return None;
        }
        let mut out: Vec<TextEdit> = Vec::new();
        let mut i: usize = 0;
        while i < self.len()
            invariant
                i <= self@.changes.len(),
                out.len() == i,
                forall|j: int| 0 <= j < i ==> (#[trigger] out@[j])@ == edit_of(self@.root, self@.changes[j]),
            decreases self@.changes.len() - i,
        {
            let (path, new) = match self.edit(i) {
                Some(e) => e,
                None => {
                    return None;
                },
            };
            let range = match self.snapshot().range_of(&path) {
                Some(r) => r,
                None => {
                    return None;
                },
            };
            proof {
                self@.root.lemma_text_of_resolved(path@);
            }
            let ghost before_push = out@;
            out.push(TextEdit { range, text: new.text() });
            assert(forall|j: int| 0 <= j < i ==> out@[j] == before_push[j]);
            i += 1;
        }
        assert(edit_views(out@) =~= edits_of(self@.root, self@.changes));
        self.know_well_formed();
        proof {
            lemma_commit_is_text_edit(self@);
        }
        Some(out)
    }
}

/// Makes the edits in the text, the last one first. `None` where an edit,
/// at the time it is made, names no stretch of the text.
pub fn apply_text_edits(text: &Vec<u8>, edits: &Vec<TextEdit>) -> (r: Option<Vec<u8>>)
    ensures
        match r {
            Some(t) => edits_fit(text@, edit_views(edits@)) && t@ == apply_edits(
                text@,
                edit_views(edits@),
            ),
            None => !edits_fit(text@, edit_views(edits@)),
        },
{
    let ghost models = edit_views(edits@);
    let mut out = copy_bytes(text);
    let mut i: usize = edits.len();
    assert(models.subrange(i as int, models.len() as int) =~= Seq::<EditModel>::empty());
    while i > 0
        invariant
            i <= edits.len(),
            models == edit_views(edits@),
            edits_fit(text@, models.subrange(i as int, models.len() as int)),
            out@ == apply_edits(text@, models.subrange(i as int, models.len() as int)),
        decreases i,
    {
        let edit = &edits[i - 1];
        let ghost tail = models.subrange(i as int - 1, models.len() as int);
        assert(tail.drop_first() =~= models.subrange(i as int, models.len() as int));
        assert(tail.first() == edit@);
        if edit.range.start > edit.range.end || edit.range.end > out.len() {
            proof {
                lemma_unfit_suffix(text@, models, i as int - 1);
            }
            return None;
        }
        let mut next: Vec<u8> = Vec::new();
        let mut k: usize = 0;
        while k < edit.range.start
            invariant
                k <= edit.range.start <= out.len(),
                next@ == out@.subrange(0, k as int),
            decreases edit.range.start - k,
        {
            next.push(out[k]);
            k += 1;
            assert(out@.subrange(0, k as int) =~= out@.subrange(0, k as int - 1).push(out@[k as int - 1]));
        }
        crate::tree::push_bytes(&mut next, &edit.text);
        k = edit.range.end;
        while k < out.len()
            invariant
                edit.range.end <= k <= out.len(),
                next@ == out@.subrange(0, edit.range.start as int) + edit.text@ + out@.subrange(
                    edit.range.end as int,
                    k as int,
                ),
            decreases out.len() - k,
        {
            next.push(out[k]);
            k += 1;
            assert(out@.subrange(edit.range.end as int, k as int) =~= out@.subrange(
                edit.range.end as int,
                k as int - 1,
            ).push(out@[k as int - 1]));
        }
        out = next;
        i -= 1;
    }
    assert(models.subrange(0, models.len() as int) =~= models);
    Some(out)
}

/// Where the edits from `i` on do not fit, the whole list does not.
proof fn lemma_unfit_suffix(text: Seq<u8>, edits: Seq<EditModel>, i: int)
    requires
        0 <= i <= edits.len(),
        !edits_fit(text, edits.subrange(i, edits.len() as int)),
    ensures
        !edits_fit(text, edits),
    decreases i,
{
    if i == 0 {
        assert(edits.subrange(0, edits.len() as int) =~= edits);
    } else {
        let tail = edits.subrange(i - 1, edits.len() as int);
        assert(tail.drop_first() =~= edits.subrange(i, edits.len() as int));
        lemma_unfit_suffix(text, edits, i - 1);
    }
}

} // verus!
