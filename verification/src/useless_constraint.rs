//! The rule that a type parameter is not to be constrained to `any` or
//! `unknown`: every type is a subtype of both, so such a constraint says
//! nothing, and taking it out changes no program.
use crate::batch::{BatchModel, ChangeModel, HandleModel};
use crate::batch_laws::lemma_commit_effect;
use crate::edits::{apply_edits, edit_of, edits_of, lemma_commit_is_text_edit, splice};
use crate::kinds::{classify, kind_class, KindClass};
use crate::model::Tree;
use crate::query::Pattern;
use crate::range::trimmed_range_in;
use crate::rule::{
    Action, ActionCategory, ActionModel, Applicability, ContextModel, Diagnostic, DiagnosticModel,
    FixKind, Rule, RuleContext, RuleMetadata, Severity, Span, SpanModel,
};
use crate::tree::{slot_views, Element};
use vstd::prelude::*;

verus! {

/// The rule itself. It keeps no state.
pub struct NoUselessTypeConstraint;

/// The slot of a constraint clause that holds the constraining type. Slot 0
/// holds the `extends` keyword.
pub const TYPE_SLOT: usize = 1;

/// Whether `node` is a constraint clause whose type is exactly `any` or
/// exactly `unknown`. A clause whose type is missing is none.
pub open spec fn is_useless_constraint(node: Tree) -> bool {
    &&& node matches Tree::Node { kind, slots }
    &&& kind_class(kind) == KindClass::TypeConstraintClause
    &&& TYPE_SLOT < slots.len()
    &&& slots[TYPE_SLOT as int] matches Tree::Node { kind: ty, .. }
    &&& (kind_class(ty) == KindClass::AnyType || kind_class(ty) == KindClass::UnknownType)
}

/// The message of the diagnostic.
pub open spec fn useless_constraint_message() -> Seq<SpanModel> {
    seq![
        SpanModel { emphasis: false, text: "Constraining a type parameter to "@ },
        SpanModel { emphasis: true, text: "any"@ },
        SpanModel { emphasis: false, text: " or "@ },
        SpanModel { emphasis: true, text: "unknown"@ },
        SpanModel { emphasis: false, text: " is useless."@ },
    ]
}

/// The note of the diagnostic.
pub open spec fn useless_constraint_note() -> Seq<SpanModel> {
    seq![
        SpanModel { emphasis: false, text: "All types are subtypes of "@ },
        SpanModel { emphasis: true, text: "any"@ },
        SpanModel { emphasis: false, text: " and "@ },
        SpanModel { emphasis: true, text: "unknown"@ },
        SpanModel { emphasis: false, text: "."@ },
    ]
}

/// The message of the fix.
pub open spec fn remove_constraint_message() -> Seq<SpanModel> {
    seq![SpanModel { emphasis: false, text: "Remove the constraint."@ }]
}

/// The edits of the fix: the node before the clause loses the blank trivia
/// at its end, and the clause is taken out. There is no fix where no node
/// stands before the clause, where that node holds no token, or where the
/// tree does not hold the clause at the place the handle names.
pub open spec fn fix_batch(root: Tree, node: HandleModel) -> Option<BatchModel> {
    match root.prev_sibling(node.path) {
        Some(before) => match root.resolve(before) {
            Some(prev) => match prev.trim_trailing_trivia() {
                Some(trimmed) => if root.resolve(node.path) == Some(node.element)
                    && node.element is Node {
                    Some(
                        BatchModel {
                            root,
                            changes: seq![
                                ChangeModel { path: before, new: trimmed },
                                ChangeModel { path: node.path, new: Tree::Empty },
                            ],
                            conflict: None,
                        },
                    )
                } else {
                    None
                },
                None => None,
            },
            None => None,
        },
        None => None,
    }
}

impl Rule for NoUselessTypeConstraint {
    type State = ();

    open spec fn pattern_spec() -> Pattern {
        Pattern::Class(KindClass::TypeConstraintClause)
    }

    open spec fn signal(ctx: ContextModel) -> bool {
        is_useless_constraint(ctx.node.element)
    }

    open spec fn diagnostic_spec(ctx: ContextModel) -> Option<DiagnosticModel> {
        match trimmed_range_in(ctx.root, ctx.node.path) {
            Some(range) => Some(
                DiagnosticModel {
                    category: "lint/complexity/noUselessTypeConstraint"@,
                    range,
                    message: useless_constraint_message(),
                    notes: seq![useless_constraint_note()],
                    severity: Severity::Error,
                },
            ),
            None => None,
        }
    }

    open spec fn action_spec(ctx: ContextModel) -> Option<ActionModel> {
        match fix_batch(ctx.root, ctx.node) {
            Some(mutation) => Some(
                ActionModel {
                    category: ActionCategory::QuickFix,
                    applicability: Applicability::Always,
                    message: remove_constraint_message(),
                    mutation,
                },
            ),
            None => None,
        }
    }

    fn metadata() -> (m: RuleMetadata)
        ensures
            m.name@ == "noUselessTypeConstraint"@,
            m.version@ == "1.0.0"@,
            m.recommended,
            m.fix_kind == Some(FixKind::Safe),
    {
        RuleMetadata {
            name: "noUselessTypeConstraint",
            version: "1.0.0",
            recommended: true,
            fix_kind: Some(FixKind::Safe),
        }
    }

    fn pattern() -> (p: Pattern) {
        Pattern::Class(KindClass::TypeConstraintClause)
    }

    fn run(ctx: &RuleContext) -> (state: Option<()>) {
        match &ctx.node.element {
            Element::Node(n) => {
                assert(ctx.node.element@ == Tree::Node {
                    kind: n.kind,
                    slots: slot_views(n.slots@),
                });
                if classify(n.kind) != KindClass::TypeConstraintClause {
                    return None;
                }
                if n.slots.len() <= TYPE_SLOT {
                    return None;
                }
                assert(slot_views(n.slots@)[TYPE_SLOT as int] == n.slots@[TYPE_SLOT as int]@);
                match &n.slots[TYPE_SLOT] {
                    Element::Node(ty) => {
                        let class = classify(ty.kind);
                        if class == KindClass::AnyType || class == KindClass::UnknownType {
                            Some(())
                        } else {
                            None
                        }
                    },
                    _ => None,
                }
            },
            _ => None,
        }
    }

    fn diagnostic(ctx: &RuleContext, state: &()) -> (d: Option<Diagnostic>) {
        let range = match ctx.root.trimmed_range_of(&ctx.node.path) {
            Some(r) => r,
            None => {
                return None;
            },
        };
        let message = vec![
            Span { emphasis: false, text: "Constraining a type parameter to " },
            Span { emphasis: true, text: "any" },
            Span { emphasis: false, text: " or " },
            Span { emphasis: true, text: "unknown" },
            Span { emphasis: false, text: " is useless." },
        ];
        let note = vec![
            Span { emphasis: false, text: "All types are subtypes of " },
            Span { emphasis: true, text: "any" },
            Span { emphasis: false, text: " and " },
            Span { emphasis: true, text: "unknown" },
            Span { emphasis: false, text: "." },
        ];
        let notes = vec![note];
        let d = Diagnostic {
            category: "lint/complexity/noUselessTypeConstraint",
            range,
            message,
            notes,
            severity: Severity::Error,
        };
        assert(d@.message =~= useless_constraint_message());
        assert(d@.notes[0] =~= useless_constraint_note());
        assert(d@.notes =~= seq![useless_constraint_note()]);
        Some(d)
    }

    fn action(ctx: &RuleContext, state: &()) -> (a: Option<Action>) {
        let mut mutation = ctx.root.begin();
        let before = match ctx.root.prev_sibling(&ctx.node.path) {
            Some(p) => p,
            None => {
                return None;
            },
        };
        proof {
            ctx.root@.lemma_prev_sibling(ctx.node.path@);
            ctx.root@.lemma_prev_sibling_before(ctx.node.path@);
        }
        let prev = match ctx.root.handle(&before) {
            Some(h) => h,
            None => {
                return None;
            },
        };
        let trimmed = match prev.element.trim_trailing_trivia() {
            Some(t) => t,
            None => {
                return None;
            },
        };
        let ghost trimmed_model = trimmed@;
        match mutation.replace_element_discard_trivia(&prev, trimmed) {
            Ok(_) => {},
            Err(_) => {
                return None;
            },
        }
        match mutation.remove_node(&ctx.node) {
            Ok(_) => {},
            Err(_) => {
                return None;
            },
        }
        assert(mutation@.changes =~= seq![
            ChangeModel { path: before@, new: trimmed_model },
            ChangeModel { path: ctx.node.path@, new: Tree::Empty },
        ]);
        let message = vec![Span { emphasis: false, text: "Remove the constraint." }];
        let a = Action {
            category: ActionCategory::QuickFix,
            applicability: Applicability::Always,
            message,
            mutation,
        };
        assert(a@.message =~= remove_constraint_message());
        Some(a)
    }
}

/// Where the rule offers a fix, the fix is a well-formed batch of two
/// edits, and after its commit the rule has nothing more to say of the
/// clause: the slot of the clause is empty, so the query does not come by
/// it again, and no handle on that slot gives a signal.
pub proof fn lemma_fix_is_idempotent(ctx: ContextModel, pattern: Pattern)
    requires
        fix_batch(ctx.root, ctx.node).is_some(),
    ensures
        ({
            let fix = fix_batch(ctx.root, ctx.node).unwrap();
            let fixed = fix.committed();
            &&& fix.wf()
            &&& fixed.resolve(ctx.node.path) == Some(Tree::Empty)
            &&& forall|i: int|
                0 <= i < fixed.matches(pattern).len() ==> (#[trigger] fixed.matches(pattern)[i]).path
                    != ctx.node.path
            &&& forall|h: HandleModel|
                h.path == ctx.node.path && fixed.resolve(h.path) == Some(h.element)
                    ==> !is_useless_constraint(#[trigger] h.element)
        }),
{
    let fix = fix_batch(ctx.root, ctx.node).unwrap();
    let fixed = fix.committed();
    ctx.root.lemma_prev_sibling(ctx.node.path);
    ctx.root.lemma_prev_sibling_before(ctx.node.path);
    assert(fix.wf());
    lemma_commit_effect(fix, 1);
    assert forall|i: int| 0 <= i < fixed.matches(pattern).len() implies (#[trigger] fixed.matches(
        pattern,
    )[i]).path != ctx.node.path by {
        fixed.lemma_matches_sound(pattern, i);
    }
}

/// Whether the rule gives a signal depends on the matched clause alone:
/// not on the tree around it, and so not on the sort of declaration that
/// the type parameter belongs to.
pub proof fn lemma_signal_is_local(one: ContextModel, other: ContextModel)
    requires
        one.node.element == other.node.element,
    ensures
        NoUselessTypeConstraint::signal(one) == NoUselessTypeConstraint::signal(other),
{
}

/// What the fix of the rule does to the text. Two stretches are cut out:
/// the blank trivia at the end of the node before the clause, and the
/// clause. Every other byte stays, in its place and once.
pub proof fn lemma_fix_conserves_text(ctx: ContextModel)
    requires
        ctx.root.indexable(),
        fix_batch(ctx.root, ctx.node).is_some(),
    ensures
        ({
            let text = ctx.root.text();
            let before = ctx.root.prev_sibling(ctx.node.path).unwrap();
            let prev = ctx.root.resolve(before).unwrap();
            let prev_end = ctx.root.offset_of(before) + prev.text().len();
            let blank = prev.trailing_blank().len();
            let clause = ctx.root.offset_of(ctx.node.path);
            let clause_end = clause + ctx.node.element.text().len();
            &&& 0 <= prev_end - blank <= prev_end <= clause <= clause_end <= text.len()
            &&& text.subrange(prev_end - blank, prev_end) == prev.trailing_blank()
            &&& text.subrange(clause, clause_end) == ctx.node.element.text()
            &&& fix_batch(ctx.root, ctx.node).unwrap().committed().text() == text.subrange(
                0,
                prev_end - blank,
            ) + text.subrange(prev_end, clause) + text.subrange(clause_end, text.len() as int)
        }),
{
    let root = ctx.root;
    let text = root.text();
    let fix = fix_batch(root, ctx.node).unwrap();
    let before = root.prev_sibling(ctx.node.path).unwrap();
    let prev = root.resolve(before).unwrap();
    let trimmed = prev.trim_trailing_trivia().unwrap();
    let start = root.offset_of(before);
    let prev_end = start + prev.text().len();
    let blank = prev.trailing_blank();
    let clause = root.offset_of(ctx.node.path);
    let clause_end = clause + ctx.node.element.text().len();
    root.lemma_prev_sibling(ctx.node.path);
    root.lemma_prev_sibling_before(ctx.node.path);
    root.lemma_before_in_text(before, ctx.node.path);
    root.lemma_text_of_resolved(before);
    root.lemma_text_of_resolved(ctx.node.path);
    root.lemma_resolve_indexable(before);
    prev.lemma_trim_trailing_trivia_text();
    assert(fix.wf());
    lemma_commit_is_text_edit(fix);
    let edits = edits_of(root, fix.changes);
    let tail = edits.drop_first();
    assert(tail.len() == 1);
    assert(tail.drop_first().len() == 0);
    assert(apply_edits(text, tail.drop_first()) == text);
    assert(tail.first() == edits[1]);
    assert(edits[1] == edit_of(root, fix.changes[1]));
    assert(edits.first() == edit_of(root, fix.changes[0]));
    assert(Tree::Empty.text() =~= Seq::<u8>::empty());
    let cut = apply_edits(text, tail);
    assert(cut == splice(text, edits[1]));
    assert(cut =~= text.subrange(0, clause) + text.subrange(clause_end, text.len() as int));
    assert(prev.text().len() == trimmed.text().len() + blank.len());
    assert(text.subrange(prev_end - blank.len(), prev_end) =~= blank) by {
        assert(text.subrange(start, prev_end) == trimmed.text() + blank);
        assert(text.subrange(prev_end - blank.len(), prev_end) =~= text.subrange(
            start,
            prev_end,
        ).subrange(trimmed.text().len() as int, prev.text().len() as int));
    }
    assert(text.subrange(0, prev_end - blank.len()) =~= text.subrange(0, start) + trimmed.text()) by {
        let whole = text.subrange(start, prev_end);
        assert(whole == trimmed.text() + blank);
        assert(whole.subrange(0, trimmed.text().len() as int) =~= trimmed.text());
        assert(text.subrange(start, prev_end - blank.len()) =~= whole.subrange(
            0,
            trimmed.text().len() as int,
        ));
        assert(text.subrange(0, prev_end - blank.len()) =~= text.subrange(0, start) + text.subrange(
            start,
            prev_end - blank.len(),
        ));
    }
    assert(fix.committed().text() =~= text.subrange(0, prev_end - blank.len()) + text.subrange(
        prev_end,
        clause,
    ) + text.subrange(clause_end, text.len() as int));
}

} // verus!
