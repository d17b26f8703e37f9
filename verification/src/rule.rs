//! What a rule hands to a driver: diagnostics and actions, and the context
//! in which a rule looks at one matched node.
use crate::batch::{BatchModel, Handle, HandleModel, MutationBatch};
use crate::model::Tree;
use crate::query::Pattern;
use crate::range::TextRange;
use crate::tree::Element;
use vstd::prelude::*;

verus! {

/// How grave a diagnostic is.
#[derive(Clone, Copy, Debug, PartialEq, Eq, Structural)]
pub enum Severity {
    Hint,
    Information,
    Warning,
    Error,
}

/// What sort of change an action makes.
#[derive(Clone, Copy, Debug, PartialEq, Eq, Structural)]
pub enum ActionCategory {
    QuickFix,
    Refactor,
    Source,
}

/// How far an automated fix can be relied on.
#[derive(Clone, Copy, Debug, PartialEq, Eq, Structural)]
pub enum Applicability {
    /// The fix never changes what the program does.
    Always,
    /// The fix may change what the program does.
    MaybeIncorrect,
    /// The fix is a proposal for a person to look at.
    ManualOnly,
}

/// The sort of fix that a rule comes with: one that a driver may apply
/// unasked, or one that it may not.
#[derive(Clone, Copy, Debug, PartialEq, Eq, Structural)]
pub enum FixKind {
    Safe,
    Unsafe,
}

/// A stretch of a message, plain or emphasised.
#[derive(Clone, Copy, Debug)]
pub struct Span {
    pub emphasis: bool,
    pub text: &'static str,
}

/// What a span is: its text, and whether it is emphasised.
pub ghost struct SpanModel {
    pub emphasis: bool,
    pub text: Seq<char>,
}

impl View for Span {
    type V = SpanModel;

    open spec fn view(&self) -> SpanModel {
        SpanModel { emphasis: self.emphasis, text: self.text@ }
    }
}

/// The models of the spans of a message.
pub open spec fn span_views(spans: Seq<Span>) -> Seq<SpanModel> {
    Seq::new(spans.len(), |i: int| spans[i]@)
}

/// The models of a list of messages.
pub open spec fn note_views(notes: Seq<Vec<Span>>) -> Seq<Seq<SpanModel>> {
    Seq::new(notes.len(), |i: int| span_views(notes[i]@))
}

/// A located message about one node. It is made once and never changed.
#[derive(Debug)]
pub struct Diagnostic {
    pub category: &'static str,
    pub range: TextRange,
    pub message: Vec<Span>,
    pub notes: Vec<Vec<Span>>,
    pub severity: Severity,
}

/// What a diagnostic is.
pub ghost struct DiagnosticModel {
    pub category: Seq<char>,
    pub range: TextRange,
    pub message: Seq<SpanModel>,
    pub notes: Seq<Seq<SpanModel>>,
    pub severity: Severity,
}

impl View for Diagnostic {
    type V = DiagnosticModel;

    open spec fn view(&self) -> DiagnosticModel {
        DiagnosticModel {
            category: self.category@,
            range: self.range,
            message: span_views(self.message@),
            notes: note_views(self.notes@),
            severity: self.severity,
        }
    }
}

/// A proposed fix: one mutation batch with what a user is told about it.
pub struct Action {
    pub category: ActionCategory,
    pub applicability: Applicability,
    pub message: Vec<Span>,
    pub mutation: MutationBatch,
}

/// What an action is.
pub ghost struct ActionModel {
    pub category: ActionCategory,
    pub applicability: Applicability,
    pub message: Seq<SpanModel>,
    pub mutation: BatchModel,
}

impl View for Action {
    type V = ActionModel;

    open spec fn view(&self) -> ActionModel {
        ActionModel {
            category: self.category,
            applicability: self.applicability,
            message: span_views(self.message@),
            mutation: self.mutation@,
        }
    }
}

/// What a registry of rules keeps about a rule.
#[derive(Clone, Copy, Debug)]
pub struct RuleMetadata {
    pub name: &'static str,
    pub version: &'static str,
    pub recommended: bool,
    pub fix_kind: Option<FixKind>,
}

/// What a rule sees of one match: the tree and the matched node in it.
pub struct RuleContext {
    pub root: Element,
    pub node: Handle,
}

/// What a rule sees of one match.
pub ghost struct ContextModel {
    pub root: Tree,
    pub node: HandleModel,
}

impl View for RuleContext {
    type V = ContextModel;

    open spec fn view(&self) -> ContextModel {
        ContextModel { root: self.root@, node: self.node@ }
    }
}

impl RuleContext {
    /// The context of one match in `root`.
    pub fn new(root: Element, node: Handle) -> (ctx: RuleContext)
        ensures
            ctx@ == (ContextModel { root: root@, node: node@ }),
    {
        RuleContext { root, node }
    }

    /// The matched node.
    pub fn query(&self) -> (h: &Handle)
        ensures
            h@ == self@.node,
    {
        &self.node
    }

    /// The tree that the node was matched in.
    pub fn root(&self) -> (r: &Element)
        ensures
            r@ == self@.root,
    {
        &self.root
    }
}

/// A rule: what it looks for, when it sees a violation in a matched node,
/// what it says of it, and how it would mend it. The three steps are
/// functions of the context alone.
pub trait Rule {
    /// The evidence that `run` hands to the other two steps.
    type State;

    /// The nodes that the rule wants to look at.
    spec fn pattern_spec() -> Pattern;

    /// Whether the matched node violates the rule.
    spec fn signal(ctx: ContextModel) -> bool;

    /// The diagnostic for a match, if one can be placed.
    spec fn diagnostic_spec(ctx: ContextModel) -> Option<DiagnosticModel>;

    /// The fix for a match, if one is known.
    spec fn action_spec(ctx: ContextModel) -> Option<ActionModel>;

    /// What a registry keeps about the rule.
    fn metadata() -> RuleMetadata;

    /// The nodes that the rule wants to look at.
    fn pattern() -> (p: Pattern)
        ensures
            p == Self::pattern_spec(),
    ;

    /// Looks at the matched node and no further. Gives no signal for
    /// anything but an exact match, a malformed node included.
    fn run(ctx: &RuleContext) -> (state: Option<Self::State>)
        ensures
            state.is_some() == Self::signal(ctx@),
    ;

    /// The message for the user.
    fn diagnostic(ctx: &RuleContext, state: &Self::State) -> (d: Option<Diagnostic>)
        ensures
            match d {
                Some(d) => Self::diagnostic_spec(ctx@) == Some(d@),
                None => Self::diagnostic_spec(ctx@).is_none(),
            },
    ;

    /// The fix, where a safe rewrite is known for this match. `None` is no
    /// error: the diagnostic then stands alone. The batch of a fix is begun
    /// on the tree of the context and is ready to be committed.
    fn action(ctx: &RuleContext, state: &Self::State) -> (a: Option<Action>)
        ensures
            match a {
                Some(a) => Self::action_spec(ctx@) == Some(a@) && a@.mutation.wf()
                    && a@.mutation.root == ctx@.root && a@.mutation.conflict.is_none(),
                None => Self::action_spec(ctx@).is_none(),
            },
    ;
}

} // verus!
