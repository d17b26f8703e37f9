//! Running one rule over one tree.
use crate::batch::{Handle, HandleModel};
use crate::model::Tree;
use crate::navigate::copy_path;
use crate::query::handle_views;
use crate::rule::{ContextModel, Diagnostic, DiagnosticModel, Rule, RuleContext};
use crate::tree::Element;
use vstd::prelude::*;

verus! {

/// The models of a list of diagnostics.
pub open spec fn diagnostic_views(diagnostics: Seq<Diagnostic>) -> Seq<DiagnosticModel> {
    Seq::new(diagnostics.len(), |i: int| diagnostics[i]@)
}

/// The diagnostics of a rule for a list of matches, in the order of the
/// matches: one for each match that gives a signal and for which the rule
/// has a diagnostic.
pub open spec fn report<R: Rule>(root: Tree, found: Seq<HandleModel>) -> Seq<DiagnosticModel>
    decreases found.len(),
{
    if found.len() == 0 {
        Seq::empty()
    } else {
        let before = report::<R>(root, found.drop_last());
        let ctx = ContextModel { root, node: found.last() };
        if R::signal(ctx) {
            match R::diagnostic_spec(ctx) {
                Some(d) => before.push(d),
                None => before,
            }
        } else {
            before
        }
    }
}

impl Handle {
    /// Another handle on the same element.
    pub fn share(&self) -> (r: Handle)
        ensures
            r@ == self@,
    {
        let path = copy_path(&self.path, self.path.len());
        assert(self.path@.subrange(0, self.path.len() as int) =~= self.path@);
        Handle { path, element: self.element.share() }
    }
}

/// Runs a rule over a tree: queries the tree for the rule's pattern, lets
/// the rule look at each match in source order, and collects the
/// diagnostics. The result depends on the tree and the rule alone, so two
/// runs over one tree give the same diagnostics in the same order.
pub fn analyze<R: Rule>(root: &Element) -> (r: Vec<Diagnostic>)
    ensures
        diagnostic_views(r@) == report::<R>(root@, root@.matches(R::pattern_spec())),
{
    let found = root.query(R::pattern());
    let ghost models = handle_views(found@);
    let mut out: Vec<Diagnostic> = Vec::new();
    let mut i: usize = 0;
    assert(diagnostic_views(out@) =~= Seq::<DiagnosticModel>::empty());
    assert(models.subrange(0, 0) =~= Seq::<HandleModel>::empty());
    while i < found.len()
        invariant
            i <= found.len(),
            models == handle_views(found@),
            diagnostic_views(out@) == report::<R>(root@, models.subrange(0, i as int)),
        decreases found.len() - i,
    {
        let ghost before = diagnostic_views(out@);
        assert(models.subrange(0, i as int + 1).drop_last() =~= models.subrange(0, i as int));
        assert(models.subrange(0, i as int + 1).last() == found@[i as int]@);
        let ctx = RuleContext::new(root.share(), found[i].share());
        match R::run(&ctx) {
            Some(state) => {
                match R::diagnostic(&ctx, &state) {
                    Some(d) => {
                        out.push(d);
                        assert(diagnostic_views(out@) =~= before.push(d@));
                    },
                    None => {},
                }
            },
            None => {},
        }
        i += 1;
    }
    assert(models.subrange(0, found.len() as int) =~= models);
    out
}

} // verus!
