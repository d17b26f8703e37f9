//! The kind tags of the JavaScript and TypeScript grammar, as far as the
//! rules of this library tell them apart. The tags themselves are the raw
//! kinds of `biome_js_syntax`, so that a tree of this library and a tree of
//! that crate number their kinds alike.
use biome_js_syntax::JsSyntaxKind;
use vstd::prelude::*;

verus! {

/// What a rule needs to know of a kind tag.
#[derive(Clone, Copy, Debug, PartialEq, Eq, Structural)]
pub enum KindClass {
    /// The `extends X` clause of a type parameter.
    TypeConstraintClause,
    /// The type `any`.
    AnyType,
    /// The type `unknown`.
    UnknownType,
    /// Every other kind.
    Other,
}

/// The greatest raw kind that `JsSyntaxKind` has a variant for.
pub const LAST_JS_KIND: u16 = 500;

/// The class of the `JsSyntaxKind` variant whose raw kind is `raw`. Which
/// number stands for which variant is laid down by the order of the
/// variants in `biome_js_syntax` and is not restated here.
pub uninterp spec fn js_kind_class(raw: u16) -> KindClass;

/// The class of a kind tag: that of its `JsSyntaxKind` variant, and `Other`
/// for a tag that no variant has.
pub open spec fn kind_class(raw: u16) -> KindClass {
    if raw <= LAST_JS_KIND {
        js_kind_class(raw)
    } else {
        KindClass::Other
    }
}

/// `JsSyntaxKind::from(u16)` of `biome_js_syntax`, which panics past the
/// last variant, followed by a match that tells three of the variants from
/// the rest. The result depends on `raw` alone.
#[verifier::external_body]
fn class_of_variant(raw: u16) -> (c: KindClass)
    requires
        raw <= LAST_JS_KIND,
    ensures
        c == js_kind_class(raw),
{
    match JsSyntaxKind::from(raw) {
        JsSyntaxKind::TS_TYPE_CONSTRAINT_CLAUSE => KindClass::TypeConstraintClause,
        JsSyntaxKind::TS_ANY_TYPE => KindClass::AnyType,
        JsSyntaxKind::TS_UNKNOWN_TYPE => KindClass::UnknownType,
        _ => KindClass::Other,
    }
}

/// The class of a kind tag.
pub fn classify(raw: u16) -> (c: KindClass)
    ensures
        c == kind_class(raw),
{
    if raw <= LAST_JS_KIND {
        class_of_variant(raw)
    } else {
        KindClass::Other
    }
}

} // verus!
