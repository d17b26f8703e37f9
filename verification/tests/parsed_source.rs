use biome_js_parser::{parse, JsParserOptions};
use biome_js_syntax::{JsFileSource, JsSyntaxKind, JsSyntaxNode, JsSyntaxToken};
use biome_rowan::{AstNode, SyntaxSlot, TriviaPieceKind};
use std::sync::Arc;
use syntax_rules::kinds::{classify, KindClass, LAST_JS_KIND};
use syntax_rules::range::TextRange;
use syntax_rules::rule::{Rule, RuleContext};
use syntax_rules::tree::{Element, Node, Token, Trivia, TriviaKind};
use syntax_rules::useless_constraint::NoUselessTypeConstraint;

fn trivia_kind(kind: TriviaPieceKind) -> TriviaKind {
    match kind {
        TriviaPieceKind::Newline => TriviaKind::Newline,
        TriviaPieceKind::Whitespace => TriviaKind::Whitespace,
        TriviaPieceKind::SingleLineComment => TriviaKind::SingleLineComment,
        TriviaPieceKind::MultiLineComment => TriviaKind::MultiLineComment,
        TriviaPieceKind::Skipped => TriviaKind::Skipped,
    }
}

fn token_of(token: &JsSyntaxToken) -> Element {
    let leading = token
        .leading_trivia()
        .pieces()
        .map(|p| Trivia { kind: trivia_kind(p.kind()), text: p.text().as_bytes().to_vec() })
        .collect();
    let trailing = token
        .trailing_trivia()
        .pieces()
        .map(|p| Trivia { kind: trivia_kind(p.kind()), text: p.text().as_bytes().to_vec() })
        .collect();
    Element::Token(Arc::new(Token {
        kind: u16::from(token.kind()),
        leading,
        text: token.text_trimmed().as_bytes().to_vec(),
        trailing,
    }))
}

fn tree_of(node: &JsSyntaxNode) -> Element {
    let slots = node
        .slots()
        .map(|slot| match slot {
            SyntaxSlot::Node(n) => tree_of(&n),
            SyntaxSlot::Token(t) => token_of(&t),
            SyntaxSlot::Empty => Element::Empty,
        })
        .collect();
    Element::Node(Arc::new(Node { kind: u16::from(node.kind()), slots }))
}

fn parse_ts(source: &str) -> Element {
    let parsed = parse(source, JsFileSource::ts(), JsParserOptions::default());
    assert!(!parsed.has_errors(), "{source}");
    tree_of(parsed.tree().syntax())
}

fn text(tree: &Element) -> String {
    String::from_utf8(tree.text()).unwrap()
}

/// Runs the rule over a source text: the number of signals and the text
/// after the fixes, one after the other, each on the tree the last one gave.
fn lint_and_fix(source: &str) -> (usize, String) {
    let mut tree = parse_ts(source);
    let mut signals = 0;
    loop {
        let mut fixed = None;
        for found in tree.query(NoUselessTypeConstraint::pattern()) {
            let ctx = RuleContext::new(tree.share(), found);
            if let Some(state) = NoUselessTypeConstraint::run(&ctx) {
                signals += 1;
                assert!(NoUselessTypeConstraint::diagnostic(&ctx, &state).is_some());
                let action = NoUselessTypeConstraint::action(&ctx, &state).unwrap();
                fixed = Some(action.mutation.commit().unwrap());
                break;
            }
        }
        match fixed {
            Some(t) => tree = t,
            None => return (signals, text(&tree)),
        }
    }
}

const SHAPES: [&str; 6] = [
    "interface Foo<T extends X> {}",
    "type Bar<T extends X> = {};",
    "class Baz<T extends X> {\n}",
    "class Baz {\n  qux<U extends X>() {}\n}",
    "const Quux = <T extends X>() => {};",
    "function Quuz<T extends X>() {}",
];

fn shape(index: usize, constraint: &str) -> (String, String) {
    let with = SHAPES[index].replace("X", constraint);
    let without = SHAPES[index].replace(" extends X", "");
    (with, without)
}

fn fires_and_fixes(index: usize, constraint: &str) {
    let (with, without) = shape(index, constraint);
    assert_eq!(lint_and_fix(&with), (1, without));
}

#[test]
fn the_tree_of_a_source_renders_to_the_source() {
    for source in SHAPES {
        assert_eq!(text(&parse_ts(source)), source);
    }
    let source = "// head\ninterface A<T extends any /* c */> {\n  a: T; // tail\n}\n";
    assert_eq!(text(&parse_ts(source)), source);
}

#[test]
fn kinds_are_numbered_as_the_grammar_numbers_them() {
    assert_eq!(classify(u16::from(JsSyntaxKind::TS_TYPE_CONSTRAINT_CLAUSE)), KindClass::TypeConstraintClause);
    assert_eq!(classify(u16::from(JsSyntaxKind::TS_ANY_TYPE)), KindClass::AnyType);
    assert_eq!(classify(u16::from(JsSyntaxKind::TS_UNKNOWN_TYPE)), KindClass::UnknownType);
    assert_eq!(classify(u16::from(JsSyntaxKind::TS_NEVER_TYPE)), KindClass::Other);
    assert_eq!(classify(u16::from(JsSyntaxKind::ANY_KW)), KindClass::Other);
    assert_eq!(classify(u16::from(JsSyntaxKind::EOF)), KindClass::Other);
}

#[test]
fn every_kind_tag_has_a_class() {
    assert_eq!(LAST_JS_KIND, u16::from(JsSyntaxKind::__LAST));
    let mut special = 0;
    for raw in 0..=u16::MAX {
        if classify(raw) != KindClass::Other {
            special += 1;
            assert!(raw <= LAST_JS_KIND);
        }
    }
    assert_eq!(special, 3);
}

#[test]
fn interface_any() {
    fires_and_fixes(0, "any");
}

#[test]
fn interface_unknown() {
    fires_and_fixes(0, "unknown");
}

#[test]
fn type_alias_any() {
    fires_and_fixes(1, "any");
}

#[test]
fn type_alias_unknown() {
    fires_and_fixes(1, "unknown");
}

#[test]
fn class_any() {
    fires_and_fixes(2, "any");
}

#[test]
fn class_unknown() {
    fires_and_fixes(2, "unknown");
}

#[test]
fn method_any() {
    fires_and_fixes(3, "any");
}

#[test]
fn method_unknown() {
    fires_and_fixes(3, "unknown");
}

#[test]
fn arrow_function_any() {
    fires_and_fixes(4, "any");
}

#[test]
fn arrow_function_unknown() {
    fires_and_fixes(4, "unknown");
}

#[test]
fn function_declaration_any() {
    fires_and_fixes(5, "any");
}

#[test]
fn function_declaration_unknown() {
    fires_and_fixes(5, "unknown");
}

#[test]
fn fix_gives_exactly_the_unconstrained_interface() {
    assert_eq!(lint_and_fix("interface Foo<T extends any> {}"), (1, "interface Foo<T> {}".to_string()));
}

#[test]
fn parsed_shapes_without_a_constraint_give_no_signal() {
    for index in 0..SHAPES.len() {
        let (_, without) = shape(index, "any");
        assert_eq!(lint_and_fix(&without), (0, without.clone()));
    }
    assert_eq!(lint_and_fix("interface Foo<T> {}\n\ntype Bar<T> = {};\n").0, 0);
}

#[test]
fn parsed_shapes_with_another_constraint_give_no_signal() {
    for index in 0..SHAPES.len() {
        for constraint in ["SomeType", "any[]", "unknown | null", "never", "object", "Array<any>", "{ a: any }"] {
            let (with, _) = shape(index, constraint);
            assert_eq!(lint_and_fix(&with), (0, with.clone()), "{with}");
        }
    }
}

#[test]
fn every_useless_constraint_of_a_file_is_found_in_source_order() {
    let source = "function f<A extends any, B extends string, C extends unknown>() {}\nclass K<T extends unknown> {}\n";
    let tree = parse_ts(source);
    let found = tree.query(NoUselessTypeConstraint::pattern());
    assert_eq!(found.len(), 4);
    let starts: Vec<usize> = found.iter().map(|h| tree.range_of(&h.path).unwrap().start).collect();
    let mut sorted = starts.clone();
    sorted.sort();
    assert_eq!(starts, sorted);
    let signals: Vec<bool> = found
        .into_iter()
        .map(|h| NoUselessTypeConstraint::run(&RuleContext::new(tree.share(), h)).is_some())
        .collect();
    assert_eq!(signals, vec![true, false, true, true]);
    assert_eq!(
        lint_and_fix(source),
        (3, "function f<A, B extends string, C>() {}\nclass K<T> {}\n".to_string())
    );
}

#[test]
fn the_fixed_tree_is_the_tree_of_the_fixed_text() {
    for index in 0..SHAPES.len() {
        for constraint in ["any", "unknown"] {
            let (with, without) = shape(index, constraint);
            let tree = parse_ts(&with);
            let found = tree.query(NoUselessTypeConstraint::pattern());
            let ctx = RuleContext::new(tree.share(), tree.handle(&found[0].path).unwrap());
            let fixed = NoUselessTypeConstraint::action(&ctx, &()).unwrap().mutation.commit().unwrap();
            assert_eq!(text(&fixed), without);
            assert!(fixed.same_as(&parse_ts(&text(&fixed))), "{with}");
        }
    }
}

#[test]
fn an_empty_commit_round_trips() {
    let source = "interface Foo<T extends any> {}\n";
    let tree = parse_ts(source);
    let same = tree.begin().commit().unwrap();
    assert!(same.same_as(&tree));
    assert!(same.same_as(&parse_ts(&text(&same))));
}

#[test]
fn ranges_agree_with_the_parser() {
    let source = "interface Foo<T extends any> {}";
    let parsed = parse(source, JsFileSource::ts(), JsParserOptions::default());
    let root = parsed.tree();
    let clause = root
        .syntax()
        .descendants()
        .find(|n| n.kind() == JsSyntaxKind::TS_TYPE_CONSTRAINT_CLAUSE)
        .unwrap();
    let tree = tree_of(root.syntax());
    let found = tree.query(NoUselessTypeConstraint::pattern());
    assert_eq!(found.len(), 1);
    let whole = tree.range_of(&found[0].path).unwrap();
    assert_eq!(whole.start, usize::from(clause.text_range().start()));
    assert_eq!(whole.end, usize::from(clause.text_range().end()));
    let trimmed = tree.trimmed_range_of(&found[0].path).unwrap();
    assert_eq!(trimmed, TextRange { start: 16, end: 27 });
    assert_eq!(trimmed.start, usize::from(clause.text_trimmed_range().start()));
    assert_eq!(trimmed.end, usize::from(clause.text_trimmed_range().end()));
    let ctx = RuleContext::new(tree.share(), tree.handle(&found[0].path).unwrap());
    assert_eq!(NoUselessTypeConstraint::diagnostic(&ctx, &()).unwrap().range, trimmed);
}

#[test]
fn a_comment_before_the_clause_stays() {
    assert_eq!(
        lint_and_fix("interface Foo<T /* why */ extends any> {}"),
        (1, "interface Foo<T /* why */> {}".to_string())
    );
}
