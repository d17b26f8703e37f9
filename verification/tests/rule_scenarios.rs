use std::sync::Arc;
use syntax_rules::analyze::analyze;
use syntax_rules::batch::Handle;
use syntax_rules::range::TextRange;
use syntax_rules::rule::{ActionCategory, Applicability, FixKind, Rule, RuleContext, Severity};
use syntax_rules::tree::{Element, Node, Token, Trivia, TriviaKind};
use syntax_rules::useless_constraint::NoUselessTypeConstraint;

const CLAUSE: u16 = 428;
const ANY_TYPE: u16 = 365;
const UNKNOWN_TYPE: u16 = 366;
const REFERENCE_TYPE: u16 = 380;
const TYPE_PARAMETER: u16 = 425;
const PARAMETER_NAME: u16 = 427;

fn token(kind: u16, text: &str, trailing: &str) -> Element {
    let trailing = if trailing.is_empty() {
        vec![]
    } else {
        vec![Trivia { kind: TriviaKind::Whitespace, text: trailing.as_bytes().to_vec() }]
    };
    Element::Token(Arc::new(Token { kind, leading: vec![], text: text.as_bytes().to_vec(), trailing }))
}

fn node(kind: u16, slots: Vec<Element>) -> Element {
    Element::Node(Arc::new(Node { kind, slots }))
}

fn clause(ty: Element) -> Element {
    node(CLAUSE, vec![token(75, "extends", " "), ty])
}

fn parameter(constraint: Element) -> Element {
    node(
        TYPE_PARAMETER,
        vec![node(1, vec![]), node(PARAMETER_NAME, vec![token(156, "T", " ")]), constraint, Element::Empty],
    )
}

/// `interface Foo<T extends X> {}` with the given constraint clause.
fn interface(constraint: Element) -> Element {
    node(
        2,
        vec![
            token(3, "interface", " "),
            node(4, vec![token(156, "Foo", "")]),
            node(5, vec![token(6, "<", ""), node(7, vec![parameter(constraint)]), token(8, ">", " ")]),
            token(9, "{", ""),
            node(10, vec![]),
            token(11, "}", ""),
        ],
    )
}

fn clause_path() -> Vec<usize> {
    vec![2, 1, 0, 2]
}

fn context(root: &Element) -> RuleContext {
    let node = root.handle(&clause_path()).unwrap();
    RuleContext::new(root.share(), node)
}

fn plain(spans: &[syntax_rules::rule::Span]) -> String {
    spans.iter().map(|s| s.text).collect()
}

#[test]
fn signal_for_any_and_for_unknown() {
    let any = interface(clause(node(ANY_TYPE, vec![token(113, "any", "")])));
    assert_eq!(any.text(), b"interface Foo<T extends any> {}".to_vec());
    assert_eq!(NoUselessTypeConstraint::run(&context(&any)), Some(()));
    let unknown = interface(clause(node(UNKNOWN_TYPE, vec![token(136, "unknown", "")])));
    assert_eq!(NoUselessTypeConstraint::run(&context(&unknown)), Some(()));
}

#[test]
fn no_signal_for_another_constraint() {
    let tree = interface(clause(node(REFERENCE_TYPE, vec![node(12, vec![token(156, "SomeType", "")])])));
    assert_eq!(tree.text(), b"interface Foo<T extends SomeType> {}".to_vec());
    assert_eq!(NoUselessTypeConstraint::run(&context(&tree)), None);
}

#[test]
fn no_signal_without_a_constraint() {
    let tree = interface(Element::Empty);
    assert!(tree.query(NoUselessTypeConstraint::pattern()).is_empty());
    let name = tree.handle(&vec![2, 1, 0, 1]).unwrap();
    assert_eq!(NoUselessTypeConstraint::run(&RuleContext::new(tree.share(), name)), None);
}

#[test]
fn no_signal_for_a_clause_with_its_type_missing() {
    let missing = interface(node(CLAUSE, vec![token(75, "extends", " "), Element::Empty]));
    assert_eq!(NoUselessTypeConstraint::run(&context(&missing)), None);
    let short = interface(node(CLAUSE, vec![token(75, "extends", " ")]));
    assert_eq!(NoUselessTypeConstraint::run(&context(&short)), None);
    let token_in_slot = interface(node(CLAUSE, vec![token(75, "extends", " "), token(113, "any", "")]));
    assert_eq!(NoUselessTypeConstraint::run(&context(&token_in_slot)), None);
}

#[test]
fn no_signal_for_any_under_another_node() {
    let tree = interface(node(REFERENCE_TYPE, vec![token(75, "extends", " "), node(ANY_TYPE, vec![])]));
    assert_eq!(NoUselessTypeConstraint::run(&context(&tree)), None);
}

#[test]
fn no_signal_for_a_token_or_an_empty_element() {
    let tree = interface(clause(node(ANY_TYPE, vec![token(113, "any", "")])));
    let ctx = RuleContext::new(tree.share(), Handle { path: vec![0], element: token(CLAUSE, "x", "") });
    assert_eq!(NoUselessTypeConstraint::run(&ctx), None);
    let ctx = RuleContext::new(tree.share(), Handle { path: vec![0], element: Element::Empty });
    assert_eq!(NoUselessTypeConstraint::run(&ctx), None);
}

#[test]
fn diagnostic_says_what_is_wrong_and_where() {
    let tree = interface(clause(node(ANY_TYPE, vec![token(113, "any", " ")])));
    let ctx = context(&tree);
    let d = NoUselessTypeConstraint::diagnostic(&ctx, &()).unwrap();
    assert_eq!(d.category, "lint/complexity/noUselessTypeConstraint");
    assert_eq!(d.range, TextRange { start: 16, end: 27 });
    assert_eq!(d.severity, Severity::Error);
    assert_eq!(plain(&d.message), "Constraining a type parameter to any or unknown is useless.");
    let emphasised: Vec<&str> = d.message.iter().filter(|s| s.emphasis).map(|s| s.text).collect();
    assert_eq!(emphasised, vec!["any", "unknown"]);
    assert_eq!(d.notes.len(), 1);
    assert_eq!(plain(&d.notes[0]), "All types are subtypes of any and unknown.");
    let emphasised: Vec<&str> = d.notes[0].iter().filter(|s| s.emphasis).map(|s| s.text).collect();
    assert_eq!(emphasised, vec!["any", "unknown"]);
}

#[test]
fn diagnostic_needs_a_place_in_the_tree() {
    let tree = interface(Element::Empty);
    let ctx = RuleContext::new(tree.share(), Handle { path: vec![9, 9], element: tree.share() });
    assert!(NoUselessTypeConstraint::diagnostic(&ctx, &()).is_none());
}

#[test]
fn fix_removes_the_clause_and_the_blank_before_it() {
    let tree = interface(clause(node(ANY_TYPE, vec![token(113, "any", "")])));
    let ctx = context(&tree);
    let action = NoUselessTypeConstraint::action(&ctx, &()).unwrap();
    assert_eq!(action.category, ActionCategory::QuickFix);
    assert_eq!(action.applicability, Applicability::Always);
    assert_eq!(plain(&action.message), "Remove the constraint.");
    assert_eq!(action.mutation.len(), 2);
    let fixed = action.mutation.commit().unwrap();
    assert_eq!(fixed.text(), b"interface Foo<T> {}".to_vec());
    assert!(fixed.same_as(&interface_without_blank()));
    assert_eq!(tree.text(), b"interface Foo<T extends any> {}".to_vec());
}

fn interface_without_blank() -> Element {
    let parameter = node(
        TYPE_PARAMETER,
        vec![node(1, vec![]), node(PARAMETER_NAME, vec![token(156, "T", "")]), Element::Empty, Element::Empty],
    );
    node(
        2,
        vec![
            token(3, "interface", " "),
            node(4, vec![token(156, "Foo", "")]),
            node(5, vec![token(6, "<", ""), node(7, vec![parameter]), token(8, ">", " ")]),
            token(9, "{", ""),
            node(10, vec![]),
            token(11, "}", ""),
        ],
    )
}

#[test]
fn fix_keeps_a_comment_before_the_clause() {
    let name = Element::Token(Arc::new(Token {
        kind: 156,
        leading: vec![],
        text: b"T".to_vec(),
        trailing: vec![
            Trivia { kind: TriviaKind::Whitespace, text: b" ".to_vec() },
            Trivia { kind: TriviaKind::MultiLineComment, text: b"/* why */".to_vec() },
            Trivia { kind: TriviaKind::Whitespace, text: b" ".to_vec() },
        ],
    }));
    let tree = node(
        TYPE_PARAMETER,
        vec![node(PARAMETER_NAME, vec![name]), clause(node(UNKNOWN_TYPE, vec![token(136, "unknown", "")]))],
    );
    assert_eq!(tree.text(), b"T /* why */ extends unknown".to_vec());
    let ctx = RuleContext::new(tree.share(), tree.handle(&vec![1]).unwrap());
    let fixed = NoUselessTypeConstraint::action(&ctx, &()).unwrap().mutation.commit().unwrap();
    assert_eq!(fixed.text(), b"T /* why */".to_vec());
}

#[test]
fn after_the_fix_the_rule_is_silent() {
    let tree = interface(clause(node(UNKNOWN_TYPE, vec![token(136, "unknown", "")])));
    let found = tree.query(NoUselessTypeConstraint::pattern());
    assert_eq!(found.len(), 1);
    assert_eq!(found[0].path, clause_path());
    let ctx = RuleContext::new(tree.share(), tree.handle(&found[0].path).unwrap());
    assert_eq!(NoUselessTypeConstraint::run(&ctx), Some(()));
    let fixed = NoUselessTypeConstraint::action(&ctx, &()).unwrap().mutation.commit().unwrap();
    assert!(fixed.query(NoUselessTypeConstraint::pattern()).is_empty());
    assert!(matches!(fixed.get(&clause_path()), Some(Element::Empty)));
}

#[test]
fn no_fix_without_a_node_before_the_clause() {
    let tree = node(
        TYPE_PARAMETER,
        vec![token(156, "T", " "), Element::Empty, clause(node(ANY_TYPE, vec![token(113, "any", "")]))],
    );
    let ctx = RuleContext::new(tree.share(), tree.handle(&vec![2]).unwrap());
    assert_eq!(NoUselessTypeConstraint::run(&ctx), Some(()));
    assert!(NoUselessTypeConstraint::diagnostic(&ctx, &()).is_some());
    assert!(NoUselessTypeConstraint::action(&ctx, &()).is_none());
}

#[test]
fn no_fix_where_the_node_before_holds_no_token() {
    let tree = node(
        TYPE_PARAMETER,
        vec![node(1, vec![]), clause(node(ANY_TYPE, vec![token(113, "any", "")]))],
    );
    let ctx = RuleContext::new(tree.share(), tree.handle(&vec![1]).unwrap());
    assert!(NoUselessTypeConstraint::action(&ctx, &()).is_none());
}

#[test]
fn no_fix_for_a_handle_that_the_tree_does_not_hold() {
    let tree = interface(clause(node(ANY_TYPE, vec![token(113, "any", "")])));
    let other = clause(node(UNKNOWN_TYPE, vec![token(136, "unknown", "")]));
    let ctx = RuleContext::new(tree.share(), Handle { path: clause_path(), element: other });
    assert!(NoUselessTypeConstraint::action(&ctx, &()).is_none());
    let ctx = RuleContext::new(tree.share(), Handle { path: vec![], element: tree.share() });
    assert!(NoUselessTypeConstraint::action(&ctx, &()).is_none());
}

#[test]
fn context_hands_out_what_it_was_made_of() {
    let tree = interface(Element::Empty);
    let ctx = RuleContext::new(tree.share(), tree.handle(&vec![1]).unwrap());
    assert!(ctx.root().same_as(&tree));
    assert_eq!(ctx.query().path, vec![1]);
    assert_eq!(ctx.query().element.text(), b"Foo".to_vec());
}

#[test]
fn metadata_of_the_rule() {
    let m = NoUselessTypeConstraint::metadata();
    assert_eq!(m.name, "noUselessTypeConstraint");
    assert_eq!(m.version, "1.0.0");
    assert!(m.recommended);
    assert_eq!(m.fix_kind, Some(FixKind::Safe));
}

#[test]
fn analyze_reports_each_violation_once_in_source_order() {
    let first = parameter(clause(node(ANY_TYPE, vec![token(113, "any", "")])));
    let second = parameter(clause(node(REFERENCE_TYPE, vec![token(156, "U", "")])));
    let third = parameter(clause(node(UNKNOWN_TYPE, vec![token(136, "unknown", "")])));
    let tree = node(7, vec![first, token(20, ",", " "), second, token(20, ",", " "), third]);
    assert_eq!(tree.text(), b"T extends any, T extends U, T extends unknown".to_vec());
    let found = analyze::<NoUselessTypeConstraint>(&tree);
    let ranges: Vec<TextRange> = found.iter().map(|d| d.range).collect();
    assert_eq!(ranges, vec![TextRange { start: 2, end: 13 }, TextRange { start: 30, end: 45 }]);
    for d in &found {
        assert_eq!(d.category, "lint/complexity/noUselessTypeConstraint");
    }
    let again = analyze::<NoUselessTypeConstraint>(&tree);
    assert_eq!(again.iter().map(|d| d.range).collect::<Vec<TextRange>>(), ranges);
}

#[test]
fn analyze_of_a_clean_tree_reports_nothing() {
    assert!(analyze::<NoUselessTypeConstraint>(&interface(Element::Empty)).is_empty());
    assert!(analyze::<NoUselessTypeConstraint>(&Element::Empty).is_empty());
    let other = interface(clause(node(REFERENCE_TYPE, vec![token(156, "SomeType", "")])));
    assert!(analyze::<NoUselessTypeConstraint>(&other).is_empty());
}
