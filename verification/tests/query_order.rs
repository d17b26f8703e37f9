use std::sync::Arc;
use syntax_rules::kinds::KindClass;
use syntax_rules::query::Pattern;
use syntax_rules::tree::{Element, Node, Token};

fn token(kind: u16, text: &str) -> Element {
    Element::Token(Arc::new(Token { kind, leading: vec![], text: text.as_bytes().to_vec(), trailing: vec![] }))
}

fn node(kind: u16, slots: Vec<Element>) -> Element {
    Element::Node(Arc::new(Node { kind, slots }))
}

fn nested() -> Element {
    node(
        7,
        vec![
            token(7, "t"),
            node(8, vec![node(7, vec![token(1, "a")]), Element::Empty, node(7, vec![])]),
            node(7, vec![node(9, vec![node(7, vec![token(1, "b")])])]),
        ],
    )
}

fn paths(tree: &Element, pattern: Pattern) -> Vec<Vec<usize>> {
    tree.query(pattern).into_iter().map(|h| h.path).collect()
}

#[test]
fn query_is_in_pre_order() {
    let expected: Vec<Vec<usize>> = vec![vec![], vec![1, 0], vec![1, 2], vec![2], vec![2, 0, 0]];
    assert_eq!(paths(&nested(), Pattern::Kind(7)), expected);
}

#[test]
fn query_yields_nodes_not_tokens() {
    assert_eq!(paths(&nested(), Pattern::Kind(1)), Vec::<Vec<usize>>::new());
}

#[test]
fn query_without_a_match_is_empty() {
    assert!(nested().query(Pattern::Kind(100)).is_empty());
    assert!(Element::Empty.query(Pattern::Kind(7)).is_empty());
    assert!(token(7, "t").query(Pattern::Kind(7)).is_empty());
}

#[test]
fn query_hands_out_the_matched_node_with_its_path() {
    let tree = nested();
    for h in tree.query(Pattern::Kind(7)) {
        assert_eq!(h.element.kind(), Some(7));
        assert!(tree.get(&h.path).unwrap().same_as(&h.element));
    }
}

#[test]
fn query_finds_every_node_of_the_kind() {
    let tree = nested();
    let found = paths(&tree, Pattern::Kind(9));
    assert_eq!(found, vec![vec![2, 0]]);
    let found = paths(&tree, Pattern::Kind(8));
    assert_eq!(found, vec![vec![1]]);
}

#[test]
fn query_gives_the_same_answer_every_time() {
    let tree = nested();
    let first = paths(&tree, Pattern::Kind(7));
    for _ in 0..50 {
        assert_eq!(paths(&tree, Pattern::Kind(7)), first);
    }
}

#[test]
fn query_by_class_asks_the_grammar() {
    let tree = node(428, vec![token(75, "extends"), node(365, vec![token(113, "any")])]);
    assert_eq!(paths(&tree, Pattern::Class(KindClass::TypeConstraintClause)), vec![Vec::<usize>::new()]);
    assert_eq!(paths(&tree, Pattern::Class(KindClass::AnyType)), vec![vec![1]]);
    assert!(tree.query(Pattern::Class(KindClass::UnknownType)).is_empty());
}

#[test]
fn pattern_matches_a_kind_or_a_class() {
    assert!(Pattern::Kind(5).matches(5));
    assert!(!Pattern::Kind(5).matches(6));
    assert!(Pattern::Class(KindClass::UnknownType).matches(366));
    assert!(!Pattern::Class(KindClass::UnknownType).matches(365));
    assert!(Pattern::Class(KindClass::Other).matches(0));
    assert!(Pattern::Class(KindClass::Other).matches(u16::MAX));
}

fn lazily(tree: &Element, pattern: Pattern) -> Vec<Vec<usize>> {
    let mut matches = tree.matches(pattern);
    let mut out = Vec::new();
    while let Some(h) = matches.next() {
        out.push(h.path);
    }
    out
}

#[test]
fn lazy_query_gives_the_matches_of_the_eager_one_in_the_same_order() {
    let tree = nested();
    for kind in [1, 7, 8, 9, 100] {
        assert_eq!(lazily(&tree, Pattern::Kind(kind)), paths(&tree, Pattern::Kind(kind)));
    }
    assert_eq!(lazily(&Element::Empty, Pattern::Kind(7)), Vec::<Vec<usize>>::new());
}

#[test]
fn lazy_query_hands_out_one_match_at_a_time() {
    let tree = nested();
    let mut matches = tree.matches(Pattern::Kind(7));
    let first = matches.next().unwrap();
    assert_eq!(first.path, Vec::<usize>::new());
    assert!(first.element.same_as(&tree));
    let second = matches.next().unwrap();
    assert_eq!(second.path, vec![1, 0]);
    assert_eq!(second.element.text(), b"a".to_vec());
}

#[test]
fn lazy_query_stays_done_once_it_is_done() {
    let tree = nested();
    let mut matches = tree.matches(Pattern::Kind(9));
    assert_eq!(matches.next().unwrap().path, vec![2, 0]);
    assert!(matches.next().is_none());
    assert!(matches.next().is_none());
}

#[test]
fn lazy_query_starts_again_with_a_new_query() {
    let tree = nested();
    let mut one = tree.matches(Pattern::Kind(7));
    one.next();
    one.next();
    let mut two = tree.matches(Pattern::Kind(7));
    assert_eq!(two.next().unwrap().path, Vec::<usize>::new());
    assert_eq!(one.next().unwrap().path, vec![1, 2]);
}

fn shared_between_threads<T: Send + Sync>(_: &T) {}

#[test]
fn a_tree_can_be_read_from_many_threads() {
    shared_between_threads(&nested());
}
