use std::sync::Arc;
use syntax_rules::batch::{paths_apart, Conflict, Handle};
use syntax_rules::tree::{Element, Node, Token, Trivia, TriviaKind};

fn token(kind: u16, text: &str, trailing: &str) -> Element {
    let trailing = if trailing.is_empty() {
        vec![]
    } else {
        vec![Trivia { kind: TriviaKind::Whitespace, text: trailing.as_bytes().to_vec() }]
    };
    Element::Token(Arc::new(Token { kind, leading: vec![], text: text.as_bytes().to_vec(), trailing }))
}

fn node(kind: u16, slots: Vec<Element>) -> Element {
    Element::Node(Arc::new(Node { kind, slots }))
}

fn literal(text: &str) -> Element {
    node(2, vec![token(3, text, "")])
}

/// A root with two literals and an empty slot between them.
fn tree_two(a: &str, b: &str) -> Element {
    node(1, vec![literal(a), Element::Empty, literal(b)])
}

fn handle(root: &Element, path: Vec<usize>) -> Handle {
    root.handle(&path).unwrap()
}

#[test]
fn ok_batch_mutation_no_changes() {
    let before = tree_two("a", "b");
    let batch = before.begin();
    assert_eq!(batch.len(), 0);
    assert_eq!(batch.conflict(), None);
    let after = batch.commit().unwrap();
    assert!(after.same_as(&before));
}

#[test]
fn ok_batch_mutation_one_change() {
    let before = tree_two("a", "b");
    let mut batch = before.begin();
    assert_eq!(batch.replace_element_discard_trivia(&handle(&before, vec![0]), literal("c")), Ok(()));
    assert_eq!(batch.len(), 1);
    let after = batch.commit().unwrap();
    assert!(after.same_as(&tree_two("c", "b")));
    assert!(before.same_as(&tree_two("a", "b")));
}

#[test]
fn ok_batch_mutation_multiple_changes_different_branches() {
    let before = tree_two("a", "b");
    let mut batch = before.begin();
    batch.replace_element_discard_trivia(&handle(&before, vec![0]), literal("c")).unwrap();
    batch.replace_element_discard_trivia(&handle(&before, vec![2, 0]), token(3, "d", "")).unwrap();
    let after = batch.commit().unwrap();
    assert!(after.same_as(&tree_two("c", "d")));
}

#[test]
fn commit_does_not_depend_on_the_order_of_edits() {
    let before = tree_two("a", "b");
    let mut one = before.begin();
    one.replace_element_discard_trivia(&handle(&before, vec![0]), literal("c")).unwrap();
    one.remove_node(&handle(&before, vec![2])).unwrap();
    let mut two = before.begin();
    two.remove_node(&handle(&before, vec![2])).unwrap();
    two.replace_element_discard_trivia(&handle(&before, vec![0]), literal("c")).unwrap();
    assert!(one.commit().unwrap().same_as(&two.commit().unwrap()));
}

#[test]
fn remove_node_leaves_an_empty_slot() {
    let before = tree_two("a", "b");
    let mut batch = before.begin();
    assert_eq!(batch.remove_node(&handle(&before, vec![0])), Ok(()));
    let after = batch.commit().unwrap();
    assert!(after.same_as(&node(1, vec![Element::Empty, Element::Empty, literal("b")])));
    assert_eq!(after.text(), b"b".to_vec());
}

#[test]
fn remove_node_does_not_move_the_trivia_of_its_neighbours() {
    let before = node(1, vec![node(2, vec![token(3, "T", " ")]), node(4, vec![token(5, "x", " ")]), token(6, ">", "")]);
    let mut batch = before.begin();
    batch.remove_node(&handle(&before, vec![1])).unwrap();
    assert_eq!(batch.commit().unwrap().text(), b"T >".to_vec());
}

#[test]
fn remove_node_refuses_a_token() {
    let before = tree_two("a", "b");
    let mut batch = before.begin();
    assert_eq!(batch.remove_node(&handle(&before, vec![0, 0])), Err(Conflict::Stale));
    assert_eq!(batch.conflict(), Some(Conflict::Stale));
}

#[test]
fn insert_fills_an_empty_slot() {
    let before = tree_two("a", "b");
    let mut batch = before.begin();
    assert_eq!(batch.insert_element(&handle(&before, vec![]), 1, literal("m")), Ok(()));
    let after = batch.commit().unwrap();
    assert!(after.same_as(&node(1, vec![literal("a"), literal("m"), literal("b")])));
    assert_eq!(after.text(), b"amb".to_vec());
}

#[test]
fn insert_into_a_full_slot_is_occupied() {
    let before = tree_two("a", "b");
    let mut batch = before.begin();
    assert_eq!(batch.insert_element(&handle(&before, vec![]), 0, literal("m")), Err(Conflict::Occupied));
    assert_eq!(batch.commit().err(), Some(Conflict::Occupied));
}

#[test]
fn insert_past_the_slots_or_into_a_token_is_stale() {
    let before = tree_two("a", "b");
    let mut batch = before.begin();
    assert_eq!(batch.insert_element(&handle(&before, vec![]), 3, literal("m")), Err(Conflict::Stale));
    let mut batch = before.begin();
    assert_eq!(batch.insert_element(&handle(&before, vec![0, 0]), 0, literal("m")), Err(Conflict::Stale));
}

#[test]
fn insert_under_a_replaced_node_is_superseded() {
    let before = node(1, vec![node(2, vec![Element::Empty])]);
    let mut batch = before.begin();
    batch.replace_element_discard_trivia(&handle(&before, vec![0]), literal("c")).unwrap();
    assert_eq!(batch.insert_element(&handle(&before, vec![0]), 0, literal("m")), Err(Conflict::Superseded));
}

#[test]
fn handle_from_another_snapshot_is_stale() {
    let before = tree_two("a", "b");
    let other = tree_two("x", "y");
    let mut batch = before.begin();
    let foreign = handle(&other, vec![0]);
    assert_eq!(batch.replace_element_discard_trivia(&foreign, literal("c")), Err(Conflict::Stale));
    assert_eq!(batch.len(), 0);
    assert_eq!(batch.commit().err(), Some(Conflict::Stale));
    assert!(before.same_as(&tree_two("a", "b")));
}

#[test]
fn handle_off_the_snapshot_is_stale() {
    let before = tree_two("a", "b");
    let mut batch = before.begin();
    let made_up = Handle { path: vec![7], element: literal("a") };
    assert_eq!(batch.remove_node(&made_up), Err(Conflict::Stale));
    let mut batch = before.begin();
    let empty = Handle { path: vec![1], element: Element::Empty };
    assert_eq!(batch.replace_element_discard_trivia(&empty, literal("c")), Err(Conflict::Stale));
}

#[test]
fn element_replaced_twice_is_superseded() {
    let before = tree_two("a", "b");
    let mut batch = before.begin();
    batch.replace_element_discard_trivia(&handle(&before, vec![0]), literal("c")).unwrap();
    assert_eq!(
        batch.replace_element_discard_trivia(&handle(&before, vec![0]), literal("d")),
        Err(Conflict::Superseded)
    );
    assert_eq!(batch.len(), 1);
    assert_eq!(batch.conflict(), Some(Conflict::Superseded));
    assert_eq!(batch.commit().err(), Some(Conflict::Superseded));
}

#[test]
fn element_under_or_over_an_edit_is_superseded() {
    let before = tree_two("a", "b");
    let mut batch = before.begin();
    batch.replace_element_discard_trivia(&handle(&before, vec![0]), literal("c")).unwrap();
    assert_eq!(
        batch.replace_element_discard_trivia(&handle(&before, vec![0, 0]), token(3, "d", "")),
        Err(Conflict::Superseded)
    );
    let mut batch = before.begin();
    batch.replace_element_discard_trivia(&handle(&before, vec![0, 0]), token(3, "d", "")).unwrap();
    assert_eq!(batch.remove_node(&handle(&before, vec![0])), Err(Conflict::Superseded));
    let mut batch = before.begin();
    batch.remove_node(&handle(&before, vec![0])).unwrap();
    assert_eq!(
        batch.replace_element_discard_trivia(&handle(&before, vec![]), literal("z")),
        Err(Conflict::Superseded)
    );
}

#[test]
fn a_poisoned_batch_keeps_its_first_conflict() {
    let before = tree_two("a", "b");
    let mut batch = before.begin();
    batch.replace_element_discard_trivia(&handle(&before, vec![0]), literal("c")).unwrap();
    assert_eq!(batch.remove_node(&handle(&before, vec![0])), Err(Conflict::Superseded));
    assert_eq!(batch.remove_node(&handle(&before, vec![2])), Err(Conflict::Superseded));
    assert_eq!(batch.insert_element(&handle(&before, vec![]), 1, literal("m")), Err(Conflict::Superseded));
    assert_eq!(batch.len(), 1);
    assert!(batch.commit().is_err());
}

#[test]
fn two_batches_on_one_snapshot_do_not_see_each_other() {
    let snapshot = tree_two("a", "b");
    let mut first = snapshot.begin();
    let mut second = snapshot.begin();
    first.replace_element_discard_trivia(&handle(&snapshot, vec![0]), literal("c")).unwrap();
    first.remove_node(&handle(&snapshot, vec![2])).unwrap();
    second.replace_element_discard_trivia(&handle(&snapshot, vec![2]), literal("d")).unwrap();
    let one = first.commit().unwrap();
    assert!(one.same_as(&node(1, vec![literal("c"), Element::Empty, Element::Empty])));
    assert!(second.snapshot().same_as(&snapshot));
    let two = second.commit().unwrap();
    assert!(two.same_as(&tree_two("a", "d")));
    assert!(snapshot.same_as(&tree_two("a", "b")));
}

#[test]
fn a_handle_of_the_snapshot_is_stale_against_the_committed_tree() {
    let snapshot = tree_two("a", "b");
    let mut first = snapshot.begin();
    first.replace_element_discard_trivia(&handle(&snapshot, vec![0]), literal("c")).unwrap();
    let committed = first.commit().unwrap();
    let mut next = committed.begin();
    assert_eq!(next.remove_node(&handle(&snapshot, vec![0])), Err(Conflict::Stale));
    let mut next = committed.begin();
    assert_eq!(next.remove_node(&handle(&snapshot, vec![2])), Ok(()));
}

#[test]
fn handle_names_elements_only() {
    let tree = tree_two("a", "b");
    let h = tree.handle(&vec![2, 0]).unwrap();
    assert_eq!(h.path, vec![2, 0]);
    assert_eq!(h.element.text(), b"b".to_vec());
    assert!(tree.handle(&vec![1]).is_none());
    assert!(tree.handle(&vec![3]).is_none());
}

#[test]
fn paths_are_apart_when_neither_leads_through_the_other() {
    assert!(paths_apart(&vec![0, 1], &vec![0, 2]));
    assert!(paths_apart(&vec![1], &vec![0, 2]));
    assert!(!paths_apart(&vec![0], &vec![0, 2]));
    assert!(!paths_apart(&vec![0, 2], &vec![0]));
    assert!(!paths_apart(&vec![0, 2], &vec![0, 2]));
    assert!(!paths_apart(&vec![], &vec![0]));
    assert!(!paths_apart(&vec![], &vec![]));
}

#[test]
fn replace_element_keeps_the_trivia_around_the_element() {
    let before = node(1, vec![node(2, vec![token(3, "a", " ")]), node(2, vec![token(3, "b", "")])]);
    assert_eq!(before.text(), b"a b".to_vec());
    let mut keep = before.begin();
    keep.replace_element(&handle(&before, vec![0]), node(2, vec![token(3, "long", "\t\t")])).unwrap();
    assert_eq!(keep.commit().unwrap().text(), b"long b".to_vec());
    let mut discard = before.begin();
    discard
        .replace_element_discard_trivia(&handle(&before, vec![0]), node(2, vec![token(3, "long", "\t\t")]))
        .unwrap();
    assert_eq!(discard.commit().unwrap().text(), b"long\t\tb".to_vec());
}

#[test]
fn replace_element_meets_the_same_conflicts() {
    let before = tree_two("a", "b");
    let other = tree_two("x", "y");
    let mut batch = before.begin();
    assert_eq!(batch.replace_element(&handle(&other, vec![0]), literal("c")), Err(Conflict::Stale));
    let mut batch = before.begin();
    batch.replace_element(&handle(&before, vec![0]), literal("c")).unwrap();
    assert_eq!(batch.replace_element(&handle(&before, vec![0, 0]), literal("d")), Err(Conflict::Superseded));
}

fn deep() -> Element {
    node(
        1,
        vec![
            node(2, vec![literal("a"), literal("b"), Element::Empty, node(2, vec![literal("c"), literal("d")])]),
            token(3, "t", " "),
            literal("e"),
            Element::Empty,
            node(2, vec![node(2, vec![literal("f"), literal("g")]), literal("h")]),
        ],
    )
}

#[test]
fn commit_makes_every_edit_in_one_pass() {
    let tree = deep();
    assert_eq!(tree.text(), b"abcdt efgh".to_vec());
    let edits: Vec<(Vec<usize>, Element)> = vec![
        (vec![4, 0, 1], literal("G")),
        (vec![0, 1], literal("B")),
        (vec![2], literal("E")),
        (vec![0, 3, 0], token(3, "C", "")),
        (vec![1], token(3, "T", "")),
        (vec![0, 0, 0], token(3, "A", "")),
        (vec![4, 1], literal("H")),
    ];
    let mut batch = tree.begin();
    let mut expected = tree.share();
    for (path, new) in &edits {
        batch.replace_element_discard_trivia(&handle(&tree, path.clone()), new.share()).unwrap();
        expected = expected.replaced(path, new.share());
    }
    batch.insert_element(&handle(&tree, vec![0]), 2, literal("+")).unwrap();
    expected = expected.replaced(&vec![0, 2], literal("+"));
    batch.remove_node(&handle(&tree, vec![0, 3, 1])).unwrap();
    expected = expected.replaced(&vec![0, 3, 1], Element::Empty);
    assert_eq!(batch.len(), 9);
    let text_edits = batch.text_edits().unwrap();
    let committed = batch.commit().unwrap();
    assert!(committed.same_as(&expected));
    assert_eq!(committed.text(), b"AB+CTEfGH".to_vec());
    assert_eq!(syntax_rules::edits::apply_text_edits(&tree.text(), &text_edits), Some(committed.text()));
    assert_eq!(tree.text(), b"abcdt efgh".to_vec());
}

#[test]
fn commit_shares_what_no_edit_touches() {
    let tree = deep();
    let mut batch = tree.begin();
    batch.replace_element_discard_trivia(&handle(&tree, vec![0, 1]), literal("B")).unwrap();
    let committed = batch.commit().unwrap();
    let pointer = |root: &Element, path: Vec<usize>| match root.get(&path).unwrap() {
        Element::Node(n) => Arc::as_ptr(n),
        _ => unreachable!(),
    };
    assert_eq!(pointer(&tree, vec![4]), pointer(&committed, vec![4]));
    assert_eq!(pointer(&tree, vec![0, 3]), pointer(&committed, vec![0, 3]));
    assert_eq!(pointer(&tree, vec![0, 0]), pointer(&committed, vec![0, 0]));
    assert_ne!(pointer(&tree, vec![0]), pointer(&committed, vec![0]));
    assert_ne!(pointer(&tree, vec![]), pointer(&committed, vec![]));
}

#[test]
fn commit_of_an_edit_at_the_root_is_the_new_element() {
    let tree = deep();
    let mut batch = tree.begin();
    batch.replace_element_discard_trivia(&handle(&tree, vec![]), literal("z")).unwrap();
    assert!(batch.commit().unwrap().same_as(&literal("z")));
}
