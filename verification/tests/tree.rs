use statix::kinds::{
    NODE_LET_IN, NODE_LITERAL, NODE_ROOT, TOKEN_IN, TOKEN_INTEGER, TOKEN_LET, TOKEN_WHITESPACE,
};
use statix::tree::{Element, SyntaxTree, WalkEvent};

fn enter(kind: u16, start: u32, end: u32, token: bool) -> WalkEvent {
    WalkEvent::Enter(Element::new(kind, start, end, token))
}

fn token(kind: u16, start: u32, end: u32) -> Vec<WalkEvent> {
    vec![enter(kind, start, end, true), WalkEvent::Leave]
}

/// The walk of `let in 1`.
fn empty_let_in_walk() -> Vec<WalkEvent> {
    let mut walk = vec![enter(NODE_ROOT, 0, 8, false), enter(NODE_LET_IN, 0, 8, false)];
    walk.extend(token(TOKEN_LET, 0, 3));
    walk.extend(token(TOKEN_WHITESPACE, 3, 4));
    walk.extend(token(TOKEN_IN, 4, 6));
    walk.extend(token(TOKEN_WHITESPACE, 6, 7));
    walk.push(enter(NODE_LITERAL, 7, 8, false));
    walk.extend(token(TOKEN_INTEGER, 7, 8));
    walk.push(WalkEvent::Leave);
    walk.push(WalkEvent::Leave);
    walk.push(WalkEvent::Leave);
    walk
}

#[test]
fn a_walk_becomes_a_tree_in_document_order() {
    let tree = SyntaxTree::from_walk(b"let in 1".to_vec(), &empty_let_in_walk()).unwrap();
    assert_eq!(tree.len(), 8);
    assert_eq!(tree.text(), &b"let in 1".to_vec());
    assert_eq!(tree.element(0), Element::new(NODE_ROOT, 0, 8, false));
    assert_eq!(tree.element(1), Element::new(NODE_LET_IN, 0, 8, false));
    assert_eq!(tree.element(4), Element::new(TOKEN_IN, 4, 6, true));
    assert_eq!(tree.element(7), Element::new(TOKEN_INTEGER, 7, 8, true));
    let depths: Vec<usize> = (0..8).map(|i| tree.depth(i)).collect();
    assert_eq!(depths, vec![0, 1, 2, 2, 2, 2, 2, 3]);
    let ends: Vec<usize> = (0..8).map(|i| tree.subtree_end(i)).collect();
    assert_eq!(ends, vec![8, 8, 3, 4, 5, 6, 8, 8]);
}

#[test]
fn children_are_found_in_order() {
    let tree = SyntaxTree::from_walk(b"let in 1".to_vec(), &empty_let_in_walk()).unwrap();
    assert_eq!(tree.children(0), vec![1]);
    assert_eq!(tree.children(1), vec![2, 3, 4, 5, 6]);
    assert_eq!(tree.children(6), vec![7]);
    assert_eq!(tree.children(7), Vec::<usize>::new());
    assert_eq!(tree.last_child(1), Some(6));
    assert_eq!(tree.last_child(6), None);
    assert_eq!(tree.last_child(2), None);
    assert!(tree.has_child_of_kind(1, NODE_LITERAL));
    assert!(!tree.has_child_of_kind(1, TOKEN_IN));
    assert!(!tree.has_child_of_kind(0, NODE_LITERAL));
    assert_eq!(tree.last_child_of_kind_before(1, 6, TOKEN_IN), Some(4));
    assert_eq!(tree.last_child_of_kind_before(1, 6, TOKEN_WHITESPACE), Some(5));
    assert_eq!(tree.last_child_of_kind_before(1, 4, TOKEN_WHITESPACE), Some(3));
    assert_eq!(tree.last_child_of_kind_before(1, 3, TOKEN_IN), None);
    assert_eq!(tree.first_of_kind(0, 8, TOKEN_WHITESPACE), Some(3));
    assert_eq!(tree.first_of_kind(4, 8, TOKEN_WHITESPACE), Some(5));
    assert_eq!(tree.first_of_kind(6, 8, TOKEN_LET), None);
    assert_eq!(tree.first_of_kind(3, 3, TOKEN_WHITESPACE), None);
}

#[test]
fn an_element_has_its_text() {
    let tree = SyntaxTree::from_walk(b"let in 1".to_vec(), &empty_let_in_walk()).unwrap();
    assert_eq!(tree.text_of(0), b"let in 1".to_vec());
    assert_eq!(tree.text_of(2), b"let".to_vec());
    assert_eq!(tree.text_of(4), b"in".to_vec());
    assert_eq!(tree.text_of(6), b"1".to_vec());
}

#[test]
fn a_walk_that_is_not_balanced_is_no_tree() {
    let text = b"ab".to_vec();
    assert!(SyntaxTree::from_walk(text.clone(), &vec![]).is_none());
    assert!(SyntaxTree::from_walk(text.clone(), &vec![WalkEvent::Leave]).is_none());
    assert!(SyntaxTree::from_walk(text.clone(), &vec![enter(NODE_ROOT, 0, 2, false)]).is_none());
    let two_leaves = vec![enter(NODE_ROOT, 0, 2, false), WalkEvent::Leave, WalkEvent::Leave];
    assert!(SyntaxTree::from_walk(text.clone(), &two_leaves).is_none());
    let two_roots = vec![
        enter(NODE_ROOT, 0, 2, false),
        WalkEvent::Leave,
        enter(NODE_ROOT, 0, 2, false),
        WalkEvent::Leave,
    ];
    assert!(SyntaxTree::from_walk(text.clone(), &two_roots).is_none());
    let one_root = vec![enter(NODE_ROOT, 0, 2, false), WalkEvent::Leave];
    assert!(SyntaxTree::from_walk(text, &one_root).is_some());
}

#[test]
fn a_walk_whose_ranges_do_not_nest_is_no_tree() {
    let text = b"abcd".to_vec();
    let build = |inner: Vec<WalkEvent>| {
        let mut walk = vec![enter(NODE_ROOT, 0, 4, false)];
        walk.extend(inner);
        walk.push(WalkEvent::Leave);
        SyntaxTree::from_walk(text.clone(), &walk)
    };
    // two children, one after the other
    let mut fine = token(TOKEN_LET, 0, 2);
    fine.extend(token(TOKEN_IN, 2, 4));
    assert!(build(fine).is_some());
    // a gap between siblings is accepted, an overlap is not
    let mut gap = token(TOKEN_LET, 0, 1);
    gap.extend(token(TOKEN_IN, 3, 4));
    assert!(build(gap).is_some());
    let mut overlap = token(TOKEN_LET, 0, 3);
    overlap.extend(token(TOKEN_IN, 2, 4));
    assert!(build(overlap).is_none());
    // a child beyond its parent
    assert!(build(token(TOKEN_LET, 2, 5)).is_none());
    // a token with a child
    let child_of_token =
        vec![enter(TOKEN_LET, 0, 2, true), enter(TOKEN_IN, 0, 1, true), WalkEvent::Leave, WalkEvent::Leave];
    assert!(build(child_of_token).is_none());
    // a root that does not span the text
    let short = vec![enter(NODE_ROOT, 0, 3, false), WalkEvent::Leave];
    assert!(SyntaxTree::from_walk(text.clone(), &short).is_none());
    let late = vec![enter(NODE_ROOT, 1, 4, false), WalkEvent::Leave];
    assert!(SyntaxTree::from_walk(text.clone(), &late).is_none());
}
