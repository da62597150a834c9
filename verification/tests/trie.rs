use phonecode::trie::{build, empty_node, insert, Node, Vertex};

fn fresh_root() -> Vertex {
    Some(Box::new(empty_node()))
}

fn node_at<'a>(root: &'a Vertex, path: &[usize]) -> Option<&'a Node> {
    let mut link = root;
    for digit in path {
        match link {
            Some(node) => link = &node.children[*digit],
            None => return None,
        }
    }
    link.as_deref()
}

#[test]
fn empty_node_has_no_mark_no_indexes_no_children() {
    let node = empty_node();
    assert!(!node.is_word_end);
    assert!(node.word_indexes.is_empty());
    assert_eq!(node.children.len(), 10);
    for child in node.children.iter() {
        assert!(child.is_none());
    }
}

#[test]
fn insert_creates_the_nodes_along_the_sequence() {
    let mut root = fresh_root();
    insert(&mut root, 7, &vec![5, 4], 0);
    let first = node_at(&root, &[5]).expect("node for 5");
    assert!(!first.is_word_end);
    assert!(first.word_indexes.is_empty());
    let second = node_at(&root, &[5, 4]).expect("node for 54");
    assert!(second.is_word_end);
    assert_eq!(second.word_indexes, vec![7]);
    assert!(node_at(&root, &[4]).is_none());
    assert!(node_at(&root, &[5, 5]).is_none());
    assert!(node_at(&root, &[5, 4, 0]).is_none());
}

#[test]
fn insert_leaves_the_root_unmarked() {
    let mut root = fresh_root();
    insert(&mut root, 0, &vec![1, 2, 3], 0);
    let top = node_at(&root, &[]).expect("root");
    assert!(!top.is_word_end);
    assert!(top.word_indexes.is_empty());
}

#[test]
fn insert_keeps_what_was_there() {
    let mut root = fresh_root();
    insert(&mut root, 0, &vec![5], 0);
    insert(&mut root, 1, &vec![5, 4], 0);
    insert(&mut root, 2, &vec![0], 0);
    let five = node_at(&root, &[5]).expect("node for 5");
    assert!(five.is_word_end);
    assert_eq!(five.word_indexes, vec![0]);
    let fifty_four = node_at(&root, &[5, 4]).expect("node for 54");
    assert!(fifty_four.is_word_end);
    assert_eq!(fifty_four.word_indexes, vec![1]);
    let zero = node_at(&root, &[0]).expect("node for 0");
    assert!(zero.is_word_end);
    assert_eq!(zero.word_indexes, vec![2]);
}

#[test]
fn insert_collects_the_indexes_of_equal_sequences_in_order() {
    let mut root = fresh_root();
    insert(&mut root, 4, &vec![8, 8], 0);
    insert(&mut root, 2, &vec![8, 8], 0);
    insert(&mut root, 9, &vec![8, 8], 0);
    let node = node_at(&root, &[8, 8]).expect("node for 88");
    assert_eq!(node.word_indexes, vec![4, 2, 9]);
}

#[test]
fn insert_starts_at_the_given_position() {
    let mut root = fresh_root();
    insert(&mut root, 3, &vec![9, 9, 1, 2], 2);
    assert!(node_at(&root, &[9]).is_none());
    let node = node_at(&root, &[1, 2]).expect("node for 12");
    assert!(node.is_word_end);
    assert_eq!(node.word_indexes, vec![3]);
}

#[test]
fn insert_of_an_empty_sequence_marks_the_vertex_itself() {
    let mut root = fresh_root();
    insert(&mut root, 3, &vec![], 0);
    let top = node_at(&root, &[]).expect("root");
    assert!(top.is_word_end);
    assert_eq!(top.word_indexes, vec![3]);
    for child in top.children.iter() {
        assert!(child.is_none());
    }
}

#[test]
fn insert_at_the_end_of_a_sequence_marks_the_vertex_itself() {
    let mut root = fresh_root();
    insert(&mut root, 1, &vec![6, 6], 2);
    let top = node_at(&root, &[]).expect("root");
    assert!(top.is_word_end);
    assert_eq!(top.word_indexes, vec![1]);
    assert!(node_at(&root, &[6]).is_none());
}

#[test]
fn insert_into_a_missing_vertex_does_nothing() {
    let mut root: Vertex = None;
    insert(&mut root, 0, &vec![1, 2], 0);
    assert!(root.is_none());
}

#[test]
fn insert_uses_every_digit() {
    let mut root = fresh_root();
    for digit in 0..10 {
        insert(&mut root, digit, &vec![digit], 0);
    }
    for digit in 0..10 {
        let node = node_at(&root, &[digit]).expect("node for a digit");
        assert!(node.is_word_end);
        assert_eq!(node.word_indexes, vec![digit]);
    }
}

#[test]
fn build_numbers_the_sequences_by_position() {
    let mut root = fresh_root();
    build(&mut root, &vec![vec![5], vec![5, 4], vec![0, 5, 4]]);
    assert_eq!(node_at(&root, &[5]).expect("5").word_indexes, vec![0]);
    assert_eq!(node_at(&root, &[5, 4]).expect("54").word_indexes, vec![1]);
    assert_eq!(node_at(&root, &[0, 5, 4]).expect("054").word_indexes, vec![2]);
    assert!(!node_at(&root, &[0]).expect("0").is_word_end);
    assert!(!node_at(&root, &[0, 5]).expect("05").is_word_end);
}

#[test]
fn build_keeps_equal_sequences_in_dictionary_order() {
    let mut root = fresh_root();
    build(&mut root, &vec![vec![5], vec![7], vec![5], vec![5]]);
    assert_eq!(node_at(&root, &[5]).expect("5").word_indexes, vec![0, 2, 3]);
    assert_eq!(node_at(&root, &[7]).expect("7").word_indexes, vec![1]);
}

#[test]
fn build_of_nothing_changes_nothing() {
    let mut root = fresh_root();
    build(&mut root, &vec![]);
    let top = node_at(&root, &[]).expect("root");
    assert!(!top.is_word_end);
    assert!(top.word_indexes.is_empty());
    for child in top.children.iter() {
        assert!(child.is_none());
    }
}

#[test]
fn build_twice_doubles_the_entries() {
    let mut root = fresh_root();
    let sequences = vec![vec![1], vec![2]];
    build(&mut root, &sequences);
    build(&mut root, &sequences);
    assert_eq!(node_at(&root, &[1]).expect("1").word_indexes, vec![0, 0]);
    assert_eq!(node_at(&root, &[2]).expect("2").word_indexes, vec![1, 1]);
}

#[test]
fn build_on_a_missing_root_does_nothing() {
    let mut root: Vertex = None;
    build(&mut root, &vec![vec![1], vec![2]]);
    assert!(root.is_none());
}
