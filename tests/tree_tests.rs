use patchwork::myers::Edit;
use patchwork::recursive::{apply, apply_tree, diff, diff_tree, Change, ChangeKind, Node, PathSegment};
use std::collections::HashMap;

#[test]
fn mod_test_leaf_modified() {
    let mut a = HashMap::new();
    a.insert("a".to_string(), 1);
    let mut b = HashMap::new();
    b.insert("a".to_string(), 2);
    let result = diff(&a, &b);
    assert_eq!(
        result,
        vec![Change {
            path: vec![PathSegment::Key("a".to_string())],
            kind: ChangeKind::Modified(1, 2)
        }]
    );
}

#[test]
fn mod_test_key_added() {
    let mut a = HashMap::new();
    a.insert("a".to_string(), 1);
    let mut b = HashMap::new();
    b.insert("a".to_string(), 1);
    b.insert("c".to_string(), 2);
    let result = diff(&a, &b);
    assert_eq!(
        result,
        vec![Change {
            path: vec![PathSegment::Key("c".to_string())],
            kind: ChangeKind::Added(2)
        }]
    );
}

#[test]
fn mod_test_key_removed() {
    let mut a = HashMap::new();
    a.insert("a".to_string(), 1);
    a.insert("c".to_string(), 2);
    let mut b = HashMap::new();
    b.insert("a".to_string(), 1);
    let result = diff(&a, &b);
    assert_eq!(
        result,
        vec![Change {
            path: vec![PathSegment::Key("c".to_string())],
            kind: ChangeKind::Removed(2)
        }]
    );
}

#[test]
fn mod_test_nested_map() {
    let mut a = HashMap::new();
    let mut nested_a = HashMap::new();
    nested_a.insert("nested".to_string(), 1);
    a.insert("b".to_string(), nested_a);
    let mut b = HashMap::new();
    let mut nested_b = HashMap::new();
    nested_b.insert("nested".to_string(), 2);
    b.insert("b".to_string(), nested_b);
    let result = diff(&a, &b);
    assert_eq!(
        result,
        vec![Change {
            path: vec![
                PathSegment::Key("b".to_string()),
                PathSegment::Key("nested".to_string())
            ],
            kind: ChangeKind::Modified(1, 2)
        }]
    );
}

#[test]
fn mod_test_sequence_of_primitives() {
    let a = vec![1, 2, 3];
    let b = vec![1, 3, 4];
    let result = diff(&a, &b);
    assert_eq!(
        result,
        vec![Change {
            path: vec![],
            kind: ChangeKind::SequenceChange(vec![
                Edit::Equal(Node::Leaf(1)),
                Edit::Delete(Node::Leaf(2)),
                Edit::Equal(Node::Leaf(3)),
                Edit::Insert(Node::Leaf(4))
            ])
        }]
    );
}

#[test]
fn mod_test_no_changes() {
    let a = vec![1, 2, 3];
    let result = diff(&a, &a);
    assert_eq!(result, vec![]);
}

#[test]
fn lib_test_leaf_modified() {
    let mut a = HashMap::new();
    a.insert("a".to_string(), 1);
    let mut b = HashMap::new();
    b.insert("a".to_string(), 2);
    let result = diff(&a, &b);
    assert_eq!(
        result,
        vec![Change {
            path: vec![PathSegment::Key("a".to_string())],
            kind: ChangeKind::Modified(1, 2)
        }]
    );
}

#[test]
fn lib_test_key_added() {
    let mut a = HashMap::new();
    a.insert("a".to_string(), 1);
    let mut b = HashMap::new();
    b.insert("a".to_string(), 1);
    b.insert("c".to_string(), 2);
    let result = diff(&a, &b);
    assert_eq!(
        result,
        vec![Change {
            path: vec![PathSegment::Key("c".to_string())],
            kind: ChangeKind::Added(2)
        }]
    );
}

#[test]
fn lib_test_key_removed() {
    let mut a = HashMap::new();
    a.insert("a".to_string(), 1);
    a.insert("c".to_string(), 2);
    let mut b = HashMap::new();
    b.insert("a".to_string(), 1);
    let result = diff(&a, &b);
    assert_eq!(
        result,
        vec![Change {
            path: vec![PathSegment::Key("c".to_string())],
            kind: ChangeKind::Removed(2)
        }]
    );
}

#[test]
fn lib_test_nested_map() {
    let mut a = HashMap::new();
    let mut nested_a = HashMap::new();
    nested_a.insert("nested".to_string(), 1);
    a.insert("b".to_string(), nested_a);
    let mut b = HashMap::new();
    let mut nested_b = HashMap::new();
    nested_b.insert("nested".to_string(), 2);
    b.insert("b".to_string(), nested_b);
    let result = diff(&a, &b);
    assert_eq!(
        result,
        vec![Change {
            path: vec![
                PathSegment::Key("b".to_string()),
                PathSegment::Key("nested".to_string())
            ],
            kind: ChangeKind::Modified(1, 2)
        }]
    );
}

#[test]
fn lib_test_sequence_of_primitives() {
    let a = vec![1, 2, 3];
    let b = vec![1, 3, 4];
    let result = diff(&a, &b);
    assert_eq!(
        result,
        vec![Change {
            path: vec![],
            kind: ChangeKind::SequenceChange(vec![
                Edit::Equal(Node::Leaf(1)),
                Edit::Delete(Node::Leaf(2)),
                Edit::Equal(Node::Leaf(3)),
                Edit::Insert(Node::Leaf(4))
            ])
        }]
    );
}

#[test]
fn lib_test_no_changes() {
    let a = vec![1, 2, 3];
    let result = diff(&a, &a);

    assert_eq!(result, vec![]);
}

#[test]
fn test_apply_round_trip() {
    let mut old = HashMap::new();
    old.insert("a".to_string(), 1);
    old.insert("b".to_string(), 2);

    let mut new = HashMap::new();
    new.insert("a".to_string(), 1);
    new.insert("b".to_string(), 3);

    let changes = diff(&old, &new);
    let result = apply(&old, &changes);
    assert_eq!(result, Some(new));
}

#[test]
fn test_apply_round_trip_seq() {
    let mut old = vec![];
    old.push(1);
    old.push(2);

    let mut new = vec![];
    new.push(1);
    new.push(3);

    let changes = diff(&old, &new);
    let result = apply(&old, &changes);
    assert_eq!(result, Some(new));
}

#[test]
fn lib_test_apply_round_trip_seq_with_maps() {
    let mut old = vec![];
    let mut a = HashMap::new();
    let mut b = HashMap::new();
    a.insert("a".to_string(), 1);
    b.insert("b".to_string(), 2);
    old.push(a);
    old.push(b);

    let mut new = vec![];
    let mut an = HashMap::new();
    let mut c = HashMap::new();
    an.insert("a".to_string(), 1);
    c.insert("c".to_string(), 2);
    new.push(an);
    new.push(c);

    let changes = diff(&old, &new);
    let result = apply(&old, &changes);
    assert_eq!(result, Some(new));
}

#[test]
fn test_apply_no_changes() {
    let mut old = vec![];
    let mut a = HashMap::new();
    a.insert("a".to_string(), 1);
    old.push(a);

    let changes = diff(&old, &old);
    let result = apply(&old, &changes);
    assert_eq!(result, Some(old));
}

#[test]
fn lib_test_apply_nested_map() {
    let mut old = HashMap::new();
    let mut nested_a = HashMap::new();
    nested_a.insert("nested".to_string(), 1);
    old.insert("b".to_string(), nested_a);
    let mut new = HashMap::new();
    let mut nested_b = HashMap::new();
    nested_b.insert("nested".to_string(), 2);
    new.insert("b".to_string(), nested_b);
    let changes = diff(&old, &new);
    let result = apply(&old, &changes);
    assert_eq!(result, Some(new));
}

#[test]
fn integration_test_apply_round_trip_seq_with_maps() {
    let mut old = vec![];
    let mut a = HashMap::new();
    let mut b = HashMap::new();
    a.insert("a".to_string(), 1);
    b.insert("b".to_string(), 2);
    old.push(a);
    old.push(b);

    let mut new = vec![];
    let mut an = HashMap::new();
    let mut c = HashMap::new();
    an.insert("a".to_string(), 1);
    c.insert("c".to_string(), 2);
    new.push(an);
    new.push(c);

    let changes = diff(&old, &new);
    let result = apply(&old, &changes);
    assert_eq!(result, Some(new));
}

#[test]
fn integration_test_apply_nested_map() {
    let mut old = HashMap::new();
    let mut nested_a = HashMap::new();
    nested_a.insert("nested".to_string(), 1);
    old.insert("b".to_string(), nested_a);
    let mut new = HashMap::new();
    let mut nested_b = HashMap::new();
    nested_b.insert("nested".to_string(), 2);
    new.insert("b".to_string(), nested_b);
    let changes = diff(&old, &new);
    let result = apply(&old, &changes);
    assert_eq!(result, Some(new));
}

#[test]
fn map_changes_come_in_key_order() {
    let mut a = HashMap::new();
    a.insert("d".to_string(), 4);
    a.insert("b".to_string(), 2);
    a.insert("a".to_string(), 1);
    let mut b = HashMap::new();
    b.insert("c".to_string(), 3);
    b.insert("a".to_string(), 10);
    b.insert("d".to_string(), 4);
    let result = diff(&a, &b);
    assert_eq!(
        result,
        vec![
            Change { path: vec![PathSegment::Key("a".to_string())], kind: ChangeKind::Modified(1, 10) },
            Change { path: vec![PathSegment::Key("b".to_string())], kind: ChangeKind::Removed(2) },
            Change { path: vec![PathSegment::Key("c".to_string())], kind: ChangeKind::Added(3) },
        ]
    );
    assert_eq!(apply(&a, &result), Some(b));
}

#[test]
fn shape_change_is_removal_then_addition() {
    let mut inner = HashMap::new();
    inner.insert("x".to_string(), vec![1]);
    let mut a: HashMap<String, HashMap<String, Vec<i32>>> = HashMap::new();
    a.insert("k".to_string(), inner);
    let b: HashMap<String, HashMap<String, Vec<i32>>> = HashMap::new();
    let result = diff(&a, &b);
    assert_eq!(result.len(), 1);
    assert!(matches!(result[0].kind, ChangeKind::NodeRemoved(Node::Mapping(_))));
    assert_eq!(apply(&a, &result), Some(b));
}

#[test]
fn apply_mismatched_change_gives_none() {
    let a = vec![1, 2];
    let changes = vec![Change { path: vec![], kind: ChangeKind::Modified(1, 2) }];
    assert_eq!(apply(&a, &changes), None);
}

#[test]
fn trees_built_directly() {
    let old: Node<i32> = Node::Mapping(vec![
        ("a".to_string(), Node::Leaf(1)),
        ("b".to_string(), Node::Mapping(vec![("c".to_string(), Node::Leaf(2))])),
    ]);
    let new: Node<i32> = Node::Mapping(vec![
        ("a".to_string(), Node::Sequence(vec![Node::Leaf(1)])),
        ("b".to_string(), Node::Mapping(vec![("c".to_string(), Node::Leaf(3))])),
    ]);
    let changes = diff_tree(&old, &new);
    assert_eq!(
        changes,
        vec![
            Change { path: vec![PathSegment::Key("a".to_string())], kind: ChangeKind::NodeRemoved(Node::Leaf(1)) },
            Change {
                path: vec![PathSegment::Key("a".to_string())],
                kind: ChangeKind::NodeAdded(Node::Sequence(vec![Node::Leaf(1)])),
            },
            Change {
                path: vec![PathSegment::Key("b".to_string()), PathSegment::Key("c".to_string())],
                kind: ChangeKind::Modified(2, 3),
            },
        ]
    );
    assert_eq!(apply_tree(&old, &changes), Some(new));
}

#[test]
fn changed_sequence_under_a_key_applies() {
    let mut a = HashMap::new();
    a.insert("k".to_string(), vec![1]);
    let mut b = HashMap::new();
    b.insert("k".to_string(), vec![2]);
    let changes = diff(&a, &b);
    assert_eq!(apply(&a, &changes), Some(b));
}
