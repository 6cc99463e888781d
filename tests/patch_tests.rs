use patchwork::myers::{diff, Edit};
use patchwork::patch::{apply, hunks, Hunk};
use patchwork::serialization::PatchError;

#[test]
fn test_single_hunk() {
    let old = vec![1, 2, 3, 4, 5];
    let new = vec![1, 2, 99, 4, 5];
    let expected_hunks = vec![Hunk {
        old_start: 0,
        new_start: 0,
        changes: vec![
            Edit::Equal(1),
            Edit::Equal(2),
            Edit::Insert(99),
            Edit::Delete(3),
            Edit::Equal(4),
            Edit::Equal(5),
        ],
    }];
    let edits = diff(&old, &new);
    let result = hunks(edits);
    assert_eq!(result, expected_hunks);
}

#[test]
fn test_two_hunks() {
    // two changes far apart, should produce two hunks
    let old = vec![1, 2, 3, 4, 5, 6, 7, 8, 9, 10];
    let new = vec![99, 2, 3, 4, 5, 6, 7, 8, 9, 99];
    let expected_hunks = vec![
        Hunk {
            old_start: 0,
            new_start: 0,
            changes: vec![
                Edit::Insert(99),
                Edit::Delete(1),
                Edit::Equal(2),
                Edit::Equal(3),
                Edit::Equal(4),
            ],
        },
        Hunk {
            old_start: 6,
            new_start: 6,
            changes: vec![
                Edit::Equal(7),
                Edit::Equal(8),
                Edit::Equal(9),
                Edit::Insert(99),
                Edit::Delete(10),
            ],
        },
    ];
    let edits = diff(&old, &new);
    let result = hunks(edits);
    assert_eq!(result, expected_hunks);
}

#[test]
fn test_change_at_start() {
    let old = vec![1, 2, 3, 4, 5];
    let new = vec![99, 2, 3, 4, 5];
    let expected_hunks = vec![Hunk {
        old_start: 0,
        new_start: 0,
        changes: vec![
            Edit::Insert(99),
            Edit::Delete(1),
            Edit::Equal(2),
            Edit::Equal(3),
            Edit::Equal(4),
        ],
    }];
    let edits = diff(&old, &new);
    let result = hunks(edits);
    assert_eq!(result, expected_hunks);
}

#[test]
fn test_change_at_end() {
    let old = vec![1, 2, 3, 4, 5];
    let new = vec![1, 2, 3, 4, 99];
    let expected_hunks = vec![Hunk {
        old_start: 1,
        new_start: 1,
        changes: vec![
            Edit::Equal(2),
            Edit::Equal(3),
            Edit::Equal(4),
            Edit::Insert(99),
            Edit::Delete(5),
        ],
    }];
    let edits = diff(&old, &new);
    let result = hunks(edits);
    assert_eq!(result, expected_hunks);
}

#[test]
fn patch_test_no_changes() {
    let old = vec![1, 2, 3, 4, 5];
    let edits = diff(&old, &old);
    let result = hunks(edits);
    assert_eq!(result, vec![]);
}

#[test]
fn test_apply_change_in_middle() {
    let old = vec![
        "a".to_string(),
        "b".to_string(),
        "c".to_string(),
        "d".to_string(),
        "e".to_string(),
    ];
    let new = vec![
        "a".to_string(),
        "b".to_string(),
        "X".to_string(),
        "d".to_string(),
        "e".to_string(),
    ];
    let edits = diff(&old, &new);
    let hunks = hunks(edits);
    let result = apply(&old, &hunks);
    assert_eq!(result, Ok(new));
}

#[test]
fn test_apply_multiple_hunks() {
    let old = vec!["a", "b", "c", "d", "e", "f", "g", "h", "i", "j"]
        .into_iter()
        .map(|s| s.to_string())
        .collect::<Vec<_>>();
    let new = vec!["X", "b", "c", "d", "e", "f", "g", "h", "i", "Y"]
        .into_iter()
        .map(|s| s.to_string())
        .collect::<Vec<_>>();
    let edits = diff(&old, &new);
    let hunks = hunks(edits);
    let result = apply(&old, &hunks);
    assert_eq!(result, Ok(new));
}

#[test]
fn test_apply_invalid_patch() {
    let old = vec!["a".to_string(), "b".to_string(), "c".to_string()];
    let bad_hunk = Hunk {
        old_start: 0,
        new_start: 0,
        changes: vec![
            Edit::Equal("x".to_string()), // but old[0] is "a", mismatch!
            Edit::Delete("y".to_string()),
            Edit::Insert("z".to_string()),
        ],
    };

    let result = apply(&old, &[bad_hunk]);
    assert!(result.is_err());
}

fn strings(items: &[&str]) -> Vec<String> {
    items.iter().map(|s| s.to_string()).collect()
}

#[test]
fn context_mismatch_is_invalid_format() {
    let old = strings(&["a", "b", "c"]);
    let bad_hunk = Hunk {
        old_start: 0,
        new_start: 0,
        changes: vec![
            Edit::Equal("x".to_string()),
            Edit::Delete("y".to_string()),
            Edit::Insert("z".to_string()),
        ],
    };
    match apply(&old, &[bad_hunk]) {
        Err(PatchError::InvalidFormat(_)) => {}
        other => panic!("expected InvalidFormat, got {:?}", other),
    }
}

#[test]
fn overlapping_hunks_are_rejected() {
    let old = strings(&["a", "b", "c", "d"]);
    let first = Hunk {
        old_start: 0,
        new_start: 0,
        changes: vec![Edit::Equal("a".to_string()), Edit::Delete("b".to_string())],
    };
    let second = Hunk {
        old_start: 1,
        new_start: 1,
        changes: vec![Edit::Delete("b".to_string())],
    };
    match apply(&old, &[first, second]) {
        Err(PatchError::InvalidFormat(_)) => {}
        other => panic!("expected InvalidFormat, got {:?}", other),
    }
}

#[test]
fn apply_to_empty_original_collects_inserts() {
    let old: Vec<String> = Vec::new();
    let hs = vec![
        Hunk {
            old_start: 0,
            new_start: 0,
            changes: vec![Edit::Insert("p".to_string()), Edit::Equal("q".to_string())],
        },
        Hunk {
            old_start: 5,
            new_start: 5,
            changes: vec![Edit::Delete("r".to_string()), Edit::Insert("s".to_string())],
        },
    ];
    assert_eq!(apply(&old, &hs), Ok(strings(&["p", "s"])));
}

#[test]
fn apply_without_hunks_returns_original() {
    let old = strings(&["a", "b"]);
    assert_eq!(apply(&old, &[]), Ok(old.clone()));
}

#[test]
fn every_change_lands_in_a_hunk() {
    let old: Vec<u8> = vec![1, 2, 3, 4, 5, 6, 7, 8, 9, 10, 11, 12];
    let new: Vec<u8> = vec![0, 2, 3, 4, 5, 66, 7, 8, 9, 10, 11, 12, 13];
    let edits = diff(&old, &new);
    let result = hunks(edits.clone());
    let all: Vec<Edit<u8>> = result.iter().flat_map(|h| h.changes.iter().cloned()).collect();
    for e in &edits {
        if !matches!(e, Edit::Equal(_)) {
            assert!(all.contains(e));
        }
    }
}

#[test]
fn apply_round_trip_on_strings() {
    let old = strings(&["a", "b", "c", "d", "e", "f", "g", "h", "i", "j", "k"]);
    let new = strings(&["b", "c", "d", "x", "e", "f", "g", "h", "j", "k", "l"]);
    let hs = hunks(diff(&old, &new));
    assert_eq!(apply(&old, &hs), Ok(new));
}

#[test]
fn hunks_close_after_three_equals_and_reopen_without_overlap() {
    let old = strings(&["x", "a", "b", "c", "y"]);
    let new = strings(&["a", "b", "c"]);
    let hs = hunks(diff(&old, &new));
    assert_eq!(
        hs,
        vec![
            Hunk {
                old_start: 0,
                new_start: 0,
                changes: vec![
                    Edit::Delete("x".to_string()),
                    Edit::Equal("a".to_string()),
                    Edit::Equal("b".to_string()),
                    Edit::Equal("c".to_string()),
                ],
            },
            Hunk {
                old_start: 4,
                new_start: 3,
                changes: vec![Edit::Delete("y".to_string())],
            },
        ]
    );
    assert_eq!(apply(&old, &hs), Ok(new));
}

#[test]
fn two_hunks_from_numbers() {
    let old: Vec<u32> = (1..=10).collect();
    let new: Vec<u32> = vec![99, 2, 3, 4, 5, 6, 7, 8, 9, 99];
    let hs = hunks(diff(&old, &new));
    assert_eq!(hs.len(), 2);
    assert_eq!(hs[0].old_start, 0);
    assert_eq!(hs[1].old_start, 6);
    for h in &hs {
        let leading = h.changes.iter().take_while(|e| matches!(e, Edit::Equal(_))).count();
        let trailing = h.changes.iter().rev().take_while(|e| matches!(e, Edit::Equal(_))).count();
        assert!(leading <= 3 && trailing <= 3);
    }
}

#[test]
fn trailing_insert_after_a_closed_hunk() {
    let old = strings(&["x", "a", "b", "c"]);
    let new = strings(&["a", "b", "c", "y"]);
    let hs = hunks(diff(&old, &new));
    assert_eq!(
        hs,
        vec![
            Hunk {
                old_start: 0,
                new_start: 0,
                changes: vec![
                    Edit::Delete("x".to_string()),
                    Edit::Equal("a".to_string()),
                    Edit::Equal("b".to_string()),
                    Edit::Equal("c".to_string()),
                ],
            },
            Hunk { old_start: 4, new_start: 3, changes: vec![Edit::Insert("y".to_string())] },
        ]
    );
    assert_eq!(apply(&old, &hs), Ok(new));
}

#[test]
fn delete_past_the_end_is_rejected() {
    let old = strings(&["a"]);
    let h = Hunk {
        old_start: 0,
        new_start: 0,
        changes: vec![Edit::Delete("a".to_string()), Edit::Delete("b".to_string())],
    };
    assert!(matches!(apply(&old, &[h]), Err(PatchError::InvalidFormat(_))));
}

#[test]
fn hunk_past_the_end_is_rejected() {
    let old = strings(&["a"]);
    let h = Hunk { old_start: 5, new_start: 5, changes: vec![Edit::Insert("z".to_string())] };
    match apply(&old, &[h]) {
        Err(PatchError::InvalidFormat(m)) => assert!(m.starts_with("at line 1:")),
        other => panic!("expected InvalidFormat, got {:?}", other),
    }
}

#[test]
fn mismatch_names_its_line() {
    let old = strings(&["a", "b"]);
    let h = Hunk {
        old_start: 1,
        new_start: 1,
        changes: vec![Edit::Equal("x".to_string())],
    };
    assert_eq!(
        apply(&old, &[h]),
        Err(PatchError::InvalidFormat("at line 1: expected 'x', found 'b'".to_string()))
    );
}
