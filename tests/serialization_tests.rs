use patchwork::myers::{diff, Edit};
use patchwork::patch::{hunks, Hunk};
use patchwork::serialization::{parse_hunk_header, FromPatch, PatchError, ToPatch};

#[test]
fn test_multi_hunk_patch_format() {
    let old: Vec<&str> = vec!["a", "b", "c", "d", "e", "f", "g", "h", "i", "j"];
    let new: Vec<&str> = vec!["X", "b", "c", "d", "e", "f", "g", "h", "i", "Y"];
    let edits = diff(&old, &new);
    let h = hunks(edits);
    assert_eq!(h.len(), 2, "expected 2 hunks");
    let patch = h.to_patch(Some("old.txt"), Some("new.txt"));
    // Each @@ header must start on its own line
    for line in patch.lines() {
        if line.starts_with("@@") || line.starts_with("---") || line.starts_with("+++") {
            continue;
        }
        assert!(
            !line.contains("@@"),
            "@@ header is not on its own line: {:?}",
            line
        );
    }
}

#[test]
fn test_multi_hunk_roundtrip() {
    let old: Vec<String> = vec!["a", "b", "c", "d", "e", "f", "g", "h", "i", "j"]
        .into_iter()
        .map(String::from)
        .collect();
    let new: Vec<String> = vec!["X", "b", "c", "d", "e", "f", "g", "h", "i", "Y"]
        .into_iter()
        .map(String::from)
        .collect();
    let edits = diff(&old, &new);
    let h = hunks(edits);
    let patch = h.to_patch(Some("old.txt"), Some("new.txt"));
    let parsed = Vec::<Hunk<String>>::from_patch(&patch).unwrap();
    assert_eq!(parsed, h);
}

#[test]
fn exact_patch_text() {
    let h = vec![Hunk {
        old_start: 1,
        new_start: 1,
        changes: vec![
            Edit::Equal("b".to_string()),
            Edit::Insert("x".to_string()),
            Edit::Delete("c".to_string()),
        ],
    }];
    assert_eq!(h.to_patch(None, None), "--- old\n+++ new\n@@ -1,2 +1,2 @@\n b\n+x\n-c");
    assert_eq!(
        h.to_patch(Some("a.txt"), Some("b.txt")),
        "--- a.txt\n+++ b.txt\n@@ -1,2 +1,2 @@\n b\n+x\n-c"
    );
}

#[test]
fn two_hunks_are_separated_by_one_newline() {
    let h = vec![
        Hunk { old_start: 0, new_start: 0, changes: vec![Edit::Delete("a".to_string())] },
        Hunk { old_start: 12, new_start: 11, changes: vec![Edit::Insert("z".to_string())] },
    ];
    assert_eq!(
        h.to_patch(None, None),
        "--- old\n+++ new\n@@ -0,1 +0,0 @@\n-a\n@@ -12,0 +11,1 @@\n+z"
    );
}

#[test]
fn empty_hunk_list_is_empty_text() {
    let h: Vec<Hunk<String>> = Vec::new();
    assert_eq!(h.to_patch(None, None), "");
    assert_eq!(Vec::<Hunk<String>>::from_patch(""), Ok(Vec::new()));
}

#[test]
fn edit_lines_round_trip() {
    let e = Edit::Insert("q r".to_string());
    assert_eq!(e.to_patch(None, None), "+q r");
    assert_eq!(Edit::<String>::from_patch("+q r"), Ok(e));
    assert_eq!(Edit::<String>::from_patch(" k"), Ok(Edit::Equal("k".to_string())));
    assert_eq!(Edit::<String>::from_patch("-"), Ok(Edit::Delete(String::new())));
}

#[test]
fn unexpected_first_character() {
    assert_eq!(
        Edit::<String>::from_patch("*x"),
        Err(PatchError::UnexpectedToken("*x".to_string()))
    );
    match Vec::<Hunk<String>>::from_patch("--- a\n+++ b\n@@ -0,1 +0,1 @@\n?bad") {
        Err(PatchError::UnexpectedToken(_)) => {}
        other => panic!("expected UnexpectedToken, got {:?}", other),
    }
}

#[test]
fn missing_file_headers() {
    match Vec::<Hunk<String>>::from_patch("@@ -0,1 +0,1 @@\n-a") {
        Err(PatchError::InvalidFormat(_)) => {}
        other => panic!("expected InvalidFormat, got {:?}", other),
    }
    match Vec::<Hunk<String>>::from_patch("--- only one line") {
        Err(PatchError::InvalidFormat(_)) => {}
        other => panic!("expected InvalidFormat, got {:?}", other),
    }
}

#[test]
fn edit_line_before_any_header() {
    match Vec::<Hunk<String>>::from_patch("--- a\n+++ b\n-a") {
        Err(PatchError::InvalidFormat(_)) => {}
        other => panic!("expected InvalidFormat, got {:?}", other),
    }
}

#[test]
fn hunk_headers() {
    assert_eq!(parse_hunk_header("@@ -12,3 +15,4 @@"), Ok((12, 15)));
    assert_eq!(parse_hunk_header("@@ -0 +7 @@"), Ok((0, 7)));
    assert!(matches!(parse_hunk_header("@@ -x,3 +1,1 @@"), Err(PatchError::InvalidFormat(_))));
    assert!(matches!(parse_hunk_header("@@ -1,3 @@"), Err(PatchError::InvalidFormat(_))));
    assert!(matches!(
        parse_hunk_header("@@ -99999999999999999999999,1 +1,1 @@"),
        Err(PatchError::InvalidFormat(_))
    ));
}

#[test]
fn carriage_returns_survive_the_text_form() {
    let h = vec![Hunk {
        old_start: 0,
        new_start: 0,
        changes: vec![Edit::Delete("a\r".to_string()), Edit::Insert("b\r".to_string())],
    }];
    let text = h.to_patch(None, None);
    assert_eq!(Vec::<Hunk<String>>::from_patch(&text), Ok(h));
}
