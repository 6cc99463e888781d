use patchwork::myers::{diff, diff_lines, Edit};

#[test]
fn test_diff_lines() {
    let old = "hello\nworld\nfoo";
    let new = "hello\nrust\nfoo";
    let result = diff_lines(old, new);
    assert_eq!(
        result,
        vec![
            Edit::Equal("hello".to_string()),
            Edit::Insert("rust".to_string()),
            Edit::Delete("world".to_string()),
            Edit::Equal("foo".to_string()),
        ]
    );
}

#[test]
fn mod_test_simple_diff() {
    let old = vec!["a", "b", "c"];
    let new = vec!["a", "x", "c"];
    let result = diff(&old, &new);
    assert_eq!(
        result,
        [
            Edit::Equal("a"),
            Edit::Insert("x"),
            Edit::Delete("b"),
            Edit::Equal("c")
        ]
    );
}

#[test]
fn mod_test_completely_different() {
    let old = vec!["a", "b", "c"];
    let new = vec!["x", "y", "z"];
    let result = diff(&old, &new);
    assert_eq!(
        result,
        vec![
            Edit::Insert("x"),
            Edit::Insert("y"),
            Edit::Insert("z"),
            Edit::Delete("a"),
            Edit::Delete("b"),
            Edit::Delete("c")
        ]
    )
}

#[test]
fn mod_test_single_element_different() {
    let old = vec!["a"];
    let new = vec!["b"];
    let result = diff(&old, &new);
    assert_eq!(result, vec![Edit::Insert("b"), Edit::Delete("a")]);
}

#[test]
fn mod_test_duplicates() {
    let old = vec!["a", "a", "b"];
    let new = vec!["a", "b", "b"];
    let result = diff(&old, &new);
    assert_eq!(
        result,
        vec![
            Edit::Equal("a"),
            Edit::Delete("a"),
            Edit::Equal("b"),
            Edit::Insert("b")
        ]
    );
}

#[test]
fn mod_test_insertion_in_middle() {
    let old = vec!["a", "c"];
    let new = vec!["a", "b", "c"];
    let result = diff(&old, &new);
    assert_eq!(
        result,
        vec![Edit::Equal("a"), Edit::Insert("b"), Edit::Equal("c")]
    );
}

#[test]
fn diff_test_simple_diff() {
    let old = vec!["a", "b", "c"];
    let new = vec!["a", "x", "c"];
    let result = diff(&old, &new);
    assert_eq!(
        result,
        [
            Edit::Equal("a"),
            Edit::Insert("x"),
            Edit::Delete("b"),
            Edit::Equal("c")
        ]
    );
}

#[test]
fn diff_test_completely_different() {
    let old = vec!["a", "b", "c"];
    let new = vec!["x", "y", "z"];
    let result = diff(&old, &new);
    assert_eq!(result, vec![Edit::Insert("x"), Edit::Insert("y"), Edit::Insert("z"), Edit::Delete("a"), Edit::Delete("b"), Edit::Delete("c")])
}

#[test]
fn diff_test_single_element_different() {
    let old = vec!["a"];
    let new = vec!["b"];
    let result = diff(&old, &new);
    assert_eq!(result, vec![Edit::Insert("b"), Edit::Delete("a")]);
}

#[test]
fn diff_test_duplicates() {
    let old = vec!["a", "a", "b"];
    let new = vec!["a", "b", "b"];
    let result = diff(&old, &new);
    assert_eq!(result, vec![Edit::Equal("a"), Edit::Delete("a"), Edit::Equal("b"), Edit::Insert("b")]);
}

#[test]
fn diff_test_insertion_in_middle() {
    let old = vec!["a", "c"];
    let new = vec!["a", "b", "c"];
    let result = diff(&old, &new);
    assert_eq!(result, vec![Edit::Equal("a"), Edit::Insert("b"), Edit::Equal("c")]);
}

fn counts<T>(edits: &[Edit<T>]) -> (usize, usize, usize) {
    let equals = edits.iter().filter(|e| matches!(e, Edit::Equal(_))).count();
    let inserts = edits.iter().filter(|e| matches!(e, Edit::Insert(_))).count();
    let deletes = edits.iter().filter(|e| matches!(e, Edit::Delete(_))).count();
    (equals, inserts, deletes)
}

#[test]
fn length_conservation_on_bytes() {
    let old: Vec<u8> = vec![1, 2, 3, 4, 5, 6, 7];
    let new: Vec<u8> = vec![2, 9, 4, 4, 6, 1];
    let result = diff(&old, &new);
    let (equals, inserts, deletes) = counts(&result);
    assert_eq!(old.len(), deletes + equals);
    assert_eq!(new.len(), inserts + equals);
}

#[test]
fn diff_of_equal_inputs_is_all_equal() {
    let els: Vec<u8> = vec![3, 1, 4, 1, 5, 9, 2, 6];
    let result = diff(&els, &els);
    let expected: Vec<Edit<u8>> = els.iter().map(|e| Edit::Equal(*e)).collect();
    assert_eq!(result, expected);
}

#[test]
fn diff_against_empty_sides() {
    let els: Vec<u8> = vec![7, 8, 9];
    let empty: Vec<u8> = Vec::new();
    assert_eq!(diff(&empty, &els), vec![Edit::Insert(7), Edit::Insert(8), Edit::Insert(9)]);
    assert_eq!(diff(&els, &empty), vec![Edit::Delete(7), Edit::Delete(8), Edit::Delete(9)]);
    assert_eq!(diff(&empty, &empty), Vec::<Edit<u8>>::new());
}

#[test]
fn symmetry_of_counts() {
    let a: Vec<u8> = vec![1, 2, 3, 4, 5, 6];
    let b: Vec<u8> = vec![6, 2, 3, 7, 5, 1, 1];
    let (eq_ab, ins_ab, del_ab) = counts(&diff(&a, &b));
    let (eq_ba, ins_ba, del_ba) = counts(&diff(&b, &a));
    assert_eq!(eq_ab, eq_ba);
    assert_eq!(ins_ab, del_ba);
    assert_eq!(del_ab, ins_ba);
}

#[test]
fn diff_lines_keeps_carriage_returns() {
    let result = diff_lines("a\r\nb", "a\r\nc");
    assert_eq!(
        result,
        vec![
            Edit::Equal("a\r".to_string()),
            Edit::Insert("c".to_string()),
            Edit::Delete("b".to_string()),
        ]
    );
}

#[test]
fn diff_lines_of_empty_texts() {
    assert_eq!(diff_lines("", ""), vec![Edit::Equal(String::new())]);
    assert_eq!(
        diff_lines("", "x"),
        vec![Edit::Insert("x".to_string()), Edit::Delete(String::new())]
    );
}
