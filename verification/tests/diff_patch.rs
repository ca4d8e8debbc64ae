use jsonpatch::Op;
use jsonpatch::Patch;
use jsonpatch::PatchError;
use jsonpatch::Path;
use jsonpatch::Value;
use jsonpatch::diff;
use jsonpatch::parse_pointer;
use jsonpatch::patch;

fn key(x: &str) -> String {
    x.to_string()
}

fn text(x: &str) -> Value {
    Value::Str(x.to_string())
}

fn ptr(x: &str) -> Path {
    parse_pointer(x).unwrap()
}

/// The document pair of the reference example: entries are listed in key
/// order, as the well-formedness invariant asks.
fn example_left() -> Value {
    Value::Obj(vec![
        (
            key("author"),
            Value::Obj(vec![
                (key("familyName"), text("Doe")),
                (key("givenName"), text("John")),
            ]),
        ),
        (key("content"), text("This will be unchanged")),
        (key("tags"), Value::Arr(vec![text("example"), text("sample")])),
        (key("title"), text("Goodbye!")),
    ])
}

fn example_right() -> Value {
    Value::Obj(vec![
        (
            key("author"),
            Value::Obj(vec![(key("givenName"), text("John"))]),
        ),
        (key("content"), text("This will be unchanged")),
        (key("phoneNumber"), text("+01-123-456-7890")),
        (key("tags"), Value::Arr(vec![text("example")])),
        (key("title"), text("Hello!")),
    ])
}

#[test]
fn diff_reference_example_exact_patch() {
    let left = example_left();
    let right = example_right();
    let p = diff(&left, &right);
    let expected = vec![
        Op::Remove { path: ptr("/author/familyName") },
        Op::Remove { path: ptr("/tags/1") },
        Op::Replace { path: ptr("/title"), value: text("Hello!") },
        Op::Add { path: ptr("/phoneNumber"), value: text("+01-123-456-7890") },
    ];
    assert_eq!(p.0, expected);
}

#[test]
fn diff_reference_example_patch_applies() {
    let left = example_left();
    let right = example_right();
    let p = diff(&left, &right);
    let out = patch(&left, &p).unwrap();
    assert_eq!(out, right);
}

#[test]
fn diff_of_document_with_itself_is_empty() {
    let a = example_left();
    let p = diff(&a, &a);
    assert!(p.0.is_empty());
    let b = Value::Arr(vec![Value::Null, Value::Int(3), Value::Bool(true)]);
    assert!(diff(&b, &b).0.is_empty());
}

#[test]
fn empty_patch_returns_document_unchanged() {
    let a = example_left();
    let out = patch(&a, &Patch(vec![])).unwrap();
    assert_eq!(out, a);
}

#[test]
fn test_op_passes_on_equal_value() {
    let a = example_left();
    let ops = Patch(vec![Op::Test { path: ptr("/title"), value: text("Goodbye!") }]);
    let out = patch(&a, &ops).unwrap();
    assert_eq!(out, a);
}

#[test]
fn test_op_fails_on_unequal_value() {
    let a = example_left();
    let ops = Patch(vec![Op::Test { path: ptr("/title"), value: text("Hello!") }]);
    assert_eq!(patch(&a, &ops), Err(PatchError::PatchTestFailed));
}

#[test]
fn test_op_compares_objects_regardless_of_entry_count_mismatch() {
    let a = Value::Obj(vec![(key("x"), Value::Int(1)), (key("y"), Value::Int(2))]);
    let expected = Value::Obj(vec![(key("x"), Value::Int(1))]);
    let ops = Patch(vec![Op::Test { path: ptr(""), value: expected }]);
    assert_eq!(patch(&a, &ops), Err(PatchError::PatchTestFailed));
}

#[test]
fn failing_patch_leaves_original_untouched() {
    let a = Value::Obj(vec![(key("tags"), Value::Arr(vec![text("a"), text("b")]))]);
    let before = Value::Obj(vec![(key("tags"), Value::Arr(vec![text("a"), text("b")]))]);
    let ops = Patch(vec![
        Op::Remove { path: ptr("/tags/0") },
        Op::Remove { path: ptr("/tags/7") },
    ]);
    let r = patch(&a, &ops);
    assert_eq!(r, Err(PatchError::IndexOutOfBounds));
    assert_eq!(a, before);
}

#[test]
fn array_remove_shifts_left() {
    let a = Value::Obj(vec![(
        key("tags"),
        Value::Arr(vec![text("a"), text("b"), text("c")]),
    )]);
    let ops = Patch(vec![Op::Remove { path: ptr("/tags/0") }]);
    let out = patch(&a, &ops).unwrap();
    let expected = Value::Obj(vec![(key("tags"), Value::Arr(vec![text("b"), text("c")]))]);
    assert_eq!(out, expected);
}

#[test]
fn array_add_shifts_right() {
    let a = Value::Obj(vec![(
        key("tags"),
        Value::Arr(vec![text("a"), text("b"), text("c")]),
    )]);
    let ops = Patch(vec![Op::Add { path: ptr("/tags/0"), value: text("x") }]);
    let out = patch(&a, &ops).unwrap();
    let expected = Value::Obj(vec![(
        key("tags"),
        Value::Arr(vec![text("x"), text("a"), text("b"), text("c")]),
    )]);
    assert_eq!(out, expected);
}

#[test]
fn array_add_with_dash_appends() {
    let a = Value::Arr(vec![Value::Int(1)]);
    let ops = Patch(vec![Op::Add { path: ptr("/-"), value: Value::Int(2) }]);
    let out = patch(&a, &ops).unwrap();
    assert_eq!(out, Value::Arr(vec![Value::Int(1), Value::Int(2)]));
}

#[test]
fn move_reindexes_against_post_removal_array() {
    let a = Value::Obj(vec![(
        key("a"),
        Value::Arr(vec![Value::Int(1), Value::Int(2), Value::Int(3)]),
    )]);
    let ops = Patch(vec![Op::Move { from: ptr("/a/0"), path: ptr("/a/2") }]);
    let out = patch(&a, &ops).unwrap();
    let expected = Value::Obj(vec![(
        key("a"),
        Value::Arr(vec![Value::Int(2), Value::Int(3), Value::Int(1)]),
    )]);
    assert_eq!(out, expected);
}

#[test]
fn copy_duplicates_value() {
    let a = Value::Obj(vec![(key("x"), Value::Int(7))]);
    let ops = Patch(vec![Op::Copy { from: ptr("/x"), path: ptr("/y") }]);
    let out = patch(&a, &ops).unwrap();
    let expected = Value::Obj(vec![(key("x"), Value::Int(7)), (key("y"), Value::Int(7))]);
    assert_eq!(out, expected);
}

#[test]
fn add_overwrites_existing_object_key() {
    let a = Value::Obj(vec![(key("x"), Value::Int(7))]);
    let ops = Patch(vec![Op::Add { path: ptr("/x"), value: Value::Int(8) }]);
    let out = patch(&a, &ops).unwrap();
    assert_eq!(out, Value::Obj(vec![(key("x"), Value::Int(8))]));
}

#[test]
fn add_keeps_keys_sorted() {
    let a = Value::Obj(vec![(key("b"), Value::Int(1)), (key("d"), Value::Int(2))]);
    let ops = Patch(vec![Op::Add { path: ptr("/c"), value: Value::Int(9) }]);
    let out = patch(&a, &ops).unwrap();
    let expected = Value::Obj(vec![
        (key("b"), Value::Int(1)),
        (key("c"), Value::Int(9)),
        (key("d"), Value::Int(2)),
    ]);
    assert_eq!(out, expected);
}

#[test]
fn remove_missing_key_is_path_not_found() {
    let a = Value::Obj(vec![(key("x"), Value::Int(7))]);
    let ops = Patch(vec![Op::Remove { path: ptr("/y") }]);
    assert_eq!(patch(&a, &ops), Err(PatchError::PathNotFound));
}

#[test]
fn replace_missing_key_is_path_not_found() {
    let a = Value::Obj(vec![(key("x"), Value::Int(7))]);
    let ops = Patch(vec![Op::Replace { path: ptr("/y"), value: Value::Null }]);
    assert_eq!(patch(&a, &ops), Err(PatchError::PathNotFound));
}

#[test]
fn descending_into_scalar_is_type_mismatch() {
    let a = Value::Obj(vec![(key("x"), Value::Int(7))]);
    let ops = Patch(vec![Op::Remove { path: ptr("/x/deep") }]);
    assert_eq!(patch(&a, &ops), Err(PatchError::TypeMismatch));
}

#[test]
fn array_index_out_of_bounds() {
    let a = Value::Arr(vec![Value::Int(1)]);
    let ops = Patch(vec![Op::Remove { path: ptr("/3") }]);
    assert_eq!(patch(&a, &ops), Err(PatchError::IndexOutOfBounds));
}

#[test]
fn huge_array_index_is_out_of_bounds() {
    let a = Value::Arr(vec![Value::Int(1)]);
    let ops = Patch(vec![Op::Remove { path: ptr("/99999999999999999999999999999") }]);
    assert_eq!(patch(&a, &ops), Err(PatchError::IndexOutOfBounds));
}

#[test]
fn non_numeric_array_segment_is_invalid_path() {
    let a = Value::Arr(vec![Value::Int(1)]);
    let ops = Patch(vec![Op::Remove { path: ptr("/first") }]);
    assert_eq!(patch(&a, &ops), Err(PatchError::InvalidPathSyntax));
}

#[test]
fn dash_segment_on_remove_is_out_of_bounds() {
    let a = Value::Arr(vec![Value::Int(1)]);
    let ops = Patch(vec![Op::Remove { path: ptr("/-") }]);
    assert_eq!(patch(&a, &ops), Err(PatchError::IndexOutOfBounds));
}

#[test]
fn round_trip_on_nested_documents() {
    let a = Value::Obj(vec![
        (key("kept"), Value::Bool(true)),
        (
            key("nested"),
            Value::Obj(vec![
                (key("arr"), Value::Arr(vec![Value::Int(1), Value::Int(2)])),
                (key("gone"), Value::Null),
            ]),
        ),
    ]);
    let b = Value::Obj(vec![
        (key("fresh"), text("new")),
        (key("kept"), Value::Bool(true)),
        (
            key("nested"),
            Value::Obj(vec![(
                key("arr"),
                Value::Arr(vec![Value::Int(1), Value::Int(5), Value::Int(6)]),
            )]),
        ),
    ]);
    let p = diff(&a, &b);
    assert_eq!(patch(&a, &p).unwrap(), b);
    let q = diff(&b, &a);
    assert_eq!(patch(&b, &q).unwrap(), a);
}

#[test]
fn round_trip_across_kind_changes() {
    let a = Value::Arr(vec![Value::Int(1)]);
    let b = Value::Obj(vec![(key("x"), Value::Null)]);
    let p = diff(&a, &b);
    assert_eq!(p.0.len(), 1);
    assert_eq!(patch(&a, &p).unwrap(), b);
}

#[test]
fn diff_longer_right_array_appends_in_order() {
    let a = Value::Arr(vec![Value::Int(1)]);
    let b = Value::Arr(vec![Value::Int(1), Value::Int(2), Value::Int(3)]);
    let p = diff(&a, &b);
    let expected = vec![
        Op::Add { path: ptr("/1"), value: Value::Int(2) },
        Op::Add { path: ptr("/2"), value: Value::Int(3) },
    ];
    assert_eq!(p.0, expected);
    assert_eq!(patch(&a, &p).unwrap(), b);
}

#[test]
fn diff_shorter_right_array_removes_descending() {
    let a = Value::Arr(vec![Value::Int(1), Value::Int(2), Value::Int(3)]);
    let b = Value::Arr(vec![Value::Int(1)]);
    let p = diff(&a, &b);
    let expected = vec![
        Op::Remove { path: ptr("/2") },
        Op::Remove { path: ptr("/1") },
    ];
    assert_eq!(p.0, expected);
    assert_eq!(patch(&a, &p).unwrap(), b);
}

#[test]
fn two_digit_array_indices_print_and_read_back() {
    let a = Value::Arr((0..11).map(Value::Int).collect());
    let b = Value::Arr((0..12).map(Value::Int).collect());
    let p = diff(&a, &b);
    assert_eq!(p.0, vec![Op::Add { path: ptr("/11"), value: Value::Int(11) }]);
    match &p.0[0] {
        Op::Add { path, .. } => assert_eq!(jsonpatch::encode_pointer(path), "/11"),
        _ => unreachable!(),
    }
    assert_eq!(patch(&a, &p).unwrap(), b);
}
