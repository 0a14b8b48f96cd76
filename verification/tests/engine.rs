use jsontool::merge::merge;
use jsontool::patch::{apply, Operation, PatchError, PointerError};
use jsontool::pointer::Pointer;
use jsontool::value::{check_wf, deep_clone, deep_eq, Value};

fn obj(pairs: Vec<(&str, Value)>) -> Value {
    Value::Obj(pairs.into_iter().map(|(k, v)| (k.to_string(), v)).collect())
}

fn arr(items: Vec<Value>) -> Value {
    Value::Arr(items)
}

fn ptr(toks: Vec<&str>) -> Pointer {
    Pointer::new(toks.into_iter().map(|t| t.to_string()).collect())
}

#[test]
fn scenario_patch_sequence() {
    // base {"a":1,"b":[1,2,3]} with [Replace /a 2, Add /b/- 4, Remove /b/0]
    let mut base = obj(vec![
        ("a", Value::Int(1)),
        ("b", arr(vec![Value::Int(1), Value::Int(2), Value::Int(3)])),
    ]);
    let ops = vec![
        Operation::Replace { path: ptr(vec!["a"]), value: Value::Int(2) },
        Operation::Add { path: ptr(vec!["b", "-"]), value: Value::Int(4) },
        Operation::Remove { path: ptr(vec!["b", "0"]) },
    ];
    let r = apply(&mut base, &ops);
    assert_eq!(r, Ok(()));
    let expected = obj(vec![
        ("a", Value::Int(2)),
        ("b", arr(vec![Value::Int(2), Value::Int(3), Value::Int(4)])),
    ]);
    assert!(deep_eq(&base, &expected));
}

#[test]
fn scenario_remove_missing_key() {
    // base {"a":1}, Remove /b fails with KeyNotFound and leaves the tree
    let mut base = obj(vec![("a", Value::Int(1))]);
    let ops = vec![Operation::Remove { path: ptr(vec!["b"]) }];
    let r = apply(&mut base, &ops);
    assert_eq!(r, Err(PatchError::Pointer(PointerError::KeyNotFound)));
    assert!(deep_eq(&base, &obj(vec![("a", Value::Int(1))])));
}

#[test]
fn scenario_merge_fold() {
    // fold {}, then {"a":1,"b":{"c":2}}, then {"b":{"c":null,"d":3}}
    let mut acc = obj(vec![]);
    let first = obj(vec![("a", Value::Int(1)), ("b", obj(vec![("c", Value::Int(2))]))]);
    let second = obj(vec![("b", obj(vec![("c", Value::Null), ("d", Value::Int(3))]))]);
    merge(&mut acc, &first);
    merge(&mut acc, &second);
    let expected = obj(vec![("a", Value::Int(1)), ("b", obj(vec![("d", Value::Int(3))]))]);
    assert!(deep_eq(&acc, &expected));
}

#[test]
fn scenario_move_cycle() {
    // tree {"a":{"b":1}}, Move from /a to /a/b is rejected, tree unchanged
    let mut base = obj(vec![("a", obj(vec![("b", Value::Int(1))]))]);
    let ops = vec![Operation::Move { from: ptr(vec!["a"]), path: ptr(vec!["a", "b"]) }];
    let r = apply(&mut base, &ops);
    assert_eq!(r, Err(PatchError::InvalidMove));
    assert!(deep_eq(&base, &obj(vec![("a", obj(vec![("b", Value::Int(1))]))])));
}

#[test]
fn replace_twice_same_result() {
    let mut once = obj(vec![("a", Value::Int(1)), ("b", Value::Bool(true))]);
    let op = || Operation::Replace { path: ptr(vec!["a"]), value: Value::Int(9) };
    assert_eq!(apply(&mut once, &vec![op()]), Ok(()));
    let mut twice = obj(vec![("a", Value::Int(1)), ("b", Value::Bool(true))]);
    assert_eq!(apply(&mut twice, &vec![op(), op()]), Ok(()));
    assert!(deep_eq(&once, &twice));
}

#[test]
fn add_remove_object_key_restores() {
    let orig = obj(vec![("a", Value::Int(1))]);
    let mut t = deep_clone(&orig);
    let ops = vec![
        Operation::Add { path: ptr(vec!["b"]), value: Value::Str("x".to_string()) },
        Operation::Remove { path: ptr(vec!["b"]) },
    ];
    assert_eq!(apply(&mut t, &ops), Ok(()));
    assert!(deep_eq(&t, &orig));
}

#[test]
fn add_remove_array_index_restores() {
    let orig = obj(vec![("a", arr(vec![Value::Int(1), Value::Int(2)]))]);
    let mut t = deep_clone(&orig);
    let ops = vec![
        Operation::Add { path: ptr(vec!["a", "1"]), value: Value::Int(7) },
        Operation::Remove { path: ptr(vec!["a", "1"]) },
    ];
    assert_eq!(apply(&mut t, &ops), Ok(()));
    assert!(deep_eq(&t, &orig));
}

#[test]
fn move_equals_copy_and_remove() {
    // destinations that part ways at an object key behave the same moved or
    // copied-and-removed
    let base = obj(vec![("a", obj(vec![("x", Value::Int(5))])), ("b", obj(vec![]))]);
    let mut moved = deep_clone(&base);
    let mv = vec![Operation::Move { from: ptr(vec!["a", "x"]), path: ptr(vec!["b", "y"]) }];
    assert_eq!(apply(&mut moved, &mv), Ok(()));
    let mut copied = deep_clone(&base);
    let cp = vec![
        Operation::Copy { from: ptr(vec!["a", "x"]), path: ptr(vec!["b", "y"]) },
        Operation::Remove { path: ptr(vec!["a", "x"]) },
    ];
    assert_eq!(apply(&mut copied, &cp), Ok(()));
    assert!(deep_eq(&moved, &copied));
}

#[test]
fn test_op_pass_no_mutation() {
    let orig = obj(vec![("a", Value::Int(1))]);
    let mut t = deep_clone(&orig);
    let ops = vec![Operation::Test { path: ptr(vec!["a"]), value: Value::Int(1) }];
    assert_eq!(apply(&mut t, &ops), Ok(()));
    assert!(deep_eq(&t, &orig));
}

#[test]
fn test_op_fail_no_mutation() {
    let orig = obj(vec![("a", Value::Int(1))]);
    let mut t = deep_clone(&orig);
    let ops = vec![Operation::Test { path: ptr(vec!["a"]), value: Value::Int(2) }];
    assert_eq!(apply(&mut t, &ops), Err(PatchError::TestFailed));
    assert!(deep_eq(&t, &orig));
}

#[test]
fn merge_right_bias_per_key() {
    // the rightmost document that mentions a key wins
    let mut acc = obj(vec![("k", Value::Int(1)), ("only_a", Value::Int(10))]);
    let b = obj(vec![("k", Value::Int(2)), ("only_b", Value::Int(20))]);
    let c = obj(vec![("k", Value::Int(3))]);
    merge(&mut acc, &b);
    merge(&mut acc, &c);
    let expected = obj(vec![
        ("k", Value::Int(3)),
        ("only_a", Value::Int(10)),
        ("only_b", Value::Int(20)),
    ]);
    assert!(deep_eq(&acc, &expected));
}

#[test]
fn merge_null_deletes_key() {
    let mut acc = obj(vec![("a", Value::Int(1)), ("b", Value::Int(2))]);
    let patch = obj(vec![("a", Value::Null)]);
    merge(&mut acc, &patch);
    assert!(deep_eq(&acc, &obj(vec![("b", Value::Int(2))])));
}

#[test]
fn merge_null_for_missing_key_is_noop() {
    let mut acc = obj(vec![("b", Value::Int(2))]);
    let patch = obj(vec![("a", Value::Null)]);
    merge(&mut acc, &patch);
    assert!(deep_eq(&acc, &obj(vec![("b", Value::Int(2))])));
}

#[test]
fn merge_non_object_replaces() {
    // a non-object patch replaces the target even if the target is an object
    let mut acc = obj(vec![("a", Value::Int(1))]);
    let patch = arr(vec![Value::Int(1), Value::Int(2)]);
    merge(&mut acc, &patch);
    assert!(deep_eq(&acc, &arr(vec![Value::Int(1), Value::Int(2)])));
}

#[test]
fn merge_into_scalar_builds_object() {
    let mut acc = Value::Int(7);
    let patch = obj(vec![("a", Value::Int(1))]);
    merge(&mut acc, &patch);
    assert!(deep_eq(&acc, &obj(vec![("a", Value::Int(1))])));
}

#[test]
fn add_at_root_replaces_document() {
    let mut t = obj(vec![("a", Value::Int(1))]);
    let ops = vec![Operation::Add { path: ptr(vec![]), value: Value::Int(5) }];
    assert_eq!(apply(&mut t, &ops), Ok(()));
    assert!(deep_eq(&t, &Value::Int(5)));
}

#[test]
fn remove_at_root_fails() {
    let mut t = obj(vec![("a", Value::Int(1))]);
    let ops = vec![Operation::Remove { path: ptr(vec![]) }];
    assert_eq!(apply(&mut t, &ops), Err(PatchError::Pointer(PointerError::NotAContainer)));
    assert!(deep_eq(&t, &obj(vec![("a", Value::Int(1))])));
}

#[test]
fn append_with_dash_to_empty_array() {
    let mut t = arr(vec![]);
    let ops = vec![Operation::Add { path: ptr(vec!["-"]), value: Value::Int(1) }];
    assert_eq!(apply(&mut t, &ops), Ok(()));
    assert!(deep_eq(&t, &arr(vec![Value::Int(1)])));
}

#[test]
fn invalid_index_nonnumeric() {
    let mut t = arr(vec![Value::Int(1)]);
    let ops = vec![Operation::Remove { path: ptr(vec!["x"]) }];
    assert_eq!(apply(&mut t, &ops), Err(PatchError::Pointer(PointerError::InvalidIndex)));
}

#[test]
fn invalid_index_out_of_range() {
    let mut t = arr(vec![Value::Int(1)]);
    let ops = vec![Operation::Replace { path: ptr(vec!["1"]), value: Value::Int(2) }];
    assert_eq!(apply(&mut t, &ops), Err(PatchError::Pointer(PointerError::InvalidIndex)));
}

#[test]
fn huge_index_invalid() {
    let mut t = arr(vec![Value::Int(1)]);
    let ops = vec![Operation::Remove { path: ptr(vec!["999999999999999999999999999999"]) }];
    assert_eq!(apply(&mut t, &ops), Err(PatchError::Pointer(PointerError::InvalidIndex)));
}

#[test]
fn dash_cannot_be_removed() {
    let mut t = arr(vec![Value::Int(1)]);
    let ops = vec![Operation::Remove { path: ptr(vec!["-"]) }];
    assert_eq!(apply(&mut t, &ops), Err(PatchError::Pointer(PointerError::InvalidIndex)));
}

#[test]
fn not_a_container_through_scalar() {
    let mut t = obj(vec![("a", Value::Int(1))]);
    let ops = vec![Operation::Remove { path: ptr(vec!["a", "b"]) }];
    assert_eq!(apply(&mut t, &ops), Err(PatchError::Pointer(PointerError::NotAContainer)));
}

#[test]
fn later_ops_see_earlier_effects() {
    let mut t = obj(vec![]);
    let ops = vec![
        Operation::Add { path: ptr(vec!["a"]), value: arr(vec![]) },
        Operation::Add { path: ptr(vec!["a", "-"]), value: Value::Int(1) },
        Operation::Test { path: ptr(vec!["a", "0"]), value: Value::Int(1) },
    ];
    assert_eq!(apply(&mut t, &ops), Ok(()));
    assert!(deep_eq(&t, &obj(vec![("a", arr(vec![Value::Int(1)]))])));
}

#[test]
fn failure_keeps_prior_successful_ops() {
    let mut t = obj(vec![("a", Value::Int(1))]);
    let ops = vec![
        Operation::Replace { path: ptr(vec!["a"]), value: Value::Int(2) },
        Operation::Remove { path: ptr(vec!["missing"]) },
    ];
    assert_eq!(apply(&mut t, &ops), Err(PatchError::Pointer(PointerError::KeyNotFound)));
    assert!(deep_eq(&t, &obj(vec![("a", Value::Int(2))])));
}

#[test]
fn copy_deep_clones_subtree() {
    let mut t = obj(vec![("a", obj(vec![("x", Value::Int(1))]))]);
    let ops = vec![
        Operation::Copy { from: ptr(vec!["a"]), path: ptr(vec!["b"]) },
        Operation::Replace { path: ptr(vec!["a", "x"]), value: Value::Int(2) },
    ];
    assert_eq!(apply(&mut t, &ops), Ok(()));
    let expected = obj(vec![
        ("a", obj(vec![("x", Value::Int(2))])),
        ("b", obj(vec![("x", Value::Int(1))])),
    ]);
    assert!(deep_eq(&t, &expected));
}

#[test]
fn add_overwrites_existing_object_key() {
    let mut t = obj(vec![("a", Value::Int(1)), ("b", Value::Int(2))]);
    let ops = vec![Operation::Add { path: ptr(vec!["a"]), value: Value::Int(9) }];
    assert_eq!(apply(&mut t, &ops), Ok(()));
    assert!(deep_eq(&t, &obj(vec![("a", Value::Int(9)), ("b", Value::Int(2))])));
}

#[test]
fn array_insert_shifts_right() {
    let mut t = arr(vec![Value::Int(1), Value::Int(3)]);
    let ops = vec![Operation::Add { path: ptr(vec!["1"]), value: Value::Int(2) }];
    assert_eq!(apply(&mut t, &ops), Ok(()));
    assert!(deep_eq(&t, &arr(vec![Value::Int(1), Value::Int(2), Value::Int(3)])));
}

#[test]
fn empty_ops_list_is_ok() {
    let mut t = obj(vec![("a", Value::Int(1))]);
    assert_eq!(apply(&mut t, &vec![]), Ok(()));
    assert!(deep_eq(&t, &obj(vec![("a", Value::Int(1))])));
}

#[test]
fn deep_eq_ignores_object_order() {
    let x = obj(vec![("a", Value::Int(1)), ("b", Value::Int(2))]);
    let y = obj(vec![("b", Value::Int(2)), ("a", Value::Int(1))]);
    assert!(deep_eq(&x, &y));
    let z = obj(vec![("a", Value::Int(1)), ("b", Value::Int(3))]);
    assert!(!deep_eq(&x, &z));
}

#[test]
fn deep_eq_distinguishes_kinds() {
    assert!(!deep_eq(&Value::Null, &Value::Bool(false)));
    assert!(!deep_eq(&Value::Int(0), &Value::Str("0".to_string())));
    assert!(!deep_eq(&arr(vec![]), &obj(vec![])));
}

#[test]
fn check_wf_rejects_duplicate_keys() {
    let dup = Value::Obj(vec![
        ("a".to_string(), Value::Int(1)),
        ("a".to_string(), Value::Int(2)),
    ]);
    assert!(!check_wf(&dup));
    let fine = obj(vec![("a", Value::Int(1)), ("b", Value::Int(2))]);
    assert!(check_wf(&fine));
}

#[test]
fn deep_clone_preserves_tree() {
    let t = obj(vec![
        ("a", arr(vec![Value::Int(1), Value::Str("x".to_string())])),
        ("b", Value::Null),
    ]);
    let c = deep_clone(&t);
    assert!(deep_eq(&t, &c));
}

#[test]
fn move_add_failure_leaves_tree_unchanged() {
    // the source resolves, but the destination passes through a scalar:
    // the operation fails as a whole and the tree keeps its old shape
    let orig = obj(vec![("a", Value::Int(1)), ("b", Value::Int(5))]);
    let mut t = deep_clone(&orig);
    let ops = vec![Operation::Move { from: ptr(vec!["a"]), path: ptr(vec!["b", "x"]) }];
    assert_eq!(apply(&mut t, &ops), Err(PatchError::Pointer(PointerError::NotAContainer)));
    assert!(deep_eq(&t, &orig));
}

#[test]
fn move_within_one_array_removes_first() {
    // move is remove-then-add: the insertion index addresses the shortened
    // array
    let mut t = arr(vec![Value::Int(1), Value::Int(2)]);
    let ops = vec![Operation::Move { from: ptr(vec!["0"]), path: ptr(vec!["1"]) }];
    assert_eq!(apply(&mut t, &ops), Ok(()));
    assert!(deep_eq(&t, &arr(vec![Value::Int(2), Value::Int(1)])));
}
