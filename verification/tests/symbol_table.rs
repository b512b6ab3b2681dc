//! Tables of symbols.

use openjd::symbol_table::SymbolTable;
use openjd::value::ExprValue;

#[test]
fn set_string_and_get_round_trip() {
    let mut st = SymbolTable::new();
    st.set_string("Param.Frames", "1-10")
        .expect("set_string must succeed at a fresh dotted key");
    let got = st.get("Param.Frames").expect("must retrieve what was set");
    assert_eq!(got.to_display_string(), "1-10");
}

#[test]
fn set_expr_value_and_get_round_trip() {
    let mut st = SymbolTable::new();
    st.set("Param.Count", ExprValue::Int(42))
        .expect("set must accept a dotted key");
    let got = st.get("Param.Count").expect("must retrieve what was set");
    assert_eq!(got.to_display_string(), "42");
}

#[test]
fn has_returns_true_for_existing_scalar_and_false_otherwise() {
    let mut st = SymbolTable::new();
    st.set_string("Param.Frames", "1-10").unwrap();
    assert!(st.has("Param.Frames"));
    assert!(!st.has("Param.Missing"));
    // A dotted key that doesn't exist at the leaf level returns false
    // even if the intermediate scope does.
    assert!(!st.has("Param"));
}

#[test]
fn get_returns_none_for_unset_key() {
    let st = SymbolTable::new();
    assert!(st.get("Param.Missing").is_none());
}

#[test]
fn all_paths_enumerates_all_leaves() {
    let mut st = SymbolTable::new();
    st.set_string("Param.A", "1").unwrap();
    st.set_string("Param.B", "2").unwrap();
    st.set_string("RawParam.X", "3").unwrap();
    let paths = st.all_paths();
    assert!(paths.contains(&"Param.A".to_string()));
    assert!(paths.contains(&"Param.B".to_string()));
    assert!(paths.contains(&"RawParam.X".to_string()));
    assert_eq!(paths.len(), 3);
}

/// Setting `"A.B"` after `"A"` has already been set to a scalar must return an
/// error.
#[test]
fn set_rejects_nesting_under_existing_scalar() {
    let mut st = SymbolTable::new();
    st.set_string("A", "leaf value").unwrap();

    let err = st
        .set("A.B", ExprValue::Int(1))
        .expect_err("must reject nesting under a scalar")
        .to_string();
    assert!(
        err.contains("A"),
        "error must reference the conflicting key; got: {err}"
    );
    assert_eq!(st.get("A").unwrap().to_display_string(), "leaf value");
}

#[test]
fn set_string_rejects_nesting_under_existing_scalar() {
    let mut st = SymbolTable::new();
    st.set_string("A", "scalar").unwrap();

    let err = st
        .set_string("A.Nested", "child")
        .expect_err("must reject nesting under a scalar")
        .to_string();
    assert!(
        err.contains("A"),
        "error must reference the conflicting key; got: {err}"
    );
}

/// Setting a scalar at a key that already holds other keys must also fail.
#[test]
fn set_rejects_scalar_on_existing_subtable_key() {
    let mut st = SymbolTable::new();
    st.set_string("Param.Frames", "1-10").unwrap();
    let err = st
        .set("Param", ExprValue::Int(99))
        .expect_err("must reject scalar assignment over existing subtable")
        .to_string();
    assert!(
        err.contains("Param"),
        "error must reference the conflicting key; got: {err}"
    );
}

#[test]
fn deep_nesting_round_trip() {
    let mut st = SymbolTable::new();
    st.set_string("A.B.C", "deep").unwrap();
    let got = st.get("A.B.C").expect("must retrieve deeply-nested value");
    assert_eq!(got.to_display_string(), "deep");
    assert!(st.has("A.B.C"));
    assert!(!st.has("A.B")); // a scope, not a leaf
    assert!(!st.has("A"));
}

#[test]
fn overwriting_scalar_at_same_key_is_allowed() {
    let mut st = SymbolTable::new();
    st.set_string("Param.X", "old").unwrap();
    st.set_string("Param.X", "new")
        .expect("overwriting a scalar at the same key is allowed");
    assert_eq!(st.get("Param.X").unwrap().to_display_string(), "new");
}

#[test]
fn single_dotted_key_matches_python_setitem_shape() {
    let mut st = SymbolTable::new();
    st.set_string("Param.Frames", "1-10").unwrap();
    assert!(st.has("Param.Frames"));
    assert_eq!(st.get("Param.Frames").unwrap().to_display_string(), "1-10");
}

#[test]
fn names_that_only_look_nested_do_not_collide() {
    let mut st = SymbolTable::new();
    st.set_string("Param.Frame", "1").unwrap();
    st.set_string("Param.Frames", "2").unwrap();
    st.set_string("Params", "3").unwrap();
    assert_eq!(st.all_paths(), vec!["Param.Frame", "Param.Frames", "Params"]);
    // A failed set leaves everything as it was.
    assert!(st.set_string("Params.X", "4").is_err());
    assert_eq!(st.get("Params").unwrap().to_display_string(), "3");
    assert!(!st.has("Params.X"));
}
