use merge_lens_core::diff::{diff_three, diff_two};
use merge_lens_core::json::{JsonMap, JsonValue};
use merge_lens_core::merge::apply_resolutions;
use merge_lens_core::types::{DiffNode, PathSegment, Resolution, Resolutions};

fn num(n: i64) -> JsonValue {
    JsonValue::from_i64(n)
}

fn text(s: &str) -> JsonValue {
    JsonValue::from_text(s)
}

fn arr(items: Vec<JsonValue>) -> JsonValue {
    JsonValue::Array(items)
}

fn obj(members: Vec<(&str, JsonValue)>) -> JsonValue {
    JsonValue::Object(JsonMap {
        entries: members.into_iter().map(|(k, v)| (k.to_string(), v)).collect(),
    })
}

// ---------------------------------------------------------------- two-way

#[test]
fn key_added_in_mine() {
    let base = obj(vec![]);
    let mine = obj(vec![("name", text("Alice"))]);
    let result = diff_two(&base, &mine);
    assert_eq!(result.conflict_count, 0);
    match &result.root {
        DiffNode::Object(map) => {
            assert!(matches!(map.get("name"), Some(DiffNode::Added(v)) if v == &text("Alice")));
        }
        _ => panic!("expected Object"),
    }
}

#[test]
fn multiple_keys_added() {
    let base = obj(vec![("a", num(1))]);
    let mine = obj(vec![("a", num(1)), ("b", num(2)), ("c", num(3))]);
    let result = diff_two(&base, &mine);
    match &result.root {
        DiffNode::Object(map) => {
            assert!(matches!(map.get("a"), Some(DiffNode::Unchanged(_))));
            assert!(matches!(map.get("b"), Some(DiffNode::Added(_))));
            assert!(matches!(map.get("c"), Some(DiffNode::Added(_))));
        }
        _ => panic!("expected Object"),
    }
}

#[test]
fn array_changed_is_opaque() {
    let base = obj(vec![("items", arr(vec![num(1), num(2), num(3)]))]);
    let mine = obj(vec![("items", arr(vec![num(1), num(2), num(4)]))]);
    let result = diff_two(&base, &mine);
    match &result.root {
        DiffNode::Object(map) => match map.get("items") {
            Some(DiffNode::ArrayChange { base: b, mine: m, theirs: None }) => {
                assert_eq!(b, &arr(vec![num(1), num(2), num(3)]));
                assert_eq!(m, &arr(vec![num(1), num(2), num(4)]));
            }
            _ => panic!("expected ArrayChange"),
        },
        _ => panic!("expected Object"),
    }
}

#[test]
fn identical_arrays_are_unchanged() {
    let base = obj(vec![("items", arr(vec![num(1), num(2), num(3)]))]);
    let mine = obj(vec![("items", arr(vec![num(1), num(2), num(3)]))]);
    let result = diff_two(&base, &mine);
    match &result.root {
        DiffNode::Object(map) => {
            assert!(matches!(map.get("items"), Some(DiffNode::Unchanged(_))));
        }
        _ => panic!("expected Object"),
    }
}

#[test]
fn scalar_value_changed() {
    let base = obj(vec![("age", num(30))]);
    let mine = obj(vec![("age", num(31))]);
    let result = diff_two(&base, &mine);
    match &result.root {
        DiffNode::Object(map) => match map.get("age") {
            Some(DiffNode::Modified { base: b, mine: m, theirs: None, conflict: false }) => {
                assert_eq!(b, &num(30));
                assert_eq!(m, &num(31));
            }
            _ => panic!("expected Modified"),
        },
        _ => panic!("expected Object"),
    }
}

#[test]
fn unchanged_value() {
    let base = obj(vec![("name", text("Alice"))]);
    let mine = obj(vec![("name", text("Alice"))]);
    let result = diff_two(&base, &mine);
    match &result.root {
        DiffNode::Object(map) => {
            assert!(matches!(map.get("name"), Some(DiffNode::Unchanged(_))));
        }
        _ => panic!("expected Object"),
    }
}

#[test]
fn nested_object_change() {
    let base = obj(vec![("user", obj(vec![("name", text("Alice")), ("age", num(30))]))]);
    let mine = obj(vec![("user", obj(vec![("name", text("Alice")), ("age", num(31))]))]);
    let result = diff_two(&base, &mine);
    match &result.root {
        DiffNode::Object(root_map) => match root_map.get("user") {
            Some(DiffNode::Object(user_map)) => {
                assert!(matches!(user_map.get("name"), Some(DiffNode::Unchanged(_))));
                assert!(matches!(user_map.get("age"), Some(DiffNode::Modified { conflict: false, .. })));
            }
            _ => panic!("expected nested Object"),
        },
        _ => panic!("expected Object"),
    }
}

#[test]
fn key_removed_in_mine() {
    let base = obj(vec![("name", text("Alice")), ("age", num(30))]);
    let mine = obj(vec![("name", text("Alice"))]);
    let result = diff_two(&base, &mine);
    match &result.root {
        DiffNode::Object(map) => {
            assert!(matches!(map.get("name"), Some(DiffNode::Unchanged(_))));
            assert!(matches!(map.get("age"), Some(DiffNode::Removed(v)) if v == &num(30)));
        }
        _ => panic!("expected Object"),
    }
}

// -------------------------------------------------------------- three-way

#[test]
fn both_changed_differently() {
    let base = obj(vec![("age", num(30))]);
    let mine = obj(vec![("age", num(31))]);
    let theirs = obj(vec![("age", num(32))]);
    let result = diff_three(&base, &mine, &theirs);
    assert_eq!(result.conflict_count, 1);
    match &result.root {
        DiffNode::Object(map) => {
            assert!(matches!(map.get("age"), Some(DiffNode::Modified { conflict: true, .. })));
        }
        _ => panic!("expected Object"),
    }
}

#[test]
fn both_added_same_key_different_values() {
    let base = obj(vec![]);
    let mine = obj(vec![("x", num(1))]);
    let theirs = obj(vec![("x", num(2))]);
    let result = diff_three(&base, &mine, &theirs);
    assert_eq!(result.conflict_count, 1);
    match &result.root {
        DiffNode::Object(map) => {
            assert!(matches!(map.get("x"), Some(DiffNode::Modified { conflict: true, .. })));
        }
        _ => panic!("expected Object"),
    }
}

#[test]
fn array_conflict() {
    let base = obj(vec![("tags", arr(vec![text("a"), text("b")]))]);
    let mine = obj(vec![("tags", arr(vec![text("a"), text("c")]))]);
    let theirs = obj(vec![("tags", arr(vec![text("a"), text("d")]))]);
    let result = diff_three(&base, &mine, &theirs);
    assert_eq!(result.conflict_count, 1);
    match &result.root {
        DiffNode::Object(map) => {
            assert!(matches!(map.get("tags"), Some(DiffNode::ArrayChange { theirs: Some(_), .. })));
        }
        _ => panic!("expected Object"),
    }
}

#[test]
fn conflict_inside_nested_object() {
    let base = obj(vec![("user", obj(vec![("name", text("Alice")), ("age", num(30))]))]);
    let mine = obj(vec![("user", obj(vec![("name", text("Bob")), ("age", num(31))]))]);
    let theirs = obj(vec![("user", obj(vec![("name", text("Carol")), ("age", num(30))]))]);
    let result = diff_three(&base, &mine, &theirs);
    assert_eq!(result.conflict_count, 1); // only "name" conflicts; "age" is mine-only change
    match &result.root {
        DiffNode::Object(root) => match root.get("user") {
            Some(DiffNode::Object(user)) => {
                assert!(matches!(user.get("name"), Some(DiffNode::Modified { conflict: true, .. })));
                assert!(matches!(user.get("age"), Some(DiffNode::Modified { conflict: false, .. })));
            }
            _ => panic!("expected nested Object"),
        },
        _ => panic!("expected Object"),
    }
}

#[test]
fn mine_changed_theirs_unchanged() {
    let base = obj(vec![("age", num(30))]);
    let mine = obj(vec![("age", num(31))]);
    let theirs = obj(vec![("age", num(30))]);
    let result = diff_three(&base, &mine, &theirs);
    assert_eq!(result.conflict_count, 0);
    assert_eq!(result.auto_merged_count, 1);
    match &result.root {
        DiffNode::Object(map) => match map.get("age") {
            Some(DiffNode::Modified { conflict: false, mine: m, theirs: Some(t), .. }) => {
                assert_eq!(m, &num(31));
                assert_eq!(t, &num(30));
            }
            _ => panic!("expected non-conflict Modified"),
        },
        _ => panic!("expected Object"),
    }
}

#[test]
fn theirs_changed_mine_unchanged() {
    let base = obj(vec![("age", num(30))]);
    let mine = obj(vec![("age", num(30))]);
    let theirs = obj(vec![("age", num(32))]);
    let result = diff_three(&base, &mine, &theirs);
    assert_eq!(result.conflict_count, 0);
    assert_eq!(result.auto_merged_count, 1);
    match &result.root {
        DiffNode::Object(map) => {
            assert!(matches!(map.get("age"), Some(DiffNode::Modified { conflict: false, .. })));
        }
        _ => panic!("expected Object"),
    }
}

#[test]
fn both_changed_to_same_value() {
    let base = obj(vec![("name", text("Alice"))]);
    let mine = obj(vec![("name", text("Alicia"))]);
    let theirs = obj(vec![("name", text("Alicia"))]);
    let result = diff_three(&base, &mine, &theirs);
    assert_eq!(result.conflict_count, 0);
    assert_eq!(result.auto_merged_count, 1);
}

#[test]
fn key_only_in_mine() {
    let base = obj(vec![]);
    let mine = obj(vec![("new_key", num(42))]);
    let theirs = obj(vec![]);
    let result = diff_three(&base, &mine, &theirs);
    assert_eq!(result.conflict_count, 0);
    match &result.root {
        DiffNode::Object(map) => {
            assert!(matches!(map.get("new_key"), Some(DiffNode::Added(_))));
        }
        _ => panic!("expected Object"),
    }
}

#[test]
fn key_only_in_theirs() {
    let base = obj(vec![]);
    let mine = obj(vec![]);
    let theirs = obj(vec![("new_key", num(99))]);
    let result = diff_three(&base, &mine, &theirs);
    assert_eq!(result.conflict_count, 0);
    match &result.root {
        DiffNode::Object(map) => {
            assert!(matches!(map.get("new_key"), Some(DiffNode::Added(_))));
        }
        _ => panic!("expected Object"),
    }
}

#[test]
fn both_added_same_key_same_value() {
    let base = obj(vec![]);
    let mine = obj(vec![("x", num(1))]);
    let theirs = obj(vec![("x", num(1))]);
    let result = diff_three(&base, &mine, &theirs);
    assert_eq!(result.conflict_count, 0);
    match &result.root {
        DiffNode::Object(map) => {
            assert!(matches!(map.get("x"), Some(DiffNode::Added(_))));
        }
        _ => panic!("expected Object"),
    }
}

// ------------------------------------------------------------------ merge

#[test]
fn resolve_conflict_with_base() {
    let base = obj(vec![("status", text("active"))]);
    let mine = obj(vec![("status", text("pending"))]);
    let theirs = obj(vec![("status", text("archived"))]);
    let diff = diff_three(&base, &mine, &theirs);

    let mut resolutions = Resolutions::new();
    resolutions.insert(vec![PathSegment::Key("status".into())], Resolution::Base);

    let result = apply_resolutions(&diff, &resolutions);
    assert!(result.unresolved.is_empty());
    assert_eq!(result.merged, obj(vec![("status", text("active"))]));
}

#[test]
fn removed_key_absent_from_merged_output() {
    let base = obj(vec![("a", num(1)), ("b", num(2))]);
    let mine = obj(vec![("a", num(1))]);
    let theirs = obj(vec![("a", num(1))]);
    // both sides removed "b"
    let diff = diff_three(&base, &mine, &theirs);
    let result = apply_resolutions(&diff, &Resolutions::new());
    assert_eq!(result.merged, obj(vec![("a", num(1))]));
}

#[test]
fn resolve_conflict_with_custom_value() {
    let base = obj(vec![("age", num(30))]);
    let mine = obj(vec![("age", num(31))]);
    let theirs = obj(vec![("age", num(32))]);
    let diff = diff_three(&base, &mine, &theirs);

    let mut resolutions = Resolutions::new();
    resolutions.insert(vec![PathSegment::Key("age".into())], Resolution::Custom(num(99)));

    let result = apply_resolutions(&diff, &resolutions);
    assert!(result.unresolved.is_empty());
    assert_eq!(result.merged, obj(vec![("age", num(99))]));
}

#[test]
fn resolve_conflict_with_custom_object() {
    let base = obj(vec![("addr", obj(vec![("city", text("London"))]))]);
    let mine = obj(vec![("addr", obj(vec![("city", text("Paris"))]))]);
    let theirs = obj(vec![("addr", obj(vec![("city", text("Berlin"))]))]);
    let diff = diff_three(&base, &mine, &theirs);

    let mut resolutions = Resolutions::new();
    resolutions.insert(
        vec![PathSegment::Key("addr".into()), PathSegment::Key("city".into())],
        Resolution::Custom(text("Amsterdam")),
    );

    let result = apply_resolutions(&diff, &resolutions);
    assert!(result.unresolved.is_empty());
    assert_eq!(result.merged, obj(vec![("addr", obj(vec![("city", text("Amsterdam"))]))]));
}

#[test]
fn resolve_conflict_with_mine() {
    let base = obj(vec![("age", num(30))]);
    let mine = obj(vec![("age", num(31))]);
    let theirs = obj(vec![("age", num(32))]);
    let diff = diff_three(&base, &mine, &theirs);

    let mut resolutions = Resolutions::new();
    resolutions.insert(vec![PathSegment::Key("age".into())], Resolution::Mine);

    let result = apply_resolutions(&diff, &resolutions);
    assert!(result.unresolved.is_empty());
    assert_eq!(result.merged, obj(vec![("age", num(31))]));
}

#[test]
fn auto_merged_field_does_not_need_resolution() {
    let base = obj(vec![("x", num(1)), ("y", num(10))]);
    let mine = obj(vec![("x", num(2)), ("y", num(10))]);
    let theirs = obj(vec![("x", num(1)), ("y", num(10))]);
    let diff = diff_three(&base, &mine, &theirs);

    // no resolution needed — x was auto-merged (mine changed, theirs didn't)
    let result = apply_resolutions(&diff, &Resolutions::new());
    assert!(result.unresolved.is_empty());
    assert_eq!(result.merged, obj(vec![("x", num(2)), ("y", num(10))]));
}

#[test]
fn resolve_conflict_with_theirs() {
    let base = obj(vec![("name", text("Alice"))]);
    let mine = obj(vec![("name", text("Alicia"))]);
    let theirs = obj(vec![("name", text("Alex"))]);
    let diff = diff_three(&base, &mine, &theirs);

    let mut resolutions = Resolutions::new();
    resolutions.insert(vec![PathSegment::Key("name".into())], Resolution::Theirs);

    let result = apply_resolutions(&diff, &resolutions);
    assert!(result.unresolved.is_empty());
    assert_eq!(result.merged, obj(vec![("name", text("Alex"))]));
}

#[test]
fn unresolved_conflict_is_reported() {
    let base = obj(vec![("x", num(1))]);
    let mine = obj(vec![("x", num(2))]);
    let theirs = obj(vec![("x", num(3))]);
    let diff = diff_three(&base, &mine, &theirs);

    let result = apply_resolutions(&diff, &Resolutions::new());
    assert_eq!(result.unresolved.len(), 1);
    assert_eq!(result.unresolved[0], vec![PathSegment::Key("x".into())]);
}
