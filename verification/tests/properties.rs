use merge_lens_core::conflict::{both_same, is_conflict};
use merge_lens_core::diff::{diff_three, diff_two};
use merge_lens_core::display::{count_conflicts, inputs_ready, merged_view_visible, run_diff};
use merge_lens_core::json::{json_equal, JsonMap, JsonNumber, JsonValue};
use merge_lens_core::merge::{apply_resolutions, auto_resolve};
use merge_lens_core::types::{
    DiffMap, DiffNode, DiffResult, Mode, PathSegment, Resolution, Resolutions,
};

fn n(v: i64) -> JsonValue {
    JsonValue::from_i64(v)
}

fn s(t: &str) -> JsonValue {
    JsonValue::from_text(t)
}

fn list(items: Vec<JsonValue>) -> JsonValue {
    JsonValue::Array(items)
}

fn object(members: Vec<(&str, JsonValue)>) -> JsonValue {
    JsonValue::Object(JsonMap {
        entries: members.into_iter().map(|(k, v)| (k.to_string(), v)).collect(),
    })
}

fn float(f: f64) -> JsonValue {
    JsonValue::Number(JsonNumber::Float(f.to_bits()))
}

fn key(k: &str) -> PathSegment {
    PathSegment::Key(k.to_string())
}

// ------------------------------------------------------------- equality

#[test]
fn equality_ignores_member_order() {
    let a = object(vec![("a", n(1)), ("b", n(2))]);
    let b = object(vec![("b", n(2)), ("a", n(1))]);
    assert!(json_equal(&a, &b));
    assert_eq!(a, b);
}

#[test]
fn equality_compares_array_elements_in_order() {
    assert_ne!(list(vec![n(1), n(2)]), list(vec![n(2), n(1)]));
    assert_ne!(list(vec![n(1)]), list(vec![n(1), n(1)]));
    assert_eq!(list(vec![s("x"), n(1)]), list(vec![s("x"), n(1)]));
}

#[test]
fn equality_of_numbers() {
    assert_eq!(float(0.0), float(-0.0));
    assert_ne!(float(1.0), n(1));
    assert_ne!(float(1.5), float(2.5));
    assert_eq!(n(-3), JsonValue::Number(JsonNumber::NegInt(-3)));
    assert_ne!(n(3), n(-3));
}

#[test]
fn equality_of_objects_needs_same_keys() {
    assert_ne!(object(vec![("a", n(1))]), object(vec![("a", n(1)), ("b", n(2))]));
    assert_ne!(object(vec![("a", n(1)), ("b", n(2))]), object(vec![("a", n(1))]));
    assert_ne!(object(vec![("a", n(1))]), object(vec![("a", n(2))]));
    assert_ne!(JsonValue::Null, JsonValue::Bool(false));
}

#[test]
fn later_duplicate_key_wins() {
    let dup = object(vec![("a", n(1)), ("a", n(2))]);
    assert_eq!(dup, object(vec![("a", n(2))]));
    match &dup {
        JsonValue::Object(m) => assert_eq!(m.get("a"), Some(&n(2))),
        _ => unreachable!(),
    }
}

#[test]
fn json_map_insert_replaces_or_appends() {
    let mut m = JsonMap::new();
    m.insert("a".to_string(), n(1));
    m.insert("b".to_string(), n(2));
    m.insert("a".to_string(), n(3));
    assert_eq!(m.entries.len(), 2);
    assert_eq!(m.entries[0].0, "a");
    assert_eq!(m.get("a"), Some(&n(3)));
    assert!(m.contains_key("b"));
    assert!(!m.contains_key("c"));
    assert_eq!(m.get("c"), None);
}

#[test]
fn clone_keeps_member_order() {
    let v = object(vec![("z", n(1)), ("a", list(vec![n(2)]))]);
    let c = v.clone();
    match (&v, &c) {
        (JsonValue::Object(x), JsonValue::Object(y)) => {
            assert_eq!(x.entries[0].0, y.entries[0].0);
            assert_eq!(x.entries[1].0, y.entries[1].0);
        }
        _ => unreachable!(),
    }
    assert_eq!(v, c);
}

// -------------------------------------------------------- comparisons

#[test]
fn conflict_needs_both_sides_changed_differently() {
    assert!(is_conflict(&n(1), &n(2), &n(3)));
    assert!(!is_conflict(&n(1), &n(2), &n(2)));
    assert!(!is_conflict(&n(1), &n(1), &n(3)));
    assert!(!is_conflict(&n(1), &n(2), &n(1)));
    // symmetric in the two sides
    assert_eq!(is_conflict(&n(1), &n(2), &n(3)), is_conflict(&n(1), &n(3), &n(2)));
    assert!(both_same(&s("a"), &s("a")));
    assert!(!both_same(&s("a"), &s("b")));
}

#[test]
fn auto_resolve_picks_the_changed_side() {
    assert_eq!(auto_resolve(&n(1), &n(2), None), n(2));
    assert_eq!(auto_resolve(&n(1), &n(1), Some(&n(3))), n(3));
    assert_eq!(auto_resolve(&n(1), &n(2), Some(&n(1))), n(2));
    assert_eq!(auto_resolve(&n(1), &n(2), Some(&n(2))), n(2));
}

// ----------------------------------------------------------- two-way

#[test]
fn two_way_merge_gives_mine() {
    let base = object(vec![("a", n(1)), ("b", list(vec![n(1)])), ("c", object(vec![("d", n(1))]))]);
    let mine = object(vec![("b", list(vec![n(2)])), ("c", object(vec![("d", n(2)), ("e", s("x"))])), ("f", n(3))]);
    let diff = diff_two(&base, &mine);
    assert_eq!(diff.conflict_count, 0);
    assert_eq!(diff.auto_merged_count, 0);
    let result = apply_resolutions(&diff, &Resolutions::new());
    assert!(result.unresolved.is_empty());
    assert_eq!(result.merged, mine);
}

#[test]
fn two_way_scalar_roots() {
    let diff = diff_two(&n(1), &n(1));
    assert!(matches!(diff.root, DiffNode::Unchanged(_)));
    let diff = diff_two(&n(1), &s("one"));
    assert!(matches!(diff.root, DiffNode::Modified { conflict: false, theirs: None, .. }));
    let diff = diff_two(&object(vec![]), &list(vec![]));
    assert!(matches!(diff.root, DiffNode::Modified { conflict: false, theirs: None, .. }));
    let diff = diff_two(&n(1), &list(vec![n(1)]));
    assert!(matches!(diff.root, DiffNode::Modified { conflict: false, theirs: None, .. }));
    let diff = diff_two(&list(vec![n(1)]), &list(vec![n(2)]));
    assert!(matches!(diff.root, DiffNode::ArrayChange { theirs: None, .. }));
}

#[test]
fn two_way_keeps_base_order_then_added_keys() {
    let base = object(vec![("b", n(1)), ("a", n(1))]);
    let mine = object(vec![("c", n(1)), ("a", n(2)), ("b", n(1))]);
    let diff = diff_two(&base, &mine);
    match &diff.root {
        DiffNode::Object(map) => {
            assert_eq!(diff_keys(map), vec!["b", "a", "c"]);
        }
        _ => panic!("expected Object"),
    }
}

#[test]
fn two_way_array_change_follows_resolution() {
    let base = object(vec![("items", list(vec![n(1)]))]);
    let mine = object(vec![("items", list(vec![n(2)]))]);
    let diff = diff_two(&base, &mine);

    let mut keep_base = Resolutions::new();
    keep_base.insert(vec![key("items")], Resolution::Base);
    let result = apply_resolutions(&diff, &keep_base);
    assert!(result.unresolved.is_empty());
    assert_eq!(result.merged, base);

    let mut custom = Resolutions::new();
    custom.insert(vec![key("items")], Resolution::Custom(list(vec![])));
    let result = apply_resolutions(&diff, &custom);
    assert!(result.unresolved.is_empty());
    assert_eq!(result.merged, object(vec![("items", list(vec![]))]));

    // Theirs does not exist in a 2-way diff: mine is kept
    let mut theirs = Resolutions::new();
    theirs.insert(vec![key("items")], Resolution::Theirs);
    let result = apply_resolutions(&diff, &theirs);
    assert_eq!(result.merged, mine);
}

// ----------------------------------------------------------- three-way

#[test]
fn unresolved_paths_match_conflict_count() {
    let base = object(vec![("a", n(1)), ("t", list(vec![n(1)])), ("u", object(vec![("v", n(1))]))]);
    let mine = object(vec![("a", n(2)), ("t", list(vec![n(2)])), ("u", object(vec![("v", n(2))]))]);
    let theirs = object(vec![("a", n(3)), ("t", list(vec![n(3)])), ("u", object(vec![("v", n(3))]))]);
    let diff = diff_three(&base, &mine, &theirs);
    assert_eq!(diff.conflict_count, 3);
    assert_eq!(count_conflicts(&diff.root), 3);
    let result = apply_resolutions(&diff, &Resolutions::new());
    assert_eq!(result.unresolved.len(), 3);
    assert_eq!(result.unresolved[0], vec![key("a")]);
    assert_eq!(result.unresolved[1], vec![key("t")]);
    assert_eq!(result.unresolved[2], vec![key("u"), key("v")]);
    assert_eq!(
        result.merged,
        object(vec![("a", JsonValue::Null), ("t", JsonValue::Null), ("u", object(vec![("v", JsonValue::Null)]))])
    );
}

#[test]
fn same_change_on_both_sides_merges_cleanly() {
    let base = object(vec![("a", n(1)), ("l", list(vec![n(1)])), ("gone", n(0))]);
    let changed = object(vec![("a", n(2)), ("l", list(vec![n(2)])), ("new", s("x"))]);
    let diff = diff_three(&base, &changed, &changed);
    assert_eq!(diff.conflict_count, 0);
    assert_eq!(diff.auto_merged_count, 2);
    let result = apply_resolutions(&diff, &Resolutions::new());
    assert!(result.unresolved.is_empty());
    assert_eq!(result.merged, changed);
}

#[test]
fn mine_only_change_merges_to_mine() {
    let base = object(vec![("a", n(1)), ("b", s("keep")), ("gone", n(0))]);
    let mine = object(vec![("a", n(5)), ("b", s("keep")), ("new", n(7))]);
    let diff = diff_three(&base, &mine, &base);
    assert_eq!(diff.conflict_count, 0);
    let result = apply_resolutions(&diff, &Resolutions::new());
    assert_eq!(result.merged, mine);
}

#[test]
fn theirs_only_change_merges_to_theirs() {
    let base = object(vec![("a", n(1)), ("b", s("keep")), ("gone", n(0))]);
    let theirs = object(vec![("a", n(5)), ("b", s("keep")), ("new", n(7))]);
    let diff = diff_three(&base, &base, &theirs);
    assert_eq!(diff.conflict_count, 0);
    let result = apply_resolutions(&diff, &Resolutions::new());
    assert_eq!(result.merged, theirs);
}

#[test]
fn array_changed_on_one_side_is_reported_as_conflict() {
    let base = object(vec![("l", list(vec![n(1)]))]);
    let mine = object(vec![("l", list(vec![n(2)]))]);
    let diff = diff_three(&base, &mine, &base);
    assert_eq!(diff.conflict_count, 1);
    let result = apply_resolutions(&diff, &Resolutions::new());
    assert_eq!(result.unresolved, vec![vec![key("l")]]);
}

#[test]
fn identical_documents_have_no_changes() {
    let doc = object(vec![("a", n(1)), ("l", list(vec![n(1)])), ("o", object(vec![("p", JsonValue::Null)]))]);
    let diff = diff_three(&doc, &doc, &doc);
    assert_eq!(diff.conflict_count, 0);
    assert_eq!(diff.auto_merged_count, 0);
    let result = apply_resolutions(&diff, &Resolutions::new());
    assert_eq!(result.merged, doc);
}

#[test]
fn deletions_against_changes() {
    // mine deleted, theirs unchanged: deletion accepted
    let base = object(vec![("k", n(1))]);
    let diff = diff_three(&base, &object(vec![]), &base);
    match &diff.root {
        DiffNode::Object(m) => assert!(matches!(m.get("k"), Some(DiffNode::Removed(v)) if v == &n(1))),
        _ => panic!("expected Object"),
    }
    // mine deleted, theirs changed: conflict with mine as null
    let diff = diff_three(&base, &object(vec![]), &object(vec![("k", n(2))]));
    assert_eq!(diff.conflict_count, 1);
    match &diff.root {
        DiffNode::Object(m) => match m.get("k") {
            Some(DiffNode::Modified { base: b, mine: JsonValue::Null, theirs: Some(t), conflict: true }) => {
                assert_eq!(b, &n(1));
                assert_eq!(t, &n(2));
            }
            _ => panic!("expected conflict"),
        },
        _ => panic!("expected Object"),
    }
    // theirs deleted, mine changed: conflict with theirs as null
    let diff = diff_three(&base, &object(vec![("k", n(3))]), &object(vec![]));
    assert_eq!(diff.conflict_count, 1);
    match &diff.root {
        DiffNode::Object(m) => assert!(matches!(
            m.get("k"),
            Some(DiffNode::Modified { theirs: Some(JsonValue::Null), conflict: true, .. })
        )),
        _ => panic!("expected Object"),
    }
    // both deleted
    let diff = diff_three(&base, &object(vec![]), &object(vec![]));
    match &diff.root {
        DiffNode::Object(m) => assert!(matches!(m.get("k"), Some(DiffNode::Removed(_)))),
        _ => panic!("expected Object"),
    }
}

#[test]
fn three_way_key_order_is_base_then_mine_then_theirs() {
    let base = object(vec![("b", n(1))]);
    let mine = object(vec![("m", n(1)), ("b", n(1))]);
    let theirs = object(vec![("t", n(1)), ("m", n(1))]);
    let diff = diff_three(&base, &mine, &theirs);
    match &diff.root {
        DiffNode::Object(map) => {
            assert_eq!(diff_keys(map), vec!["b", "m", "t"]);
        }
        _ => panic!("expected Object"),
    }
}

#[test]
fn array_agreed_on_both_sides_is_auto_merged() {
    let base = object(vec![("l", list(vec![n(1)]))]);
    let both = object(vec![("l", list(vec![n(2)]))]);
    let diff = diff_three(&base, &both, &both);
    assert_eq!(diff.conflict_count, 0);
    assert_eq!(diff.auto_merged_count, 1);
    match &diff.root {
        DiffNode::Object(m) => assert!(matches!(m.get("l"), Some(DiffNode::ArrayChange { theirs: Some(_), .. }))),
        _ => panic!("expected Object"),
    }
}

#[test]
fn type_change_is_compared_as_a_whole() {
    let diff = diff_three(&object(vec![]), &n(1), &object(vec![]));
    assert_eq!(diff.auto_merged_count, 1);
    assert!(matches!(diff.root, DiffNode::Modified { conflict: false, .. }));
}

#[test]
fn array_conflict_resolved_by_theirs() {
    let base = object(vec![("tags", list(vec![s("a")]))]);
    let mine = object(vec![("tags", list(vec![s("b")]))]);
    let theirs = object(vec![("tags", list(vec![s("c")]))]);
    let diff = diff_three(&base, &mine, &theirs);
    let mut res = Resolutions::new();
    res.insert(vec![key("tags")], Resolution::Theirs);
    let result = apply_resolutions(&diff, &res);
    assert!(result.unresolved.is_empty());
    assert_eq!(result.merged, theirs);
}

// ------------------------------------------------------------- merging

#[test]
fn theirs_resolution_without_theirs_takes_base() {
    let diff = DiffResult {
        root: DiffNode::Modified { base: n(1), mine: n(2), theirs: None, conflict: true },
        conflict_count: 1,
        auto_merged_count: 0,
    };
    let mut res = Resolutions::new();
    res.insert(vec![], Resolution::Theirs);
    let result = apply_resolutions(&diff, &res);
    assert_eq!(result.merged, n(1));
}

#[test]
fn removed_root_merges_to_null() {
    let diff = DiffResult { root: DiffNode::Removed(n(1)), conflict_count: 0, auto_merged_count: 0 };
    let result = apply_resolutions(&diff, &Resolutions::new());
    assert_eq!(result.merged, JsonValue::Null);
    assert!(result.unresolved.is_empty());
}

#[test]
fn later_resolution_replaces_earlier() {
    let base = object(vec![("x", n(1))]);
    let mine = object(vec![("x", n(2))]);
    let theirs = object(vec![("x", n(3))]);
    let diff = diff_three(&base, &mine, &theirs);
    let mut res = Resolutions::new();
    res.insert(vec![key("x")], Resolution::Mine);
    res.insert(vec![key("y")], Resolution::Base);
    res.insert(vec![key("x")], Resolution::Base);
    assert!(matches!(res.get(&vec![key("x")]), Some(Resolution::Base)));
    assert!(res.get(&vec![key("z")]).is_none());
    let result = apply_resolutions(&diff, &res);
    assert_eq!(result.merged, base);
}

#[test]
fn index_paths_are_distinct_from_keys() {
    let mut res = Resolutions::new();
    res.insert(vec![PathSegment::Index(0)], Resolution::Mine);
    assert!(res.get(&vec![key("0")]).is_none());
    assert!(matches!(res.get(&vec![PathSegment::Index(0)]), Some(Resolution::Mine)));
}

// ------------------------------------------------------------- display

#[test]
fn count_conflicts_in_nested_tree() {
    let mut inner = DiffMap::new();
    inner.insert("f".to_string(), DiffNode::Modified { base: n(1), mine: n(2), theirs: None, conflict: true });
    let mut outer = DiffMap::new();
    outer.insert("a".to_string(), DiffNode::Modified { base: n(1), mine: n(2), theirs: Some(n(3)), conflict: true });
    outer.insert("b".to_string(), DiffNode::ArrayChange { base: n(1), mine: list(vec![]), theirs: Some(list(vec![])) });
    outer.insert("c".to_string(), DiffNode::ArrayChange { base: n(1), mine: list(vec![]), theirs: Some(list(vec![n(1)])) });
    outer.insert("d".to_string(), DiffNode::ArrayChange { base: n(1), mine: list(vec![]), theirs: None });
    outer.insert("e".to_string(), DiffNode::Object(inner));
    let tree = DiffNode::Object(outer);
    assert_eq!(count_conflicts(&tree), 3);
}

#[test]
fn inputs_ready_by_mode() {
    assert!(inputs_ready(Mode::TwoWay, true, true, false));
    assert!(!inputs_ready(Mode::TwoWay, true, false, true));
    assert!(!inputs_ready(Mode::ThreeWay, true, true, false));
    assert!(inputs_ready(Mode::ThreeWay, true, true, true));
}

#[test]
fn merged_view_visible_by_mode() {
    assert!(merged_view_visible(Mode::TwoWay, true, 3));
    assert!(!merged_view_visible(Mode::TwoWay, false, 0));
    assert!(merged_view_visible(Mode::ThreeWay, false, 0));
    assert!(!merged_view_visible(Mode::ThreeWay, true, 1));
}

// ------------------------------------------------------------ diff maps

fn diff_keys(map: &DiffMap) -> Vec<String> {
    let mut keys = Vec::new();
    for i in 0..map.len() {
        if let Some((k, _)) = map.get_index(i) {
            keys.push(k.clone());
        }
    }
    keys
}

#[test]
fn diff_map_insert_keeps_place_of_existing_key() {
    let mut map = DiffMap::new();
    assert_eq!(map.len(), 0);
    assert!(map.get_index(0).is_none());
    map.insert("x".to_string(), DiffNode::Added(n(1)));
    map.insert("y".to_string(), DiffNode::Added(n(2)));
    map.insert("x".to_string(), DiffNode::Removed(n(3)));
    assert_eq!(map.len(), 2);
    assert_eq!(diff_keys(&map), vec!["x", "y"]);
    assert!(matches!(map.get("x"), Some(DiffNode::Removed(v)) if v == &n(3)));
    assert!(matches!(map.get("y"), Some(DiffNode::Added(v)) if v == &n(2)));
    assert!(map.get("z").is_none());
    assert!(matches!(map.get_index(1), Some((k, DiffNode::Added(_))) if k == "y"));
    assert!(map.get_index(2).is_none());
}

#[test]
fn diff_node_clone_keeps_children_in_order() {
    let base = object(vec![("q", n(1)), ("p", n(1))]);
    let mine = object(vec![("p", n(2)), ("r", n(3))]);
    let diff = diff_two(&base, &mine);
    let copy = diff.clone();
    match (&diff.root, &copy.root) {
        (DiffNode::Object(a), DiffNode::Object(b)) => {
            assert_eq!(diff_keys(a), vec!["q", "p", "r"]);
            assert_eq!(diff_keys(a), diff_keys(b));
            assert!(matches!(b.get("q"), Some(DiffNode::Removed(v)) if v == &n(1)));
            assert!(matches!(b.get("p"), Some(DiffNode::Modified { mine, .. }) if mine == &n(2)));
        }
        _ => panic!("expected Object"),
    }
}

#[test]
fn two_way_repeated_base_key_gives_one_child() {
    let base = object(vec![("k", n(1)), ("j", n(0)), ("k", n(2))]);
    let mine = object(vec![("k", n(2)), ("j", n(0))]);
    let diff = diff_two(&base, &mine);
    match &diff.root {
        DiffNode::Object(map) => {
            assert_eq!(diff_keys(map), vec!["k", "j"]);
            assert!(matches!(map.get("k"), Some(DiffNode::Unchanged(v)) if v == &n(2)));
        }
        _ => panic!("expected Object"),
    }
}

#[test]
fn run_diff_needs_the_documents_of_its_mode() {
    let base = object(vec![("a", n(1))]);
    let mine = object(vec![("a", n(2))]);
    let theirs = object(vec![("a", n(3))]);
    assert!(run_diff(Mode::TwoWay, None, Some(&mine), None).is_none());
    assert!(run_diff(Mode::TwoWay, Some(&base), None, Some(&theirs)).is_none());
    assert!(run_diff(Mode::ThreeWay, Some(&base), Some(&mine), None).is_none());
    let two = run_diff(Mode::TwoWay, Some(&base), Some(&mine), None).unwrap();
    assert_eq!(two.conflict_count, 0);
    match &two.root {
        DiffNode::Object(m) => assert!(matches!(m.get("a"), Some(DiffNode::Modified { theirs: None, conflict: false, .. }))),
        _ => panic!("expected Object"),
    }
    let three = run_diff(Mode::ThreeWay, Some(&base), Some(&mine), Some(&theirs)).unwrap();
    assert_eq!(three.conflict_count, 1);
    assert_eq!(three.auto_merged_count, 0);
    match &three.root {
        DiffNode::Object(m) => assert!(matches!(m.get("a"), Some(DiffNode::Modified { conflict: true, .. }))),
        _ => panic!("expected Object"),
    }
}

#[test]
fn resolving_every_conflict_leaves_nothing_unresolved() {
    let base = object(vec![("a", n(1)), ("b", n(1)), ("c", list(vec![n(1)]))]);
    let mine = object(vec![("a", n(2)), ("b", n(2)), ("c", list(vec![n(2)]))]);
    let theirs = object(vec![("a", n(3)), ("b", n(3)), ("c", list(vec![n(3)]))]);
    let diff = diff_three(&base, &mine, &theirs);
    assert_eq!(diff.conflict_count, 3);
    let mut res = Resolutions::new();
    res.insert(vec![PathSegment::Key("b".to_string())], Resolution::Theirs);
    let partial = apply_resolutions(&diff, &res);
    assert_eq!(
        partial.unresolved,
        vec![vec![PathSegment::Key("a".to_string())], vec![PathSegment::Key("c".to_string())]]
    );
    res.insert(vec![PathSegment::Key("a".to_string())], Resolution::Base);
    res.insert(vec![PathSegment::Key("c".to_string())], Resolution::Mine);
    let full = apply_resolutions(&diff, &res);
    assert!(full.unresolved.is_empty());
    assert_eq!(full.merged, object(vec![("a", n(1)), ("b", n(3)), ("c", list(vec![n(2)]))]));
}

#[test]
fn two_way_diff_reports_no_conflict() {
    let base = object(vec![("a", list(vec![n(1)])), ("b", n(1)), ("c", object(vec![("d", n(1))]))]);
    let mine = object(vec![("a", list(vec![n(2)])), ("b", s("x")), ("c", n(5))]);
    let diff = diff_two(&base, &mine);
    assert_eq!(count_conflicts(&diff.root), 0);
    let merged = apply_resolutions(&diff, &Resolutions::new());
    assert!(merged.unresolved.is_empty());
    assert_eq!(merged.merged, mine);
}

#[test]
fn one_sided_changes_merge_to_that_side_once_accepted() {
    let base = object(vec![("a", n(1)), ("l", list(vec![n(1)])), ("o", object(vec![("p", n(1)), ("q", n(1))]))]);
    let changed = object(vec![("a", n(2)), ("l", list(vec![n(2)])), ("o", object(vec![("p", n(3))])), ("z", n(9))]);

    let mine_side = diff_three(&base, &changed, &base);
    assert_eq!(mine_side.conflict_count, 1);
    let mut res = Resolutions::new();
    res.insert(vec![key("l")], Resolution::Mine);
    let merged = apply_resolutions(&mine_side, &res);
    assert!(merged.unresolved.is_empty());
    assert_eq!(merged.merged, changed);

    let theirs_side = diff_three(&base, &base, &changed);
    assert_eq!(theirs_side.conflict_count, 1);
    let mut res = Resolutions::new();
    res.insert(vec![key("l")], Resolution::Theirs);
    let merged = apply_resolutions(&theirs_side, &res);
    assert!(merged.unresolved.is_empty());
    assert_eq!(merged.merged, changed);
}

#[test]
fn resolution_lands_at_its_path() {
    let base = object(vec![("user", object(vec![("name", s("a")), ("age", n(1))]))]);
    let mine = object(vec![("user", object(vec![("name", s("b")), ("age", n(1))]))]);
    let theirs = object(vec![("user", object(vec![("name", s("c")), ("age", n(2))]))]);
    let diff = diff_three(&base, &mine, &theirs);
    let mut res = Resolutions::new();
    res.insert(vec![key("user"), key("name")], Resolution::Custom(s("d")));
    let merged = apply_resolutions(&diff, &res);
    assert!(merged.unresolved.is_empty());
    assert_eq!(
        merged.merged,
        object(vec![("user", object(vec![("name", s("d")), ("age", n(2))]))])
    );
}

#[test]
fn swapping_sides_keeps_counts_and_conflict_places() {
    let base = object(vec![("a", n(1)), ("b", n(1)), ("l", list(vec![n(1)])), ("o", object(vec![("p", n(1))]))]);
    let mine = object(vec![("a", n(2)), ("b", n(1)), ("l", list(vec![n(2)])), ("o", object(vec![("p", n(2))])), ("x", n(1))]);
    let theirs = object(vec![("a", n(3)), ("b", n(5)), ("l", list(vec![n(3)])), ("o", object(vec![("p", n(3))])), ("x", n(2))]);
    let d1 = diff_three(&base, &mine, &theirs);
    let d2 = diff_three(&base, &theirs, &mine);
    assert_eq!(d1.conflict_count, 4);
    assert_eq!(d1.conflict_count, d2.conflict_count);
    assert_eq!(d1.auto_merged_count, d2.auto_merged_count);
    let u1 = apply_resolutions(&d1, &Resolutions::new()).unresolved;
    let u2 = apply_resolutions(&d2, &Resolutions::new()).unresolved;
    assert_eq!(u1, u2);
}

#[test]
fn one_sided_change_without_arrays_needs_no_resolution() {
    let base = object(vec![("a", n(1)), ("o", object(vec![("p", n(1)), ("q", s("x"))])), ("gone", n(0))]);
    let changed = object(vec![("a", n(2)), ("o", object(vec![("p", n(1))])), ("new", object(vec![]))]);
    for diff in [diff_three(&base, &changed, &base), diff_three(&base, &base, &changed)] {
        assert_eq!(diff.conflict_count, 0);
        let merged = apply_resolutions(&diff, &Resolutions::new());
        assert!(merged.unresolved.is_empty());
        assert_eq!(merged.merged, changed);
    }
}

#[test]
fn laws_hold_for_documents_equal_as_json() {
    let base = object(vec![("a", float(0.0)), ("b", n(1)), ("o", object(vec![("p", n(1)), ("q", n(2))]))]);
    let base_again = object(vec![("o", object(vec![("q", n(2)), ("p", n(1))])), ("b", n(1)), ("a", float(-0.0))]);
    let changed = object(vec![("a", n(5)), ("b", n(1)), ("o", object(vec![("p", n(1))]))]);

    let d = diff_three(&base, &changed, &base_again);
    assert_eq!(d.conflict_count, 0);
    let merged = apply_resolutions(&d, &Resolutions::new());
    assert!(merged.unresolved.is_empty());
    assert_eq!(merged.merged, changed);

    let d = diff_three(&base, &base_again, &changed);
    assert_eq!(d.conflict_count, 0);
    let merged = apply_resolutions(&d, &Resolutions::new());
    assert!(merged.unresolved.is_empty());
    assert_eq!(merged.merged, changed);

    let d = diff_three(&base, &base_again, &base_again);
    assert_eq!(d.conflict_count, 0);
    assert_eq!(d.auto_merged_count, 0);

    let changed_again = object(vec![("o", object(vec![("p", n(1))])), ("b", n(1)), ("a", n(5))]);
    let d = diff_three(&base, &changed, &changed_again);
    assert_eq!(d.conflict_count, 0);
    assert_eq!(apply_resolutions(&d, &Resolutions::new()).merged, changed);
}
