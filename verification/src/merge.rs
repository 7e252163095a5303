//! Applying the user's resolutions to a diff tree to build the merged document.
use vstd::prelude::*;
use crate::json::{entry_insert, JsonMap, JsonTree, JsonValue, same_json};
use crate::types::{
    clone_path, opt_tree, path_view, paths_view, DiffNode, DiffResult,
    DiffView, JsonPath, MergeResult, PathSegment, Resolution, ResolutionView, Resolutions,
    SegmentView,
};

verus! {

/// The resolutions, as a map from paths.
pub type ResolutionMap = Map<Seq<SegmentView>, ResolutionView>;

/// The resolution recorded for a path, if any.
pub open spec fn lookup(res: ResolutionMap, p: Seq<SegmentView>) -> Option<ResolutionView> {
    if res.contains_key(p) {
        Some(res[p])
    } else {
        None
    }
}

/// The value a non-conflicted modification settles on: mine in a 2-way
/// diff; in a 3-way diff theirs when mine kept base, else mine.
pub open spec fn spec_auto_resolve(base: JsonTree, mine: JsonTree, theirs: Option<JsonTree>) -> JsonTree {
    match theirs {
        None => mine,
        Some(t) => if same_json(mine, base) {
            t
        } else {
            mine
        },
    }
}

/// What one node contributes to the merged document at `path` (nothing for
/// a removal), and the paths under it left unresolved, in order.
pub open spec fn merge_node(node: DiffView, res: ResolutionMap, path: Seq<SegmentView>) -> (
    Option<JsonTree>,
    Seq<Seq<SegmentView>>,
)
    decreases node,
{
    match node {
        DiffView::Unchanged(v) => (Some(v), Seq::empty()),
        DiffView::Added(v) => (Some(v), Seq::empty()),
        DiffView::Removed(_) => (None, Seq::empty()),
        DiffView::Modified { base, mine, theirs, conflict } => if !conflict {
            (Some(spec_auto_resolve(base, mine, theirs)), Seq::empty())
        } else {
            match lookup(res, path) {
                Some(ResolutionView::Mine) => (Some(mine), Seq::empty()),
                Some(ResolutionView::Theirs) => (
                    Some(
                        match theirs {
                            Some(t) => t,
                            None => base,
                        },
                    ),
                    Seq::empty(),
                ),
                Some(ResolutionView::Base) => (Some(base), Seq::empty()),
                Some(ResolutionView::Custom(v)) => (Some(v), Seq::empty()),
                None => (Some(JsonTree::Null), seq![path]),
            }
        },
        DiffView::ArrayChange { base, mine, theirs } => match theirs {
            None => match lookup(res, path) {
                Some(ResolutionView::Base) => (Some(base), Seq::empty()),
                Some(ResolutionView::Custom(v)) => (Some(v), Seq::empty()),
                _ => (Some(mine), Seq::empty()),
            },
            Some(t) => match lookup(res, path) {
                Some(ResolutionView::Mine) => (Some(mine), Seq::empty()),
                Some(ResolutionView::Theirs) => (Some(t), Seq::empty()),
                Some(ResolutionView::Base) => (Some(base), Seq::empty()),
                Some(ResolutionView::Custom(v)) => (Some(v), Seq::empty()),
                None => if same_json(mine, t) {
                    (Some(mine), Seq::empty())
                } else {
                    (Some(JsonTree::Null), seq![path])
                },
            },
        },
        DiffView::Object(es) => {
            let r = merge_entries(es, res, path);
            (Some(JsonTree::Object(r.0)), r.1)
        },
    }
}

/// The members that the children of an object node contribute, and the
/// unresolved paths under them.
pub open spec fn merge_entries(
    es: Seq<(Seq<char>, DiffView)>,
    res: ResolutionMap,
    path: Seq<SegmentView>,
) -> (Seq<(Seq<char>, JsonTree)>, Seq<Seq<SegmentView>>)
    decreases es,
{
    if es.len() == 0 {
        (Seq::empty(), Seq::empty())
    } else {
        let prev = merge_entries(es.subrange(0, es.len() - 1), res, path);
        let k = es[es.len() - 1].0;
        let child = merge_node(es[es.len() - 1].1, res, path.push(SegmentView::Key(k)));
        (
            match child.0 {
                Some(v) => entry_insert(prev.0, k, v),
                None => prev.0,
            },
            prev.1 + child.1,
        )
    }
}

/// The merged document (null when the root itself is removed) and the
/// unresolved paths.
pub open spec fn spec_apply(root: DiffView, res: ResolutionMap) -> (JsonTree, Seq<Seq<SegmentView>>) {
    let r = merge_node(root, res, Seq::empty());
    (
        match r.0 {
            Some(v) => v,
            None => JsonTree::Null,
        },
        r.1,
    )
}

/// Builds the merged document from a diff and the recorded resolutions.
pub fn apply_resolutions(diff: &DiffResult, resolutions: &Resolutions) -> (r: MergeResult)
    ensures
        r.merged@ == spec_apply(diff.root@, resolutions@).0,
        paths_view(r.unresolved@) == spec_apply(diff.root@, resolutions@).1,
{
    let mut unresolved: Vec<JsonPath> = Vec::new();
    let mut path: JsonPath = Vec::new();
    proof {
        assert(path_view(path@) =~= Seq::empty());
        assert(paths_view(unresolved@) =~= Seq::empty());
    }
    let merged = match apply_node(&diff.root, resolutions, &mut path, &mut unresolved) {
        Some(v) => v,
        None => JsonValue::Null,
    };
    proof {
        assert(paths_view(unresolved@) =~= spec_apply(diff.root@, resolutions@).1);
    }
    MergeResult { merged, unresolved }
}

/// Records an unresolved path.
fn push_unresolved(unresolved: &mut Vec<JsonPath>, path: &JsonPath)
    ensures
        paths_view(final(unresolved)@) == paths_view(old(unresolved)@).push(path_view(path@)),
{
    let p = clone_path(path);
    unresolved.push(p);
    proof {
        assert(paths_view(unresolved@) =~= paths_view(old(unresolved)@).push(path_view(path@)));
    }
}

/// Returns None if the node represents a deletion (should be excluded from output).
#[verifier::loop_isolation(false)]
fn apply_node(
    node: &DiffNode,
    resolutions: &Resolutions,
    path: &mut JsonPath,
    unresolved: &mut Vec<JsonPath>,
) -> (r: Option<JsonValue>)
    ensures
        opt_tree(r) == merge_node(node@, resolutions@, path_view(old(path)@)).0,
        paths_view(final(unresolved)@) == paths_view(old(unresolved)@) + merge_node(
            node@,
            resolutions@,
            path_view(old(path)@),
        ).1,
        final(path)@ == old(path)@,
    decreases node@,
{
    let ghost p0 = path_view(path@);
    let ghost u0 = paths_view(unresolved@);
    match node {
        DiffNode::Unchanged(v) => {
            proof {
                assert(u0 + Seq::<Seq<SegmentView>>::empty() =~= u0);
            }
            Some(v.clone())
        },
        DiffNode::Added(v) => {
            proof {
                assert(u0 + Seq::<Seq<SegmentView>>::empty() =~= u0);
            }
            Some(v.clone())
        },
        DiffNode::Removed(_) => {
            proof {
                assert(u0 + Seq::<Seq<SegmentView>>::empty() =~= u0);
            }
            None
        },
        DiffNode::Modified { base, mine, theirs, conflict } => {
            proof {
                assert(u0 + Seq::<Seq<SegmentView>>::empty() =~= u0);
                assert(u0.push(p0) =~= u0 + seq![p0]);
            }
            if !conflict {
                Some(auto_resolve(base, mine, theirs.as_ref()))
            } else {
                match resolutions.get(&*path) {
                    Some(Resolution::Mine) => Some(mine.clone()),
                    Some(Resolution::Theirs) => Some(
                        match theirs {
                            Some(t) => t.clone(),
                            None => base.clone(),
                        },
                    ),
                    Some(Resolution::Base) => Some(base.clone()),
                    Some(Resolution::Custom(v)) => Some(v.clone()),
                    None => {
                        // Null holds the place until the conflict is resolved.
                        push_unresolved(unresolved, path);
                        Some(JsonValue::Null)
                    },
                }
            }
        },
        DiffNode::ArrayChange { base, mine, theirs } => {
            proof {
                assert(u0 + Seq::<Seq<SegmentView>>::empty() =~= u0);
                assert(u0.push(p0) =~= u0 + seq![p0]);
            }
            match theirs {
                None => match resolutions.get(&*path) {
                    Some(Resolution::Base) => Some(base.clone()),
                    Some(Resolution::Custom(v)) => Some(v.clone()),
                    _ => Some(mine.clone()),
                },
                Some(t) => match resolutions.get(&*path) {
                    Some(Resolution::Mine) => Some(mine.clone()),
                    Some(Resolution::Theirs) => Some(t.clone()),
                    Some(Resolution::Base) => Some(base.clone()),
                    Some(Resolution::Custom(v)) => Some(v.clone()),
                    None => {
                        if mine == t {
                            // Both sides changed the array the same way.
                            Some(mine.clone())
                        } else {
                            push_unresolved(unresolved, path);
                            Some(JsonValue::Null)
                        }
                    },
                },
            }
        },
        DiffNode::Object(map) => {
            let ghost es = map@;
            let ghost path0 = path@;
            proof {
                assert(es.subrange(0, 0) =~= Seq::<(Seq<char>, DiffView)>::empty());
                assert(u0 + Seq::<Seq<SegmentView>>::empty() =~= u0);
            }
            let mut result = JsonMap::new();
            for i in 0..map.len()
                invariant
                    path@ == path0,
                    result@ == merge_entries(es.subrange(0, i as int), resolutions@, p0).0,
                    paths_view(unresolved@) == u0 + merge_entries(
                        es.subrange(0, i as int),
                        resolutions@,
                        p0,
                    ).1,
            {
                let ghost pre = es.subrange(0, i as int);
                let ghost u1 = paths_view(unresolved@);
                proof {
                    assert(es.subrange(0, i + 1).subrange(0, i as int) =~= pre);
                }
                if let Some((key, child)) = map.get_index(i) {
                    path.push(PathSegment::Key(key.clone()));
                    proof {
                        assert(path_view(path@) =~= p0.push(SegmentView::Key(key@)));
                        let e = es[i as int];
                        assert(node@ == DiffView::Object(es));
                        assert(decreases_to!(node@ => node@->Object_0));
                        assert(decreases_to!(es => e));
                        assert(decreases_to!(e => e.1));
                    }
                    let v = apply_node(child, resolutions, path, unresolved);
                    let ghost cr = merge_node(child@, resolutions@, p0.push(SegmentView::Key(key@)));
                    if let Some(value) = v {
                        result.insert(key.clone(), value);
                    }
                    path.pop();
                    proof {
                        assert(path@ =~= path0);
                        assert(u1 + cr.1 == paths_view(unresolved@));
                        assert(u0 + merge_entries(pre, resolutions@, p0).1 + cr.1 =~= u0 + (
                        merge_entries(pre, resolutions@, p0).1 + cr.1));
                    }
                }
            }
            proof {
                assert(es.subrange(0, es.len() as int) =~= es);
            }
            Some(JsonValue::Object(result))
        },
    }
}

/// Determines the auto-resolved value for a non-conflict Modified node.
/// At least one of: mine == base, theirs == base, or mine == theirs.
pub fn auto_resolve(base: &JsonValue, mine: &JsonValue, theirs: Option<&JsonValue>) -> (r: JsonValue)
    ensures
        r@ == spec_auto_resolve(
            base@,
            mine@,
            match theirs {
                Some(t) => Some(t@),
                None => None,
            },
        ),
{
    match theirs {
        // 2-way: take mine.
        None => mine.clone(),
        Some(t) => {
            if mine == base {
                // Only theirs changed.
                t.clone()
            } else {
                // Mine changed, or both changed to the same value.
                mine.clone()
            }
        },
    }
}

} // verus!
