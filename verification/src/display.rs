//! The rules a user interface follows when it shows a diff and its merge.
use vstd::prelude::*;
use crate::diff::{
    auto_total, capped, conflict_total, conflict_total_entries, diff_three, diff_two,
    spec_diff_three, spec_diff_two,
};
use crate::json::JsonValue;
use crate::types::{DiffNode, DiffResult, DiffView, Mode};

verus! {

/// Counts the nodes under `node` that need the user's decision: conflicted
/// modifications, and array changes where mine and theirs differ.
#[verifier::loop_isolation(false)]
pub fn count_conflicts(node: &DiffNode) -> (r: usize)
    ensures
        r == capped(conflict_total(node@) as int),
    decreases node@,
{
    match node {
        DiffNode::Modified { conflict: true, .. } => 1,
        DiffNode::ArrayChange { theirs: Some(t), mine, .. } if t != mine => 1,
        DiffNode::Object(map) => {
            let ghost es = map@;
            let mut total: usize = 0;
            for i in 0..map.len()
                invariant
                    total == capped(conflict_total_entries(es.subrange(0, i as int)) as int),
            {
                proof {
                    assert(es.subrange(0, i + 1).subrange(0, i as int) =~= es.subrange(0, i as int));
                }
                if let Some((_, child)) = map.get_index(i) {
                    proof {
                        let e = es[i as int];
                        assert(node@ == DiffView::Object(es));
                        assert(decreases_to!(node@ => node@->Object_0));
                        assert(decreases_to!(es => e));
                        assert(decreases_to!(e => e.1));
                    }
                    let c = count_conflicts(child);
                    total = total.saturating_add(c);
                }
            }
            proof {
                assert(es.subrange(0, es.len() as int) =~= es);
            }
            total
        },
        _ => 0,
    }
}

/// Whether every document the mode needs has been given.
pub fn inputs_ready(mode: Mode, has_base: bool, has_mine: bool, has_theirs: bool) -> (r: bool)
    ensures
        r == match mode {
            Mode::TwoWay => has_base && has_mine,
            Mode::ThreeWay => has_base && has_mine && has_theirs,
        },
{
    match mode {
        Mode::TwoWay => has_base && has_mine,
        Mode::ThreeWay => has_base && has_mine && has_theirs,
    }
}

/// Runs the diff that the mode asks for on the documents given so far, or
/// nothing when a document the mode needs is missing.
pub fn run_diff(
    mode: Mode,
    base: Option<&JsonValue>,
    mine: Option<&JsonValue>,
    theirs: Option<&JsonValue>,
) -> (r: Option<DiffResult>)
    ensures
        (r is Some) == (base is Some && mine is Some && (mode == Mode::ThreeWay ==> theirs is Some)),
        match r {
            Some(d) => match mode {
                Mode::TwoWay => {
                    &&& d.root@ == spec_diff_two(base.unwrap()@, mine.unwrap()@)
                    &&& d.conflict_count == 0
                    &&& d.auto_merged_count == 0
                },
                Mode::ThreeWay => {
                    &&& d.root@ == spec_diff_three(base.unwrap()@, mine.unwrap()@, theirs.unwrap()@)
                    &&& d.conflict_count == capped(conflict_total(d.root@) as int)
                    &&& d.auto_merged_count == capped(auto_total(d.root@) as int)
                },
            },
            None => true,
        },
{
    let base = match base {
        Some(v) => v,
        None => return None,
    };
    let mine = match mine {
        Some(v) => v,
        None => return None,
    };
    match mode {
        Mode::TwoWay => Some(diff_two(base, mine)),
        Mode::ThreeWay => match theirs {
            Some(t) => Some(diff_three(base, mine, t)),
            None => None,
        },
    }
}

/// Whether the merged document may be shown: in 2-way mode once the user
/// asks for it, in 3-way mode once no conflict is left unresolved.
pub fn merged_view_visible(mode: Mode, view_requested: bool, unresolved_count: usize) -> (r: bool)
    ensures
        r == match mode {
            Mode::TwoWay => view_requested,
            Mode::ThreeWay => unresolved_count == 0,
        },
{
    match mode {
        Mode::TwoWay => view_requested,
        Mode::ThreeWay => unresolved_count == 0,
    }
}

} // verus!
