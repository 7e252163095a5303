//! Properties of diffs and merges that hold for all documents.
use vstd::prelude::*;
use crate::conflict::spec_is_conflict;
use crate::diff::{
    auto_total, auto_total_entries, conflict_total, conflict_total_entries, lemma_dedup_contains,
    lemma_dedup_unique, lemma_three_way_keys,
    spec_diff_three, spec_diff_two, three_way_entries, three_way_node, two_way_added_entries,
    two_way_base_entries, union_keys,
};
use crate::json::{
    entry_get, has_key, inserted, keys_distinct, keys_of, last_index, lemma_entry_get_concat, lemma_entry_insert,
    lemma_inserted, lemma_last_index, lemma_last_index_push, lemma_same_object, same_json, JsonTree,
};
use crate::merge::{lookup, merge_entries, merge_node, spec_apply, ResolutionMap};
use crate::types::{DiffView, ResolutionView, SegmentView};

verus! {

/// A merge produced a value, equal as JSON to `x`.
pub open spec fn merges_to(r: Option<JsonTree>, x: JsonTree) -> bool {
    match r {
        Some(y) => same_json(y, x),
        None => false,
    }
}

/// The value that the last child with key `k` contributes to a merged
/// object; children that are removed contribute nothing.
pub open spec fn last_merged(
    ds: Seq<(Seq<char>, DiffView)>,
    res: ResolutionMap,
    p: Seq<SegmentView>,
    k: Seq<char>,
) -> Option<JsonTree>
    decreases ds.len(),
{
    if ds.len() == 0 {
        None
    } else {
        let i = ds.len() - 1;
        if ds[i].0 == k && merge_node(ds[i].1, res, p.push(SegmentView::Key(k))).0 is Some {
            merge_node(ds[i].1, res, p.push(SegmentView::Key(k))).0
        } else {
            last_merged(ds.subrange(0, i), res, p, k)
        }
    }
}

// ---------------------------------------------------------------------------
// Merged objects, key by key
// ---------------------------------------------------------------------------

proof fn lemma_merge_entries_get(
    ds: Seq<(Seq<char>, DiffView)>,
    res: ResolutionMap,
    p: Seq<SegmentView>,
    k: Seq<char>,
)
    ensures
        entry_get(merge_entries(ds, res, p).0, k) == last_merged(ds, res, p, k),
    decreases ds.len(),
{
    if ds.len() > 0 {
        let i = ds.len() - 1;
        let pre = ds.subrange(0, i);
        lemma_merge_entries_get(pre, res, p, k);
        let prev = merge_entries(pre, res, p).0;
        let kl = ds[i].0;
        let child = merge_node(ds[i].1, res, p.push(SegmentView::Key(kl)));
        if let Some(v) = child.0 {
            lemma_entry_insert(prev, kl, v, k);
        }
    }
}

/// In children with distinct keys, the value contributed under a key is that
/// of its one child.
proof fn lemma_last_merged_unique(
    ds: Seq<(Seq<char>, DiffView)>,
    res: ResolutionMap,
    p: Seq<SegmentView>,
    k: Seq<char>,
)
    requires
        keys_distinct(ds),
    ensures
        last_merged(ds, res, p, k) == match entry_get(ds, k) {
            Some(d) => merge_node(d, res, p.push(SegmentView::Key(k))).0,
            None => None,
        },
    decreases ds.len(),
{
    if ds.len() > 0 {
        let n = ds.len() - 1;
        let pre = ds.subrange(0, n);
        let x = ds[n];
        assert(ds =~= pre.push(x));
        assert forall|i: int, j: int| 0 <= i < j < pre.len() implies (#[trigger] pre[i]).0 != (
        #[trigger] pre[j]).0 by {
            assert(pre[i] == ds[i]);
            assert(pre[j] == ds[j]);
        }
        assert(keys_distinct(pre));
        lemma_last_merged_unique(pre, res, p, k);
        lemma_last_index_push(pre, x, k);
        lemma_last_index(pre, k);
        if x.0 == k {
            if has_key(pre, k) {
                assert(pre[last_index(pre, k)] == ds[last_index(pre, k)]);
            }
        } else if has_key(pre, k) {
            assert(ds[last_index(pre, k)] == pre[last_index(pre, k)]);
        }
    }
}

proof fn lemma_merge_entries_resolved(
    ds: Seq<(Seq<char>, DiffView)>,
    res: ResolutionMap,
    p: Seq<SegmentView>,
)
    requires
        forall|i: int|
            0 <= i < ds.len() ==> merge_node(
                (#[trigger] ds[i]).1,
                res,
                p.push(SegmentView::Key(ds[i].0)),
            ).1 == Seq::<Seq<SegmentView>>::empty(),
    ensures
        merge_entries(ds, res, p).1 == Seq::<Seq<SegmentView>>::empty(),
    decreases ds.len(),
{
    if ds.len() > 0 {
        let pre = ds.subrange(0, ds.len() - 1);
        assert forall|i: int| 0 <= i < pre.len() implies merge_node(
            (#[trigger] pre[i]).1,
            res,
            p.push(SegmentView::Key(pre[i].0)),
        ).1 == Seq::<Seq<SegmentView>>::empty() by {
            assert(pre[i] == ds[i]);
        }
        lemma_merge_entries_resolved(pre, res, p);
        let last = ds[ds.len() - 1];
        assert(merge_node(last.1, res, p.push(SegmentView::Key(last.0))).1 == Seq::<
            Seq<SegmentView>,
        >::empty());
        assert(Seq::<Seq<SegmentView>>::empty() + Seq::<Seq<SegmentView>>::empty() =~= Seq::<
            Seq<SegmentView>,
        >::empty());
    }
}

// ---------------------------------------------------------------------------
// Unresolved paths and conflicts
// ---------------------------------------------------------------------------

proof fn lemma_unresolved_count(d: DiffView, p: Seq<SegmentView>)
    ensures
        merge_node(d, Map::empty(), p).1.len() == conflict_total(d),
    decreases d,
{
    match d {
        DiffView::Object(es) => {
            lemma_unresolved_count_entries(es, p);
        },
        _ => {},
    }
}

proof fn lemma_unresolved_count_entries(es: Seq<(Seq<char>, DiffView)>, p: Seq<SegmentView>)
    ensures
        merge_entries(es, Map::empty(), p).1.len() == conflict_total_entries(es),
    decreases es,
{
    if es.len() > 0 {
        let i = es.len() - 1;
        lemma_unresolved_count_entries(es.subrange(0, i), p);
        lemma_unresolved_count(es[i].1, p.push(SegmentView::Key(es[i].0)));
    }
}

/// With no resolutions recorded, the merge leaves exactly as many paths
/// unresolved as the diff has conflicted nodes; the count that a 3-way diff
/// reports is the number of paths that must be resolved before export.
pub proof fn law_unresolved_paths_are_the_conflicts(root: DiffView)
    ensures
        spec_apply(root, Map::empty()).1.len() == conflict_total(root),
{
    lemma_unresolved_count(root, Seq::empty());
}

/// Whether a path has no resolution recorded.
pub open spec fn unanswered(res: ResolutionMap) -> spec_fn(Seq<SegmentView>) -> bool {
    |q: Seq<SegmentView>| !res.contains_key(q)
}

proof fn lemma_filter_none_or_one(p: Seq<SegmentView>, res: ResolutionMap)
    ensures
        Seq::<Seq<SegmentView>>::empty().filter(unanswered(res)) == Seq::<Seq<SegmentView>>::empty(),
        seq![p].filter(unanswered(res)) == if res.contains_key(p) {
            Seq::<Seq<SegmentView>>::empty()
        } else {
            seq![p]
        },
{
    reveal_with_fuel(Seq::<_>::filter, 2);
    assert(seq![p].drop_last() =~= Seq::<Seq<SegmentView>>::empty());
    assert(Seq::<Seq<SegmentView>>::empty().push(p) =~= seq![p]);
}

proof fn lemma_unanswered(d: DiffView, res: ResolutionMap, p: Seq<SegmentView>)
    ensures
        merge_node(d, res, p).1 == merge_node(d, Map::empty(), p).1.filter(unanswered(res)),
    decreases d,
{
    lemma_filter_none_or_one(p, res);
    match d {
        DiffView::Object(es) => {
            lemma_unanswered_entries(es, res, p);
        },
        _ => {},
    }
}

proof fn lemma_unanswered_entries(es: Seq<(Seq<char>, DiffView)>, res: ResolutionMap, p: Seq<SegmentView>)
    ensures
        merge_entries(es, res, p).1 == merge_entries(es, Map::empty(), p).1.filter(unanswered(res)),
    decreases es,
{
    lemma_filter_none_or_one(p, res);
    if es.len() > 0 {
        let i = es.len() - 1;
        let pre = es.subrange(0, i);
        let q = p.push(SegmentView::Key(es[i].0));
        lemma_unanswered_entries(pre, res, p);
        lemma_unanswered(es[i].1, res, q);
        Seq::filter_distributes_over_add(
            merge_entries(pre, Map::empty(), p).1,
            merge_node(es[i].1, Map::empty(), q).1,
            unanswered(res),
        );
    }
}

/// The paths a merge leaves unresolved are the conflicts (those it leaves
/// with no resolutions at all), in the same order, less those that have a
/// resolution recorded. So once every conflict has one, nothing is left and
/// the merged document may be exported.
pub proof fn law_unresolved_are_unanswered_conflicts(root: DiffView, res: ResolutionMap)
    ensures
        spec_apply(root, res).1 == spec_apply(root, Map::empty()).1.filter(unanswered(res)),
        (forall|q: Seq<SegmentView>|
            spec_apply(root, Map::empty()).1.contains(q) ==> #[trigger] res.contains_key(q))
            ==> spec_apply(root, res).1.len() == 0,
{
    let all = spec_apply(root, Map::empty()).1;
    lemma_unanswered(root, res, Seq::empty());
    if forall|q: Seq<SegmentView>| all.contains(q) ==> #[trigger] res.contains_key(q) {
        let left = all.filter(unanswered(res));
        if left.len() > 0 {
            let q = left[0];
            all.lemma_filter_pred(unanswered(res), 0);
            assert(left.contains(q));
            all.lemma_filter_contains_rev(unanswered(res), q);
        }
    }
}

/// A 2-way diff reports no conflict.
pub proof fn law_two_way_diff_has_no_conflicts(base: JsonTree, mine: JsonTree)
    ensures
        conflict_total(spec_diff_two(base, mine)) == 0,
{
    lemma_unresolved_count(spec_diff_two(base, mine), Seq::empty());
    lemma_two_way_resolved(base, mine, Map::empty(), Seq::empty());
}

// ---------------------------------------------------------------------------
// Two-way diffs
// ---------------------------------------------------------------------------

proof fn lemma_two_way_base_entries(bs: Seq<(Seq<char>, JsonTree)>, ms: Seq<(Seq<char>, JsonTree)>)
    ensures
        two_way_base_entries(bs, ms).len() == bs.len(),
        forall|i: int|
            0 <= i < bs.len() ==> #[trigger] two_way_base_entries(bs, ms)[i] == (
                bs[i].0,
                if has_key(ms, bs[i].0) {
                    spec_diff_two(bs[i].1, ms[last_index(ms, bs[i].0)].1)
                } else {
                    DiffView::Removed(bs[i].1)
                },
            ),
    decreases bs.len(),
{
    if bs.len() > 0 {
        let pre = bs.subrange(0, bs.len() - 1);
        lemma_two_way_base_entries(pre, ms);
        assert forall|i: int| 0 <= i < pre.len() implies #[trigger] bs[i] == pre[i] by {}
    }
}

proof fn lemma_two_way_added(bs: Seq<(Seq<char>, JsonTree)>, ms: Seq<(Seq<char>, JsonTree)>)
    ensures
        forall|j: int|
            0 <= j < two_way_added_entries(bs, ms).len() ==> (#[trigger] two_way_added_entries(
                bs,
                ms,
            )[j]).1 is Added,
    decreases ms.len(),
{
    if ms.len() > 0 {
        let n = ms.len() - 1;
        let pre = ms.subrange(0, n);
        lemma_two_way_added(bs, pre);
        let bp = two_way_added_entries(bs, pre);
        let b = two_way_added_entries(bs, ms);
        if !has_key(bs, ms[n].0) {
            assert forall|j: int| 0 <= j < b.len() implies (#[trigger] b[j]).1 is Added by {
                if j < bp.len() {
                    assert(b[j] == bp[j]);
                }
            }
        }
    }
}

proof fn lemma_two_way_added_get(
    bs: Seq<(Seq<char>, JsonTree)>,
    ms: Seq<(Seq<char>, JsonTree)>,
    k: Seq<char>,
)
    ensures
        entry_get(two_way_added_entries(bs, ms), k) == if !has_key(bs, k) && has_key(ms, k) {
            Some(DiffView::Added(ms[last_index(ms, k)].1))
        } else {
            None
        },
    decreases ms.len(),
{
    if ms.len() > 0 {
        let n = ms.len() - 1;
        let pre = ms.subrange(0, n);
        let x = ms[n];
        lemma_two_way_added_get(bs, pre, k);
        assert(ms =~= pre.push(x));
        lemma_last_index_push(pre, x, k);
        lemma_last_index(pre, k);
        let bp = two_way_added_entries(bs, pre);
        lemma_last_index(bp, k);
        if !has_key(bs, x.0) {
            lemma_last_index_push(bp, (x.0, DiffView::Added(x.1)), k);
            if x.0 != k && has_key(bp, k) {
                assert(bp.push((x.0, DiffView::Added(x.1)))[last_index(bp, k)] == bp[last_index(bp, k)]);
            }
        }
        if x.0 != k && has_key(pre, k) {
            assert(ms[last_index(pre, k)] == pre[last_index(pre, k)]);
        }
    }
}

proof fn lemma_two_way_base_get(
    bs: Seq<(Seq<char>, JsonTree)>,
    ms: Seq<(Seq<char>, JsonTree)>,
    k: Seq<char>,
)
    ensures
        entry_get(two_way_base_entries(bs, ms), k) == if has_key(bs, k) {
            Some(
                if has_key(ms, k) {
                    spec_diff_two(bs[last_index(bs, k)].1, ms[last_index(ms, k)].1)
                } else {
                    DiffView::Removed(bs[last_index(bs, k)].1)
                },
            )
        } else {
            None
        },
{
    let a = two_way_base_entries(bs, ms);
    lemma_two_way_base_entries(bs, ms);
    lemma_last_index(a, k);
    lemma_last_index(bs, k);
    let la = last_index(a, k);
    let lb = last_index(bs, k);
    assert(la == lb) by {
        if la >= 0 && la > lb {
            assert(a[la].0 == bs[la].0);
        }
        if lb >= 0 && lb > la {
            assert(a[lb].0 == bs[lb].0);
        }
    }
}

proof fn lemma_two_way_value(b: JsonTree, m: JsonTree, p: Seq<SegmentView>)
    ensures
        merges_to(merge_node(spec_diff_two(b, m), Map::empty(), p).0, m),
    decreases b,
{
    match b {
        JsonTree::Object(bs) => match m {
            JsonTree::Object(ms) => {
                let a = two_way_base_entries(bs, ms);
                let bb = two_way_added_entries(bs, ms);
                let d = inserted(a + bb);
                let e = merge_entries(d, Map::empty(), p).0;
                lemma_inserted(a + bb);
                assert forall|k: Seq<char>|
                    #[trigger] has_key(e, k) == has_key(ms, k) && (has_key(e, k) ==> same_json(
                        e[last_index(e, k)].1,
                        ms[last_index(ms, k)].1,
                    )) by {
                    lemma_merge_entries_get(d, Map::empty(), p, k);
                    lemma_last_merged_unique(d, Map::empty(), p, k);
                    lemma_entry_get_concat(a, bb, k);
                    lemma_two_way_added_get(bs, ms, k);
                    lemma_two_way_base_get(bs, ms, k);
                    lemma_last_index(bb, k);
                    lemma_last_index(bs, k);
                    lemma_last_index(ms, k);
                    if has_key(bs, k) && has_key(ms, k) {
                        lemma_two_way_value(
                            bs[last_index(bs, k)].1,
                            ms[last_index(ms, k)].1,
                            p.push(SegmentView::Key(k)),
                        );
                    }
                }
                lemma_same_object(e, ms);
            },
            _ => {},
        },
        _ => {},
    }
}

proof fn lemma_two_way_resolved(b: JsonTree, m: JsonTree, res: ResolutionMap, p: Seq<SegmentView>)
    ensures
        merge_node(spec_diff_two(b, m), res, p).1 == Seq::<Seq<SegmentView>>::empty(),
    decreases b,
{
    match b {
        JsonTree::Object(bs) => match m {
            JsonTree::Object(ms) => {
                let a = two_way_base_entries(bs, ms);
                let bb = two_way_added_entries(bs, ms);
                let c = a + bb;
                let d = inserted(c);
                lemma_two_way_base_entries(bs, ms);
                lemma_two_way_added(bs, ms);
                lemma_inserted(c);
                assert forall|i: int| 0 <= i < c.len() implies merge_node(
                    (#[trigger] c[i]).1,
                    res,
                    p.push(SegmentView::Key(c[i].0)),
                ).1 == Seq::<Seq<SegmentView>>::empty() by {
                    if i < a.len() {
                        assert(c[i] == a[i]);
                        if has_key(ms, bs[i].0) {
                            lemma_two_way_resolved(
                                bs[i].1,
                                ms[last_index(ms, bs[i].0)].1,
                                res,
                                p.push(SegmentView::Key(bs[i].0)),
                            );
                        }
                    } else {
                        assert(c[i] == bb[i - a.len()]);
                    }
                }
                assert forall|i: int| 0 <= i < d.len() implies merge_node(
                    (#[trigger] d[i]).1,
                    res,
                    p.push(SegmentView::Key(d[i].0)),
                ).1 == Seq::<Seq<SegmentView>>::empty() by {
                    let j = choose|j: int| 0 <= j < c.len() && d[i] == c[j];
                    assert(merge_node(c[j].1, res, p.push(SegmentView::Key(c[j].0))).1 == Seq::<
                        Seq<SegmentView>,
                    >::empty());
                }
                lemma_merge_entries_resolved(d, res, p);
            },
            _ => {},
        },
        _ => {},
    }
}

/// Merging a 2-way diff with no resolutions gives back `mine`: every
/// change that mine made is taken.
pub proof fn law_two_way_merge_gives_mine(base: JsonTree, mine: JsonTree)
    ensures
        same_json(spec_apply(spec_diff_two(base, mine), Map::empty()).0, mine),
{
    lemma_two_way_value(base, mine, Seq::empty());
}

/// A 2-way merge never leaves a path unresolved, whatever the resolutions.
pub proof fn law_two_way_merge_needs_no_resolution(
    base: JsonTree,
    mine: JsonTree,
    res: ResolutionMap,
)
    ensures
        spec_apply(spec_diff_two(base, mine), res).1 == Seq::<Seq<SegmentView>>::empty(),
{
    lemma_two_way_resolved(base, mine, res, Seq::empty());
}

// ---------------------------------------------------------------------------
// Three-way diffs
// ---------------------------------------------------------------------------

proof fn lemma_three_way_entries(
    bs: Seq<(Seq<char>, JsonTree)>,
    ms: Seq<(Seq<char>, JsonTree)>,
    ts: Seq<(Seq<char>, JsonTree)>,
    keys: Seq<Seq<char>>,
)
    ensures
        three_way_entries(bs, ms, ts, keys).len() == keys.len(),
        forall|i: int|
            0 <= i < keys.len() ==> #[trigger] three_way_entries(bs, ms, ts, keys)[i] == (
                keys[i],
                three_way_node(bs, ms, ts, keys[i]),
            ),
    decreases keys.len(),
{
    if keys.len() > 0 {
        let pre = keys.subrange(0, keys.len() - 1);
        lemma_three_way_entries(bs, ms, ts, pre);
        assert forall|i: int| 0 <= i < pre.len() implies #[trigger] keys[i] == pre[i] by {}
    }
}

proof fn lemma_three_way_lookup(
    bs: Seq<(Seq<char>, JsonTree)>,
    ms: Seq<(Seq<char>, JsonTree)>,
    ts: Seq<(Seq<char>, JsonTree)>,
    keys: Seq<Seq<char>>,
    res: ResolutionMap,
    p: Seq<SegmentView>,
    k: Seq<char>,
)
    ensures
        last_merged(three_way_entries(bs, ms, ts, keys), res, p, k) == if keys.contains(k) {
            merge_node(three_way_node(bs, ms, ts, k), res, p.push(SegmentView::Key(k))).0
        } else {
            None
        },
    decreases keys.len(),
{
    if keys.len() > 0 {
        let n = keys.len() - 1;
        let pre = keys.subrange(0, n);
        lemma_three_way_lookup(bs, ms, ts, pre, res, p, k);
        let d = three_way_entries(bs, ms, ts, keys);
        assert(d.subrange(0, d.len() - 1) =~= three_way_entries(bs, ms, ts, pre));
        assert(keys.contains(k) == (pre.contains(k) || keys[n] == k)) by {
            if pre.contains(k) {
                let j = choose|j: int| 0 <= j < pre.len() && pre[j] == k;
                assert(keys[j] == k);
            }
            if keys.contains(k) && keys[n] != k {
                let j = choose|j: int| 0 <= j < keys.len() && keys[j] == k;
                assert(pre[j] == k);
            }
            if keys[n] == k {
                assert(keys.contains(k));
            }
        }
    }
}

proof fn lemma_union_keys_contains(
    bs: Seq<(Seq<char>, JsonTree)>,
    ms: Seq<(Seq<char>, JsonTree)>,
    ts: Seq<(Seq<char>, JsonTree)>,
    k: Seq<char>,
)
    ensures
        union_keys(bs, ms, ts).contains(k) == (has_key(bs, k) || has_key(ms, k) || has_key(ts, k)),
{
    let kb = keys_of(bs);
    let km = keys_of(ms);
    let kt = keys_of(ts);
    let s = kb + km + kt;
    lemma_dedup_contains(s, k);
    lemma_last_index(bs, k);
    lemma_last_index(ms, k);
    lemma_last_index(ts, k);
    if s.contains(k) {
        let j = choose|j: int| 0 <= j < s.len() && s[j] == k;
        if j < kb.len() {
            assert(kb[j] == k);
        } else if j < kb.len() + km.len() {
            assert(km[j - kb.len()] == k);
        } else {
            assert(kt[j - kb.len() - km.len()] == k);
        }
    }
    if kb.contains(k) {
        let j = choose|j: int| 0 <= j < kb.len() && kb[j] == k;
        assert(s[j] == k);
    }
    if km.contains(k) {
        let j = choose|j: int| 0 <= j < km.len() && km[j] == k;
        assert(s[kb.len() + j] == k);
    }
    if kt.contains(k) {
        let j = choose|j: int| 0 <= j < kt.len() && kt[j] == k;
        assert(s[kb.len() + km.len() + j] == k);
    }
}

proof fn lemma_conflict_free_entries(es: Seq<(Seq<char>, DiffView)>)
    ensures
        conflict_total_entries(es) == 0 <==> forall|i: int|
            0 <= i < es.len() ==> conflict_total((#[trigger] es[i]).1) == 0,
        auto_total_entries(es) == 0 <==> forall|i: int|
            0 <= i < es.len() ==> auto_total((#[trigger] es[i]).1) == 0,
    decreases es.len(),
{
    if es.len() > 0 {
        let pre = es.subrange(0, es.len() - 1);
        lemma_conflict_free_entries(pre);
        assert forall|i: int| 0 <= i < pre.len() implies #[trigger] es[i] == pre[i] by {}
        if forall|i: int| 0 <= i < es.len() ==> conflict_total((#[trigger] es[i]).1) == 0 {
            assert forall|i: int| 0 <= i < pre.len() implies conflict_total(
                (#[trigger] pre[i]).1,
            ) == 0 by {
                assert(es[i] == pre[i]);
            }
            assert(conflict_total(es[es.len() - 1].1) == 0);
        }
        if forall|i: int| 0 <= i < es.len() ==> auto_total((#[trigger] es[i]).1) == 0 {
            assert forall|i: int| 0 <= i < pre.len() implies auto_total((#[trigger] pre[i]).1)
                == 0 by {
                assert(es[i] == pre[i]);
            }
            assert(auto_total(es[es.len() - 1].1) == 0);
        }
    }
}

/// Facts about one key of a 3-way object diff, gathered for the laws below.
proof fn lemma_three_way_key(
    bs: Seq<(Seq<char>, JsonTree)>,
    ms: Seq<(Seq<char>, JsonTree)>,
    ts: Seq<(Seq<char>, JsonTree)>,
    res: ResolutionMap,
    p: Seq<SegmentView>,
    k: Seq<char>,
)
    ensures
        ({
            let keys = union_keys(bs, ms, ts);
            let d = three_way_entries(bs, ms, ts, keys);
            let e = merge_entries(d, res, p).0;
            &&& entry_get(e, k) == if has_key(bs, k) || has_key(ms, k) || has_key(ts, k) {
                merge_node(three_way_node(bs, ms, ts, k), res, p.push(SegmentView::Key(k))).0
            } else {
                None
            }
            &&& (has_key(bs, k) || has_key(ms, k) || has_key(ts, k)) ==> exists|i: int|
                0 <= i < d.len() && (#[trigger] d[i]).1 == three_way_node(bs, ms, ts, k)
        }),
{
    let keys = union_keys(bs, ms, ts);
    let d = three_way_entries(bs, ms, ts, keys);
    lemma_merge_entries_get(d, res, p, k);
    lemma_three_way_lookup(bs, ms, ts, keys, res, p, k);
    lemma_union_keys_contains(bs, ms, ts, k);
    lemma_three_way_entries(bs, ms, ts, keys);
    lemma_last_index(bs, k);
    lemma_last_index(ms, k);
    lemma_last_index(ts, k);
    if keys.contains(k) {
        let i = choose|i: int| 0 <= i < keys.len() && keys[i] == k;
        assert(d[i].1 == three_way_node(bs, ms, ts, k));
    }
}

proof fn lemma_same_change(b: JsonTree, m: JsonTree, t: JsonTree, p: Seq<SegmentView>)
    requires
        same_json(m, t),
    ensures
        conflict_total(spec_diff_three(b, m, t)) == 0,
        merges_to(merge_node(spec_diff_three(b, m, t), Map::empty(), p).0, m),
    decreases b,
{
    match (b, m, t) {
        (JsonTree::Object(bs), JsonTree::Object(ms), JsonTree::Object(ts)) => {
            let keys = union_keys(bs, ms, ts);
            let d = three_way_entries(bs, ms, ts, keys);
            let e = merge_entries(d, Map::empty(), p).0;
            lemma_three_way_entries(bs, ms, ts, keys);
            lemma_same_object(ms, ts);
            assert forall|i: int| 0 <= i < d.len() implies conflict_total((#[trigger] d[i]).1) == 0 by {
                let k = keys[i];
                lemma_last_index(bs, k);
                lemma_last_index(ms, k);
                lemma_last_index(ts, k);
                assert(has_key(ms, k) == has_key(ts, k));
                if has_key(bs, k) && has_key(ms, k) {
                    lemma_same_change(
                        bs[last_index(bs, k)].1,
                        ms[last_index(ms, k)].1,
                        ts[last_index(ts, k)].1,
                        p.push(SegmentView::Key(k)),
                    );
                }
            }
            lemma_conflict_free_entries(d);
            assert forall|k: Seq<char>|
                #[trigger] has_key(e, k) == has_key(ms, k) && (has_key(e, k) ==> same_json(
                    e[last_index(e, k)].1,
                    ms[last_index(ms, k)].1,
                )) by {
                lemma_three_way_key(bs, ms, ts, Map::empty(), p, k);
                lemma_last_index(bs, k);
                lemma_last_index(ms, k);
                lemma_last_index(ts, k);
                assert(has_key(ms, k) == has_key(ts, k));
                if has_key(bs, k) && has_key(ms, k) {
                    lemma_same_change(
                        bs[last_index(bs, k)].1,
                        ms[last_index(ms, k)].1,
                        ts[last_index(ts, k)].1,
                        p.push(SegmentView::Key(k)),
                    );
                }
            }
            lemma_same_object(e, ms);
        },
        _ => {},
    }
}

/// When both sides made the same change (equal as JSON), nothing conflicts
/// and the merge, with no resolutions, is that change.
pub proof fn law_same_change_merges_cleanly(base: JsonTree, mine: JsonTree, theirs: JsonTree)
    requires
        same_json(mine, theirs),
    ensures
        conflict_total(spec_diff_three(base, mine, theirs)) == 0,
        same_json(spec_apply(spec_diff_three(base, mine, theirs), Map::empty()).0, mine),
{
    lemma_same_change(base, mine, theirs, Seq::empty());
}

/// The resolutions that accept the same choice at every path.
pub open spec fn accept_everywhere(choice: ResolutionView) -> ResolutionMap {
    Map::new(|q: Seq<SegmentView>| true, |q: Seq<SegmentView>| choice)
}

/// No array occurs anywhere in the document.
pub open spec fn no_arrays(t: JsonTree) -> bool
    decreases t,
{
    match t {
        JsonTree::Array(_) => false,
        JsonTree::Object(es) => no_arrays_entries(es),
        _ => true,
    }
}

pub open spec fn no_arrays_entries(es: Seq<(Seq<char>, JsonTree)>) -> bool
    decreases es,
{
    if es.len() == 0 {
        true
    } else {
        no_arrays_entries(es.subrange(0, es.len() - 1)) && no_arrays(es[es.len() - 1].1)
    }
}

proof fn lemma_no_arrays_entries(es: Seq<(Seq<char>, JsonTree)>)
    requires
        no_arrays_entries(es),
    ensures
        forall|i: int| 0 <= i < es.len() ==> no_arrays(#[trigger] es[i].1),
    decreases es.len(),
{
    if es.len() > 0 {
        let pre = es.subrange(0, es.len() - 1);
        lemma_no_arrays_entries(pre);
        assert forall|i: int| 0 <= i < es.len() implies no_arrays(#[trigger] es[i].1) by {
            if i < pre.len() {
                assert(es[i] == pre[i]);
            }
        }
    }
}

/// The resolutions a one-sided merge is run with: none at all (`plain`), or
/// the changed side accepted everywhere.
pub open spec fn one_side_resolutions(mine_changed: bool, plain: bool) -> ResolutionMap {
    if plain {
        Map::empty()
    } else {
        accept_everywhere(
            if mine_changed {
                ResolutionView::Mine
            } else {
                ResolutionView::Theirs
            },
        )
    }
}

proof fn lemma_one_side(
    b: JsonTree,
    kept: JsonTree,
    c: JsonTree,
    mine_changed: bool,
    plain: bool,
    p: Seq<SegmentView>,
)
    requires
        same_json(kept, b),
        plain ==> no_arrays(b) && no_arrays(c),
    ensures
        ({
            let d = if mine_changed {
                spec_diff_three(b, c, kept)
            } else {
                spec_diff_three(b, kept, c)
            };
            let res = one_side_resolutions(mine_changed, plain);
            &&& merges_to(merge_node(d, res, p).0, c)
            &&& merge_node(d, res, p).1 == Seq::<Seq<SegmentView>>::empty()
        }),
    decreases b,
{
    let res = one_side_resolutions(mine_changed, plain);
    assert(!plain ==> res.contains_key(p));
    match (b, kept, c) {
        (JsonTree::Object(bs), JsonTree::Object(ks), JsonTree::Object(cs)) => {
            if plain {
                lemma_no_arrays_entries(bs);
                lemma_no_arrays_entries(cs);
            }
            lemma_same_object(ks, bs);
            let (ms, ts) = if mine_changed {
                (cs, ks)
            } else {
                (ks, cs)
            };
            let keys = union_keys(bs, ms, ts);
            let d = three_way_entries(bs, ms, ts, keys);
            let e = merge_entries(d, res, p).0;
            lemma_three_way_entries(bs, ms, ts, keys);
            assert forall|k: Seq<char>|
                #[trigger] has_key(e, k) == has_key(cs, k) && (has_key(e, k) ==> same_json(
                    e[last_index(e, k)].1,
                    cs[last_index(cs, k)].1,
                )) by {
                lemma_three_way_key(bs, ms, ts, res, p, k);
                lemma_last_index(bs, k);
                lemma_last_index(ks, k);
                lemma_last_index(cs, k);
                assert(has_key(ks, k) == has_key(bs, k));
                if has_key(bs, k) && has_key(cs, k) {
                    lemma_one_side(
                        bs[last_index(bs, k)].1,
                        ks[last_index(ks, k)].1,
                        cs[last_index(cs, k)].1,
                        mine_changed,
                        plain,
                        p.push(SegmentView::Key(k)),
                    );
                }
            }
            lemma_same_object(e, cs);
            assert forall|i: int| 0 <= i < d.len() implies merge_node(
                (#[trigger] d[i]).1,
                res,
                p.push(SegmentView::Key(d[i].0)),
            ).1 == Seq::<Seq<SegmentView>>::empty() by {
                let k = keys[i];
                lemma_last_index(bs, k);
                lemma_last_index(ks, k);
                lemma_last_index(cs, k);
                assert(has_key(ks, k) == has_key(bs, k));
                if has_key(bs, k) && has_key(cs, k) {
                    lemma_one_side(
                        bs[last_index(bs, k)].1,
                        ks[last_index(ks, k)].1,
                        cs[last_index(cs, k)].1,
                        mine_changed,
                        plain,
                        p.push(SegmentView::Key(k)),
                    );
                }
            }
            lemma_merge_entries_resolved(d, res, p);
        },
        _ => {},
    }
}

/// When only mine changed (theirs equal to base as JSON), accepting mine
/// wherever the diff asks gives mine, and no path is left unresolved.
pub proof fn law_mine_only_change(base: JsonTree, mine: JsonTree, theirs: JsonTree)
    requires
        same_json(theirs, base),
    ensures
        same_json(
            spec_apply(spec_diff_three(base, mine, theirs), accept_everywhere(ResolutionView::Mine)).0,
            mine,
        ),
        spec_apply(spec_diff_three(base, mine, theirs), accept_everywhere(ResolutionView::Mine)).1
            == Seq::<Seq<SegmentView>>::empty(),
{
    lemma_one_side(base, theirs, mine, true, false, Seq::empty());
}

/// When only theirs changed (mine equal to base as JSON), accepting theirs
/// wherever the diff asks gives theirs, and no path is left unresolved.
pub proof fn law_theirs_only_change(base: JsonTree, mine: JsonTree, theirs: JsonTree)
    requires
        same_json(mine, base),
    ensures
        same_json(
            spec_apply(spec_diff_three(base, mine, theirs), accept_everywhere(ResolutionView::Theirs)).0,
            theirs,
        ),
        spec_apply(spec_diff_three(base, mine, theirs), accept_everywhere(ResolutionView::Theirs)).1
            == Seq::<Seq<SegmentView>>::empty(),
{
    lemma_one_side(base, mine, theirs, false, false, Seq::empty());
}

/// When only mine changed (theirs equal to base as JSON) and no array occurs
/// in base or mine, the merge needs no resolution: with none recorded it is
/// mine, and nothing is left unresolved. (An array that one side changed is
/// always put to the user.)
pub proof fn law_mine_only_change_without_arrays(base: JsonTree, mine: JsonTree, theirs: JsonTree)
    requires
        same_json(theirs, base),
        no_arrays(base),
        no_arrays(mine),
    ensures
        same_json(spec_apply(spec_diff_three(base, mine, theirs), Map::empty()).0, mine),
        spec_apply(spec_diff_three(base, mine, theirs), Map::empty()).1 == Seq::<Seq<SegmentView>>::empty(),
{
    lemma_one_side(base, theirs, mine, true, true, Seq::empty());
}

/// When only theirs changed (mine equal to base as JSON) and no array occurs
/// in base or theirs, the merge needs no resolution: with none recorded it
/// is theirs, and nothing is left unresolved.
pub proof fn law_theirs_only_change_without_arrays(base: JsonTree, mine: JsonTree, theirs: JsonTree)
    requires
        same_json(mine, base),
        no_arrays(base),
        no_arrays(theirs),
    ensures
        same_json(spec_apply(spec_diff_three(base, mine, theirs), Map::empty()).0, theirs),
        spec_apply(spec_diff_three(base, mine, theirs), Map::empty()).1 == Seq::<Seq<SegmentView>>::empty(),
{
    lemma_one_side(base, mine, theirs, false, true, Seq::empty());
}

proof fn lemma_identical(b: JsonTree, m: JsonTree, t: JsonTree)
    requires
        same_json(m, b),
        same_json(t, b),
    ensures
        conflict_total(spec_diff_three(b, m, t)) == 0,
        auto_total(spec_diff_three(b, m, t)) == 0,
    decreases b,
{
    match (b, m, t) {
        (JsonTree::Object(bs), JsonTree::Object(ms), JsonTree::Object(ts)) => {
            let keys = union_keys(bs, ms, ts);
            let d = three_way_entries(bs, ms, ts, keys);
            lemma_three_way_entries(bs, ms, ts, keys);
            lemma_same_object(ms, bs);
            lemma_same_object(ts, bs);
            assert forall|i: int| 0 <= i < d.len() implies conflict_total((#[trigger] d[i]).1) == 0
                && auto_total(d[i].1) == 0 by {
                let k = keys[i];
                lemma_last_index(bs, k);
                lemma_last_index(ms, k);
                lemma_last_index(ts, k);
                assert(has_key(ms, k) == has_key(bs, k));
                assert(has_key(ts, k) == has_key(bs, k));
                if has_key(bs, k) {
                    lemma_identical(
                        bs[last_index(bs, k)].1,
                        ms[last_index(ms, k)].1,
                        ts[last_index(ts, k)].1,
                    );
                }
            }
            lemma_conflict_free_entries(d);
        },
        _ => {},
    }
}

/// Three documents equal as JSON: nothing conflicts and nothing needs
/// merging.
pub proof fn law_identical_documents_have_no_changes(base: JsonTree, mine: JsonTree, theirs: JsonTree)
    requires
        same_json(mine, base),
        same_json(theirs, base),
    ensures
        conflict_total(spec_diff_three(base, mine, theirs)) == 0,
        auto_total(spec_diff_three(base, mine, theirs)) == 0,
{
    lemma_identical(base, mine, theirs);
}

// ---------------------------------------------------------------------------
// Swapping mine and theirs
// ---------------------------------------------------------------------------

/// The sum of `f` over a sequence.
pub open spec fn sum_over<A>(s: Seq<A>, f: spec_fn(A) -> nat) -> nat
    decreases s.len(),
{
    if s.len() == 0 {
        0
    } else {
        sum_over(s.subrange(0, s.len() - 1), f) + f(s[s.len() - 1])
    }
}

proof fn lemma_sum_over_remove<A>(s: Seq<A>, f: spec_fn(A) -> nat, j: int)
    requires
        0 <= j < s.len(),
    ensures
        sum_over(s, f) == sum_over(s.remove(j), f) + f(s[j]),
    decreases s.len(),
{
    let n = s.len() - 1;
    let pre = s.subrange(0, n);
    if j == n {
        assert(s.remove(j) =~= pre);
    } else {
        lemma_sum_over_remove(pre, f, j);
        let r = s.remove(j);
        assert(r.subrange(0, r.len() - 1) =~= pre.remove(j));
        assert(r[r.len() - 1] == s[n]);
    }
}

/// A sum does not depend on the order of the elements summed.
proof fn lemma_sum_over_permuted<A>(s1: Seq<A>, s2: Seq<A>, f: spec_fn(A) -> nat)
    requires
        s1.no_duplicates(),
        s2.no_duplicates(),
        forall|x: A| s1.contains(x) == s2.contains(x),
    ensures
        sum_over(s1, f) == sum_over(s2, f),
    decreases s1.len(),
{
    if s1.len() == 0 {
        if s2.len() > 0 {
            assert(s2.contains(s2[0]));
        }
    } else {
        let n = s1.len() - 1;
        let x = s1[n];
        let p1 = s1.subrange(0, n);
        assert(s1.contains(x));
        let j = choose|j: int| 0 <= j < s2.len() && s2[j] == x;
        let p2 = s2.remove(j);
        assert forall|y: A| p1.contains(y) == p2.contains(y) by {
            if p1.contains(y) {
                let i = choose|i: int| 0 <= i < p1.len() && p1[i] == y;
                assert(s1[i] == y);
                assert(s1.contains(y));
                let i2 = choose|i2: int| 0 <= i2 < s2.len() && s2[i2] == y;
                assert(y != x);
                if i2 < j {
                    assert(p2[i2] == y);
                } else {
                    assert(p2[i2 - 1] == y);
                }
            }
            if p2.contains(y) {
                let i = choose|i: int| 0 <= i < p2.len() && p2[i] == y;
                if i < j {
                    assert(s2[i] == y);
                    assert(y != x);
                } else {
                    assert(s2[i + 1] == y);
                    assert(y != x);
                }
                assert(s2.contains(y));
                assert(s1.contains(y));
                let i1 = choose|i1: int| 0 <= i1 < s1.len() && s1[i1] == y;
                assert(p1[i1] == y);
            }
        }
        assert(p2.no_duplicates()) by {
            assert forall|a: int, b: int| 0 <= a < p2.len() && 0 <= b < p2.len() && a != b implies p2[a]
                != p2[b] by {
                let a2 = if a < j { a } else { a + 1 };
                let b2 = if b < j { b } else { b + 1 };
                assert(p2[a] == s2[a2]);
                assert(p2[b] == s2[b2]);
            }
        }
        lemma_sum_over_permuted(p1, p2, f);
        lemma_sum_over_remove(s2, f, j);
    }
}

/// The nodes that need the user's decision.
pub open spec fn needs_decision(n: DiffView) -> bool {
    match n {
        DiffView::Modified { conflict, .. } => conflict,
        DiffView::ArrayChange { mine, theirs, .. } => match theirs {
            Some(t) => !same_json(mine, t),
            None => false,
        },
        _ => false,
    }
}

/// Whether the node of a diff tree at a path needs the user's decision.
pub open spec fn decision_at(d: DiffView, path: Seq<SegmentView>) -> bool {
    match node_at(d, path) {
        Some(n) => needs_decision(n),
        None => false,
    }
}

proof fn lemma_three_way_sums(
    bs: Seq<(Seq<char>, JsonTree)>,
    ms: Seq<(Seq<char>, JsonTree)>,
    ts: Seq<(Seq<char>, JsonTree)>,
    keys: Seq<Seq<char>>,
)
    ensures
        conflict_total_entries(three_way_entries(bs, ms, ts, keys)) == sum_over(
            keys,
            |k: Seq<char>| conflict_total(three_way_node(bs, ms, ts, k)),
        ),
        auto_total_entries(three_way_entries(bs, ms, ts, keys)) == sum_over(
            keys,
            |k: Seq<char>| auto_total(three_way_node(bs, ms, ts, k)),
        ),
    decreases keys.len(),
{
    if keys.len() > 0 {
        let pre = keys.subrange(0, keys.len() - 1);
        lemma_three_way_sums(bs, ms, ts, pre);
        let d = three_way_entries(bs, ms, ts, keys);
        assert(d.subrange(0, d.len() - 1) =~= three_way_entries(bs, ms, ts, pre));
    }
}

proof fn lemma_swap_totals(b: JsonTree, m: JsonTree, t: JsonTree)
    ensures
        conflict_total(spec_diff_three(b, m, t)) == conflict_total(spec_diff_three(b, t, m)),
        auto_total(spec_diff_three(b, m, t)) == auto_total(spec_diff_three(b, t, m)),
    decreases b,
{
    match (b, m, t) {
        (JsonTree::Object(bs), JsonTree::Object(ms), JsonTree::Object(ts)) => {
            let k1 = union_keys(bs, ms, ts);
            let k2 = union_keys(bs, ts, ms);
            let fc1 = |k: Seq<char>| conflict_total(three_way_node(bs, ms, ts, k));
            let fc2 = |k: Seq<char>| conflict_total(three_way_node(bs, ts, ms, k));
            let fa1 = |k: Seq<char>| auto_total(three_way_node(bs, ms, ts, k));
            let fa2 = |k: Seq<char>| auto_total(three_way_node(bs, ts, ms, k));
            assert forall|k: Seq<char>|
                conflict_total(#[trigger] three_way_node(bs, ms, ts, k)) == conflict_total(
                    three_way_node(bs, ts, ms, k),
                ) && auto_total(three_way_node(bs, ms, ts, k)) == auto_total(
                    three_way_node(bs, ts, ms, k),
                ) by {
                lemma_last_index(bs, k);
                if has_key(bs, k) && entry_get(ms, k) is Some && entry_get(ts, k) is Some {
                    lemma_swap_totals(
                        bs[last_index(bs, k)].1,
                        entry_get(ms, k).unwrap(),
                        entry_get(ts, k).unwrap(),
                    );
                }
            }
            assert(fc1 =~= fc2);
            assert(fa1 =~= fa2);
            lemma_three_way_sums(bs, ms, ts, k1);
            lemma_three_way_sums(bs, ts, ms, k2);
            lemma_dedup_unique(keys_of(bs) + keys_of(ms) + keys_of(ts));
            lemma_dedup_unique(keys_of(bs) + keys_of(ts) + keys_of(ms));
            assert forall|k: Seq<char>| k1.contains(k) == k2.contains(k) by {
                lemma_union_keys_contains(bs, ms, ts, k);
                lemma_union_keys_contains(bs, ts, ms, k);
            }
            lemma_sum_over_permuted(k1, k2, fc1);
            lemma_sum_over_permuted(k1, k2, fa1);
        },
        _ => {},
    }
}

proof fn lemma_three_way_entry_get(
    bs: Seq<(Seq<char>, JsonTree)>,
    ms: Seq<(Seq<char>, JsonTree)>,
    ts: Seq<(Seq<char>, JsonTree)>,
    keys: Seq<Seq<char>>,
    k: Seq<char>,
)
    ensures
        entry_get(three_way_entries(bs, ms, ts, keys), k) == if keys.contains(k) {
            Some(three_way_node(bs, ms, ts, k))
        } else {
            None
        },
{
    let d = three_way_entries(bs, ms, ts, keys);
    lemma_three_way_entries(bs, ms, ts, keys);
    lemma_three_way_keys(bs, ms, ts, keys);
    lemma_last_index(d, k);
    if has_key(d, k) {
        assert(d[last_index(d, k)].0 == keys[last_index(d, k)]);
    }
}

proof fn lemma_swap_decisions(b: JsonTree, m: JsonTree, t: JsonTree, path: Seq<SegmentView>)
    ensures
        decision_at(spec_diff_three(b, m, t), path) == decision_at(spec_diff_three(b, t, m), path),
    decreases path.len(),
{
    if path.len() > 0 {
        match (b, m, t) {
            (JsonTree::Object(bs), JsonTree::Object(ms), JsonTree::Object(ts)) => {
                match path[0] {
                    SegmentView::Key(k) => {
                        let rest = path.drop_first();
                        let d1 = spec_diff_three(b, m, t);
                        let d2 = spec_diff_three(b, t, m);
                        lemma_three_way_entry_get(bs, ms, ts, union_keys(bs, ms, ts), k);
                        lemma_three_way_entry_get(bs, ts, ms, union_keys(bs, ts, ms), k);
                        lemma_union_keys_contains(bs, ms, ts, k);
                        lemma_union_keys_contains(bs, ts, ms, k);
                        lemma_last_index(bs, k);
                        let n1 = three_way_node(bs, ms, ts, k);
                        let n2 = three_way_node(bs, ts, ms, k);
                        if union_keys(bs, ms, ts).contains(k) {
                            assert(node_at(d1, path) == node_at(n1, rest));
                            assert(node_at(d2, path) == node_at(n2, rest));
                            if has_key(bs, k) && entry_get(ms, k) is Some && entry_get(ts, k) is Some {
                                lemma_swap_decisions(
                                    bs[last_index(bs, k)].1,
                                    entry_get(ms, k).unwrap(),
                                    entry_get(ts, k).unwrap(),
                                    rest,
                                );
                            } else {
                                assert(!(n1 is Object) && !(n2 is Object));
                                if rest.len() == 0 {
                                    assert(node_at(n1, rest) == Some(n1));
                                    assert(node_at(n2, rest) == Some(n2));
                                    assert(needs_decision(n1) == needs_decision(n2));
                                } else {
                                    assert(node_at(n1, rest) is None);
                                    assert(node_at(n2, rest) is None);
                                }
                            }
                        } else {
                            assert(node_at(d1, path) is None);
                            assert(node_at(d2, path) is None);
                        }
                    },
                    _ => {},
                }
            },
            _ => {},
        }
    }
}

/// Swapping mine and theirs changes neither how many nodes conflict, nor how
/// many merge automatically, nor where the conflicts are.
pub proof fn law_swapping_sides_keeps_conflicts(
    base: JsonTree,
    mine: JsonTree,
    theirs: JsonTree,
    path: Seq<SegmentView>,
)
    ensures
        conflict_total(spec_diff_three(base, mine, theirs)) == conflict_total(
            spec_diff_three(base, theirs, mine),
        ),
        auto_total(spec_diff_three(base, mine, theirs)) == auto_total(
            spec_diff_three(base, theirs, mine),
        ),
        decision_at(spec_diff_three(base, mine, theirs), path) == decision_at(
            spec_diff_three(base, theirs, mine),
            path,
        ),
{
    lemma_swap_totals(base, mine, theirs);
    lemma_swap_decisions(base, mine, theirs, path);
}

// ---------------------------------------------------------------------------
// Merged documents, path by path
// ---------------------------------------------------------------------------

/// The node of a diff tree at a path, if the path leads to one.
pub open spec fn node_at(d: DiffView, path: Seq<SegmentView>) -> Option<DiffView>
    decreases path.len(),
{
    if path.len() == 0 {
        Some(d)
    } else {
        match (d, path[0]) {
            (DiffView::Object(es), SegmentView::Key(k)) => match entry_get(es, k) {
                Some(c) => node_at(c, path.drop_first()),
                None => None,
            },
            _ => None,
        }
    }
}

/// The value of a document at a path, if the path leads to one.
pub open spec fn json_at(t: JsonTree, path: Seq<SegmentView>) -> Option<JsonTree>
    decreases path.len(),
{
    if path.len() == 0 {
        Some(t)
    } else {
        match (t, path[0]) {
            (JsonTree::Object(es), SegmentView::Key(k)) => match entry_get(es, k) {
                Some(c) => json_at(c, path.drop_first()),
                None => None,
            },
            (JsonTree::Array(xs), SegmentView::Index(i)) => if i < xs.len() {
                json_at(xs[i as int], path.drop_first())
            } else {
                None
            },
            _ => None,
        }
    }
}

proof fn lemma_last_merged_last(
    ds: Seq<(Seq<char>, DiffView)>,
    res: ResolutionMap,
    p: Seq<SegmentView>,
    k: Seq<char>,
)
    requires
        has_key(ds, k),
        merge_node(ds[last_index(ds, k)].1, res, p.push(SegmentView::Key(k))).0 is Some,
    ensures
        last_merged(ds, res, p, k) == merge_node(ds[last_index(ds, k)].1, res, p.push(SegmentView::Key(k))).0,
    decreases ds.len(),
{
    let n = ds.len() - 1;
    let pre = ds.subrange(0, n);
    assert(ds =~= pre.push(ds[n]));
    lemma_last_index_push(pre, ds[n], k);
    if ds[n].0 != k {
        lemma_last_index(pre, k);
        assert(ds[last_index(pre, k)] == pre[last_index(pre, k)]);
        lemma_last_merged_last(pre, res, p, k);
    }
}

proof fn lemma_merge_at(d: DiffView, res: ResolutionMap, q: Seq<SegmentView>, r: Seq<SegmentView>)
    requires
        node_at(d, r) is Some,
        !(node_at(d, r).unwrap() is Removed),
    ensures
        merge_node(d, res, q).0 is Some,
        json_at(merge_node(d, res, q).0.unwrap(), r) == merge_node(node_at(d, r).unwrap(), res, q + r).0,
    decreases r.len(),
{
    if r.len() == 0 {
        assert(q + r =~= q);
    } else {
        let es = d->Object_0;
        let k = r[0]->Key_0;
        let c = entry_get(es, k).unwrap();
        let r2 = r.drop_first();
        let q2 = q.push(SegmentView::Key(k));
        assert(q2 + r2 =~= q + r);
        lemma_merge_at(c, res, q2, r2);
        lemma_merge_entries_get(es, res, q, k);
        lemma_last_merged_last(es, res, q, k);
    }
}

/// The merged document holds, at the path of every node of the diff that is
/// not a removal, what that node contributes: at a conflict, the value its
/// recorded resolution chose; at an automatic merge, the value picked for
/// it; elsewhere the value it keeps.
pub proof fn law_merge_holds_each_node_at_its_path(
    root: DiffView,
    res: ResolutionMap,
    path: Seq<SegmentView>,
)
    requires
        node_at(root, path) is Some,
        !(node_at(root, path).unwrap() is Removed),
    ensures
        json_at(spec_apply(root, res).0, path) == merge_node(node_at(root, path).unwrap(), res, path).0,
{
    lemma_merge_at(root, res, Seq::empty(), path);
    assert(Seq::<SegmentView>::empty() + path =~= path);
}

// ---------------------------------------------------------------------------
// Comparisons and resolutions
// ---------------------------------------------------------------------------

/// A conflict does not depend on which side is called mine.
pub proof fn law_conflict_is_symmetric(base: JsonTree, mine: JsonTree, theirs: JsonTree)
    ensures
        spec_is_conflict(base, mine, theirs) == spec_is_conflict(base, theirs, mine),
{
}

/// JSON equality is an equivalence.
pub proof fn law_json_equality_is_equivalence(a: JsonTree, b: JsonTree, c: JsonTree)
    ensures
        same_json(a, a),
        same_json(a, b) == same_json(b, a),
        same_json(a, b) && same_json(b, c) ==> same_json(a, c),
{
}

/// A recorded resolution is the one found for its path; other paths keep
/// theirs.
pub proof fn law_resolution_read_after_write(
    res: ResolutionMap,
    path: Seq<SegmentView>,
    resolution: ResolutionView,
    other: Seq<SegmentView>,
)
    ensures
        lookup(res.insert(path, resolution), path) == Some(resolution),
        other != path ==> lookup(res.insert(path, resolution), other) == lookup(res, other),
{
}

// ---------------------------------------------------------------------------
// Diff nodes against the documents' values at their paths
// ---------------------------------------------------------------------------

/// A value, or null where there is none.
pub open spec fn or_null(o: Option<JsonTree>) -> JsonTree {
    match o {
        Some(v) => v,
        None => JsonTree::Null,
    }
}

/// Two optional values differ: one is present and the other is not, or both
/// are present and not equal as JSON.
pub open spec fn differs(x: Option<JsonTree>, y: Option<JsonTree>) -> bool {
    match (x, y) {
        (Some(a), Some(b)) => !same_json(a, b),
        (None, None) => false,
        _ => true,
    }
}

/// The 3-way node for the values (or their absence) that the three documents
/// hold at one place.
spec fn node_from(xb: Option<JsonTree>, xm: Option<JsonTree>, xt: Option<JsonTree>) -> DiffView {
    match (xb, xm, xt) {
        (Some(b), Some(m), Some(t)) => spec_diff_three(b, m, t),
        (Some(b), None, Some(t)) => if same_json(t, b) {
            DiffView::Removed(b)
        } else {
            DiffView::Modified { base: b, mine: JsonTree::Null, theirs: Some(t), conflict: true }
        },
        (Some(b), Some(m), None) => if same_json(m, b) {
            DiffView::Removed(b)
        } else {
            DiffView::Modified { base: b, mine: m, theirs: Some(JsonTree::Null), conflict: true }
        },
        (Some(b), None, None) => DiffView::Removed(b),
        (None, Some(m), Some(t)) => if same_json(m, t) {
            DiffView::Added(m)
        } else {
            DiffView::Modified { base: JsonTree::Null, mine: m, theirs: Some(t), conflict: true }
        },
        (None, Some(m), None) => DiffView::Added(m),
        (None, None, Some(t)) => DiffView::Added(t),
        (None, None, None) => DiffView::Removed(JsonTree::Null),
    }
}

proof fn lemma_three_way_node_from(
    bs: Seq<(Seq<char>, JsonTree)>,
    ms: Seq<(Seq<char>, JsonTree)>,
    ts: Seq<(Seq<char>, JsonTree)>,
    k: Seq<char>,
)
    ensures
        three_way_node(bs, ms, ts, k) == node_from(entry_get(bs, k), entry_get(ms, k), entry_get(ts, k)),
{
    lemma_last_index(bs, k);
}

proof fn lemma_three_way_at(b: JsonTree, m: JsonTree, t: JsonTree, path: Seq<SegmentView>)
    ensures
        node_at(spec_diff_three(b, m, t), path) matches Some(n) ==> n == node_from(
            json_at(b, path),
            json_at(m, path),
            json_at(t, path),
        ),
        node_at(spec_diff_three(b, m, t), path) is Some ==> (json_at(b, path) is Some || json_at(
            m,
            path,
        ) is Some || json_at(t, path) is Some),
    decreases path.len(),
{
    if path.len() > 0 {
        match (b, m, t) {
            (JsonTree::Object(bs), JsonTree::Object(ms), JsonTree::Object(ts)) => {
                match path[0] {
                    SegmentView::Key(k) => {
                        let rest = path.drop_first();
                        lemma_three_way_entry_get(bs, ms, ts, union_keys(bs, ms, ts), k);
                        lemma_union_keys_contains(bs, ms, ts, k);
                        lemma_three_way_node_from(bs, ms, ts, k);
                        lemma_last_index(bs, k);
                        lemma_last_index(ms, k);
                        lemma_last_index(ts, k);
                        let eb = entry_get(bs, k);
                        let em = entry_get(ms, k);
                        let et = entry_get(ts, k);
                        if eb is Some && em is Some && et is Some {
                            lemma_three_way_at(eb.unwrap(), em.unwrap(), et.unwrap(), rest);
                        } else if union_keys(bs, ms, ts).contains(k) {
                            let c = node_from(eb, em, et);
                            assert(!(c is Object));
                            if rest.len() == 0 {
                                assert(node_at(c, rest) == Some(c));
                                assert(json_at(b, path) == eb) by {
                                    if eb is Some {
                                        assert(json_at(eb.unwrap(), rest) == Some(eb.unwrap()));
                                    }
                                }
                                assert(json_at(m, path) == em) by {
                                    if em is Some {
                                        assert(json_at(em.unwrap(), rest) == Some(em.unwrap()));
                                    }
                                }
                                assert(json_at(t, path) == et) by {
                                    if et is Some {
                                        assert(json_at(et.unwrap(), rest) == Some(et.unwrap()));
                                    }
                                }
                            } else {
                                assert(node_at(c, rest) is None);
                            }
                        }
                    },
                    _ => {},
                }
            },
            _ => {},
        }
    }
}

/// Every node of a 3-way diff records what the three documents hold at its
/// path, null standing for a value a document lacks; and a modification is
/// a conflict exactly when mine and theirs both changed, and differently
/// (a missing value counting as a value of its own).
pub proof fn law_three_way_nodes_record_the_documents(
    base: JsonTree,
    mine: JsonTree,
    theirs: JsonTree,
    path: Seq<SegmentView>,
)
    ensures
        ({
            let xb = json_at(base, path);
            let xm = json_at(mine, path);
            let xt = json_at(theirs, path);
            match node_at(spec_diff_three(base, mine, theirs), path) {
                Some(DiffView::Modified { base: b, mine: m, theirs: t, conflict }) => {
                    &&& b == or_null(xb)
                    &&& m == or_null(xm)
                    &&& t == Some(or_null(xt))
                    &&& conflict == (differs(xm, xb) && differs(xt, xb) && differs(xm, xt))
                },
                Some(DiffView::ArrayChange { base: b, mine: m, theirs: t }) => {
                    &&& b == or_null(xb)
                    &&& m == or_null(xm)
                    &&& t == Some(or_null(xt))
                },
                Some(DiffView::Unchanged(v)) => xb == Some(v),
                Some(DiffView::Removed(v)) => xb == Some(v),
                Some(DiffView::Added(v)) => xb is None && (xm == Some(v) || xt == Some(v)),
                _ => true,
            }
        }),
{
    lemma_three_way_at(base, mine, theirs, path);
}

/// How a 3-way diff classifies each place, by what the three documents hold
/// there: a node with children where all three hold objects; unchanged
/// where all three agree otherwise; an array change where an array
/// is involved and they do not all agree; otherwise a modification where
/// all three hold a value; a key that only one side added is added, and one
/// that both added alike; a key one side deleted is removed when the other
/// kept base's value, else a modification.
pub proof fn law_three_way_classification(
    base: JsonTree,
    mine: JsonTree,
    theirs: JsonTree,
    path: Seq<SegmentView>,
)
    ensures
        node_at(spec_diff_three(base, mine, theirs), path) matches Some(n) ==> match (
            json_at(base, path),
            json_at(mine, path),
            json_at(theirs, path),
        ) {
            (Some(x), Some(y), Some(z)) => {
                &&& (!(x is Object && y is Object && z is Object) && same_json(y, x) && same_json(z, x))
                    ==> n == DiffView::Unchanged(x)
                &&& ((x is Array || y is Array || z is Array) && !(same_json(y, x) && same_json(z, x)))
                    ==> n is ArrayChange
                &&& (x !is Array && y !is Array && z !is Array && !(x is Object && y is Object
                    && z is Object) && !(same_json(y, x) && same_json(z, x))) ==> n is Modified
                &&& (x is Object && y is Object && z is Object) ==> n is Object
            },
            (None, Some(y), Some(z)) => if same_json(y, z) {
                n == DiffView::Added(y)
            } else {
                n is Modified
            },
            (Some(x), None, Some(z)) => if same_json(z, x) {
                n == DiffView::Removed(x)
            } else {
                n is Modified
            },
            (Some(x), Some(y), None) => if same_json(y, x) {
                n == DiffView::Removed(x)
            } else {
                n is Modified
            },
            (Some(x), None, None) => n == DiffView::Removed(x),
            (None, Some(y), None) => n == DiffView::Added(y),
            (None, None, Some(z)) => n == DiffView::Added(z),
            (None, None, None) => false,
        },
{
    lemma_three_way_at(base, mine, theirs, path);
}

/// The 2-way node for the values (or their absence) that base and mine hold
/// at one place.
spec fn node_from2(xb: Option<JsonTree>, xm: Option<JsonTree>) -> DiffView {
    match (xb, xm) {
        (Some(b), Some(m)) => spec_diff_two(b, m),
        (Some(b), None) => DiffView::Removed(b),
        (None, Some(m)) => DiffView::Added(m),
        (None, None) => DiffView::Removed(JsonTree::Null),
    }
}

proof fn lemma_two_way_at(b: JsonTree, m: JsonTree, path: Seq<SegmentView>)
    ensures
        node_at(spec_diff_two(b, m), path) matches Some(n) ==> n == node_from2(
            json_at(b, path),
            json_at(m, path),
        ),
        node_at(spec_diff_two(b, m), path) is Some ==> (json_at(b, path) is Some || json_at(
            m,
            path,
        ) is Some),
    decreases path.len(),
{
    if path.len() > 0 {
        match (b, m) {
            (JsonTree::Object(bs), JsonTree::Object(ms)) => {
                match path[0] {
                    SegmentView::Key(k) => {
                        let rest = path.drop_first();
                        let a = two_way_base_entries(bs, ms);
                        let bb = two_way_added_entries(bs, ms);
                        lemma_inserted(a + bb);
                        lemma_entry_get_concat(a, bb, k);
                        lemma_two_way_added_get(bs, ms, k);
                        lemma_two_way_base_get(bs, ms, k);
                        lemma_last_index(bb, k);
                        lemma_last_index(bs, k);
                        lemma_last_index(ms, k);
                        let eb = entry_get(bs, k);
                        let em = entry_get(ms, k);
                        assert(entry_get(inserted(a + bb), k) == if eb is Some || em is Some {
                            Some(node_from2(eb, em))
                        } else {
                            None::<DiffView>
                        });
                        if eb is Some && em is Some {
                            lemma_two_way_at(eb.unwrap(), em.unwrap(), rest);
                        } else if eb is Some || em is Some {
                            let c = node_from2(eb, em);
                            if rest.len() == 0 {
                                assert(node_at(c, rest) == Some(c));
                                assert(json_at(b, path) == eb) by {
                                    if eb is Some {
                                        assert(json_at(eb.unwrap(), rest) == Some(eb.unwrap()));
                                    }
                                }
                                assert(json_at(m, path) == em) by {
                                    if em is Some {
                                        assert(json_at(em.unwrap(), rest) == Some(em.unwrap()));
                                    }
                                }
                            } else {
                                assert(node_at(c, rest) is None);
                            }
                        }
                    },
                    _ => {},
                }
            },
            _ => {},
        }
    }
}

/// Every node of a 2-way diff records what base and mine hold at its path,
/// and each place is classified as the 2-way table has it: a node with
/// children where both hold objects; unchanged where they are equal; an
/// array change where both hold arrays that differ, whatever their lengths;
/// any other difference a modification, never a conflict; a key only base
/// has removed, one only mine has added.
pub proof fn law_two_way_nodes_record_the_documents(base: JsonTree, mine: JsonTree, path: Seq<SegmentView>)
    ensures
        node_at(spec_diff_two(base, mine), path) matches Some(n) ==> {
            let xb = json_at(base, path);
            let xm = json_at(mine, path);
            &&& match n {
                DiffView::Modified { base: b, mine: m, theirs, conflict } => xb == Some(b) && xm == Some(
                    m,
                ) && theirs is None && !conflict,
                DiffView::ArrayChange { base: b, mine: m, theirs } => xb == Some(b) && xm == Some(m)
                    && theirs is None,
                DiffView::Unchanged(v) => xb == Some(v),
                DiffView::Removed(v) => xb == Some(v) && xm is None,
                DiffView::Added(v) => xb is None && xm == Some(v),
                DiffView::Object(_) => true,
            }
            &&& match (xb, xm) {
                (Some(x), Some(y)) => {
                    &&& (x is Object && y is Object) ==> n is Object
                    &&& (!(x is Object && y is Object) && same_json(x, y)) ==> n == DiffView::Unchanged(x)
                    &&& (x is Array && y is Array && !same_json(x, y)) ==> n is ArrayChange
                    &&& (!(x is Array && y is Array) && !(x is Object && y is Object) && !same_json(x, y))
                        ==> n is Modified
                },
                (Some(x), None) => n == DiffView::Removed(x),
                (None, Some(y)) => n == DiffView::Added(y),
                (None, None) => false,
            }
        },
{
    lemma_two_way_at(base, mine, path);
}

proof fn lemma_merge_entries_contains(
    es: Seq<(Seq<char>, DiffView)>,
    res: ResolutionMap,
    q: Seq<SegmentView>,
    i: int,
    x: Seq<SegmentView>,
)
    requires
        0 <= i < es.len(),
        merge_node(es[i].1, res, q.push(SegmentView::Key(es[i].0))).1.contains(x),
    ensures
        merge_entries(es, res, q).1.contains(x),
    decreases es.len(),
{
    let n = es.len() - 1;
    let pre = es.subrange(0, n);
    let prev = merge_entries(pre, res, q).1;
    let child = merge_node(es[n].1, res, q.push(SegmentView::Key(es[n].0))).1;
    assert(merge_entries(es, res, q).1 == prev + child);
    if i == n {
        let j = choose|j: int| 0 <= j < child.len() && child[j] == x;
        assert((prev + child)[prev.len() + j] == x);
    } else {
        assert(pre[i] == es[i]);
        lemma_merge_entries_contains(pre, res, q, i, x);
        let j = choose|j: int| 0 <= j < prev.len() && prev[j] == x;
        assert((prev + child)[j] == x);
    }
}

proof fn lemma_unresolved_at(d: DiffView, res: ResolutionMap, q: Seq<SegmentView>, r: Seq<SegmentView>, x: Seq<SegmentView>)
    requires
        node_at(d, r) is Some,
        merge_node(node_at(d, r).unwrap(), res, q + r).1.contains(x),
    ensures
        merge_node(d, res, q).1.contains(x),
    decreases r.len(),
{
    if r.len() == 0 {
        assert(q + r =~= q);
    } else {
        let es = d->Object_0;
        let k = r[0]->Key_0;
        let c = entry_get(es, k).unwrap();
        let r2 = r.drop_first();
        let q2 = q.push(SegmentView::Key(k));
        assert(q2 + r2 =~= q + r);
        lemma_unresolved_at(c, res, q2, r2, x);
        lemma_last_index(es, k);
        lemma_merge_entries_contains(es, res, q, last_index(es, k), x);
    }
}

/// At every place where a 3-way diff asks for a decision (an array change,
/// or a conflicting modification), the merged document holds what the
/// recorded resolution chose: mine's value there for Mine, theirs' for
/// Theirs, base's for Base (null where that document lacks one), the given
/// value for Custom. With no resolution, a place where mine and theirs
/// differ is listed as unresolved (null standing in for it), and one where
/// they agree takes their common value.
pub proof fn law_three_way_resolutions_choose_the_documents(
    base: JsonTree,
    mine: JsonTree,
    theirs: JsonTree,
    res: ResolutionMap,
    path: Seq<SegmentView>,
)
    ensures
        node_at(spec_diff_three(base, mine, theirs), path) matches Some(n) ==> (n is ArrayChange || n
            matches DiffView::Modified { conflict: true, .. }) ==> {
            let r = spec_apply(spec_diff_three(base, mine, theirs), res);
            let xb = json_at(base, path);
            let xm = json_at(mine, path);
            let xt = json_at(theirs, path);
            match lookup(res, path) {
                Some(ResolutionView::Mine) => json_at(r.0, path) == Some(or_null(xm)),
                Some(ResolutionView::Theirs) => json_at(r.0, path) == Some(or_null(xt)),
                Some(ResolutionView::Base) => json_at(r.0, path) == Some(or_null(xb)),
                Some(ResolutionView::Custom(v)) => json_at(r.0, path) == Some(v),
                None => if differs(xm, xt) {
                    json_at(r.0, path) == Some(JsonTree::Null) && r.1.contains(path)
                } else {
                    json_at(r.0, path) == Some(or_null(xm))
                },
            }
        },
{
    let d = spec_diff_three(base, mine, theirs);
    if let Some(n) = node_at(d, path) {
        if n is ArrayChange || n matches DiffView::Modified { conflict: true, .. } {
            law_three_way_nodes_record_the_documents(base, mine, theirs, path);
            law_merge_holds_each_node_at_its_path(d, res, path);
            lemma_three_way_at(base, mine, theirs, path);
            if lookup(res, path) is None && differs(json_at(mine, path), json_at(theirs, path)) {
                assert(merge_node(n, res, path).1 == seq![path]);
                assert(seq![path][0] == path);
                lemma_unresolved_at(d, res, Seq::empty(), path, path);
                assert(Seq::<SegmentView>::empty() + path =~= path);
            }
        }
    }
}

/// At every place where a 2-way diff holds an array change, the merged
/// document holds base's array for Base, the given value for Custom, and
/// mine's array otherwise; at every 2-way modification it holds mine's
/// value, whatever is recorded.
pub proof fn law_two_way_resolutions_choose_the_documents(
    base: JsonTree,
    mine: JsonTree,
    res: ResolutionMap,
    path: Seq<SegmentView>,
)
    ensures
        node_at(spec_diff_two(base, mine), path) matches Some(n) ==> {
            let merged = json_at(spec_apply(spec_diff_two(base, mine), res).0, path);
            &&& n is ArrayChange ==> merged == match lookup(res, path) {
                Some(ResolutionView::Base) => json_at(base, path),
                Some(ResolutionView::Custom(v)) => Some(v),
                _ => json_at(mine, path),
            }
            &&& n is Modified ==> merged == json_at(mine, path)
        },
{
    let d = spec_diff_two(base, mine);
    if let Some(n) = node_at(d, path) {
        if n is ArrayChange || n is Modified {
            law_two_way_nodes_record_the_documents(base, mine, path);
            law_merge_holds_each_node_at_its_path(d, res, path);
        }
    }
}

/// Where a 3-way diff needs no decision, the merged document holds, whatever
/// the resolutions: base's value where nothing changed; the added value
/// where a key was added; and, at a modification that is not a conflict,
/// the changed side's value (theirs where mine kept base's value, else
/// mine).
pub proof fn law_three_way_merges_the_changed_side(
    base: JsonTree,
    mine: JsonTree,
    theirs: JsonTree,
    res: ResolutionMap,
    path: Seq<SegmentView>,
)
    ensures
        node_at(spec_diff_three(base, mine, theirs), path) matches Some(n) ==> {
            let merged = json_at(spec_apply(spec_diff_three(base, mine, theirs), res).0, path);
            let xb = json_at(base, path);
            let xm = json_at(mine, path);
            let xt = json_at(theirs, path);
            &&& n is Unchanged ==> merged == xb
            &&& n is Added ==> merged == if xm is Some {
                xm
            } else {
                xt
            }
            &&& n matches DiffView::Modified { conflict: false, .. } ==> merged == Some(
                if differs(xm, xb) {
                    or_null(xm)
                } else {
                    or_null(xt)
                },
            )
        },
{
    let d = spec_diff_three(base, mine, theirs);
    if let Some(n) = node_at(d, path) {
        if !(n is Removed) && !(n is Object) {
            law_three_way_nodes_record_the_documents(base, mine, theirs, path);
            law_merge_holds_each_node_at_its_path(d, res, path);
            lemma_three_way_at(base, mine, theirs, path);
        }
    }
}

/// Where a 2-way diff holds an added value, the merged document holds mine's
/// value there; where it holds an unchanged value, base's value, which
/// equals mine's as JSON.
pub proof fn law_two_way_merge_keeps_unchanged_and_added(
    base: JsonTree,
    mine: JsonTree,
    res: ResolutionMap,
    path: Seq<SegmentView>,
)
    ensures
        node_at(spec_diff_two(base, mine), path) matches Some(n) ==> {
            let merged = json_at(spec_apply(spec_diff_two(base, mine), res).0, path);
            &&& n is Added ==> merged == json_at(mine, path)
            &&& n is Unchanged ==> merged == json_at(base, path) && json_at(mine, path) is Some
                && same_json(merged.unwrap(), json_at(mine, path).unwrap())
        },
{
    let d = spec_diff_two(base, mine);
    if let Some(n) = node_at(d, path) {
        if n is Unchanged || n is Added {
            law_two_way_nodes_record_the_documents(base, mine, path);
            law_merge_holds_each_node_at_its_path(d, res, path);
            lemma_two_way_at(base, mine, path);
        }
    }
}

} // verus!
