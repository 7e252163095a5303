//! Structural diffs of two or three JSON documents.
use vstd::prelude::*;
use crate::conflict::{both_same, is_conflict, spec_is_conflict};
use crate::json::{
    entry_get, entry_insert, has_key, inserted, is_array, keys_of, last_index, lemma_entries_tree,
    lemma_inserted_push, lemma_last_index, same_json, JsonMap, JsonTree, JsonValue,
};
use crate::types::{DiffMap, DiffNode, DiffResult, DiffView};

verus! {

// ---------------------------------------------------------------------------
// Two-way diff: what it computes
// ---------------------------------------------------------------------------

/// The diff of two values that are not both objects: two different arrays
/// are an array change, any other difference a modification.
pub open spec fn two_way_leaf(base: JsonTree, mine: JsonTree) -> DiffView {
    if same_json(base, mine) {
        DiffView::Unchanged(base)
    } else if is_array(base) && is_array(mine) {
        DiffView::ArrayChange { base, mine, theirs: None }
    } else {
        DiffView::Modified { base, mine, theirs: None, conflict: false }
    }
}

/// The 2-way diff of `base` against `mine`. Two objects give one child per
/// key: those of base in base's order, then those only mine has, in mine's
/// order; a key met again keeps its place and takes the later child.
pub open spec fn spec_diff_two(base: JsonTree, mine: JsonTree) -> DiffView
    decreases base,
{
    match base {
        JsonTree::Object(bs) => match mine {
            JsonTree::Object(ms) => DiffView::Object(
                inserted(two_way_base_entries(bs, ms) + two_way_added_entries(bs, ms)),
            ),
            _ => two_way_leaf(base, mine),
        },
        _ => two_way_leaf(base, mine),
    }
}

/// One child per member of base, in base's order: the diff against mine's
/// value under the same key, or `Removed` where mine lacks the key.
pub open spec fn two_way_base_entries(
    bs: Seq<(Seq<char>, JsonTree)>,
    ms: Seq<(Seq<char>, JsonTree)>,
) -> Seq<(Seq<char>, DiffView)>
    decreases bs,
{
    if bs.len() == 0 {
        Seq::empty()
    } else {
        let i = bs.len() - 1;
        two_way_base_entries(bs.subrange(0, i), ms).push(
            (
                bs[i].0,
                if has_key(ms, bs[i].0) {
                    spec_diff_two(bs[i].1, ms[last_index(ms, bs[i].0)].1)
                } else {
                    DiffView::Removed(bs[i].1)
                },
            ),
        )
    }
}

/// One `Added` child per member of mine whose key base lacks, in mine's order.
pub open spec fn two_way_added_entries(
    bs: Seq<(Seq<char>, JsonTree)>,
    ms: Seq<(Seq<char>, JsonTree)>,
) -> Seq<(Seq<char>, DiffView)>
    decreases ms.len(),
{
    if ms.len() == 0 {
        Seq::empty()
    } else {
        let j = ms.len() - 1;
        let prev = two_way_added_entries(bs, ms.subrange(0, j));
        if has_key(bs, ms[j].0) {
            prev
        } else {
            prev.push((ms[j].0, DiffView::Added(ms[j].1)))
        }
    }
}

// ---------------------------------------------------------------------------
// Three-way diff: what it computes
// ---------------------------------------------------------------------------

/// The sequence without repeats, each element where it first occurs.
pub open spec fn dedup<A>(s: Seq<A>) -> Seq<A>
    decreases s.len(),
{
    if s.len() == 0 {
        Seq::empty()
    } else {
        let d = dedup(s.subrange(0, s.len() - 1));
        if d.contains(s[s.len() - 1]) {
            d
        } else {
            d.push(s[s.len() - 1])
        }
    }
}

/// The keys of base, then those of mine, then those of theirs, each once.
pub open spec fn union_keys(
    bs: Seq<(Seq<char>, JsonTree)>,
    ms: Seq<(Seq<char>, JsonTree)>,
    ts: Seq<(Seq<char>, JsonTree)>,
) -> Seq<Seq<char>> {
    dedup(keys_of(bs) + keys_of(ms) + keys_of(ts))
}

/// The 3-way diff of values that are not all three objects.
pub open spec fn classify_three(base: JsonTree, mine: JsonTree, theirs: JsonTree) -> DiffView {
    if (is_array(base) || is_array(mine) || is_array(theirs)) && !(same_json(base, mine)
        && same_json(mine, theirs)) {
        DiffView::ArrayChange { base, mine, theirs: Some(theirs) }
    } else if same_json(mine, theirs) && same_json(mine, base) {
        DiffView::Unchanged(base)
    } else if same_json(mine, theirs) {
        DiffView::Modified { base, mine, theirs: Some(theirs), conflict: false }
    } else if spec_is_conflict(base, mine, theirs) {
        DiffView::Modified { base, mine, theirs: Some(theirs), conflict: true }
    } else {
        DiffView::Modified { base, mine, theirs: Some(theirs), conflict: false }
    }
}

/// The 3-way diff of `mine` and `theirs` against their common `base`.
pub open spec fn spec_diff_three(base: JsonTree, mine: JsonTree, theirs: JsonTree) -> DiffView
    decreases base, 0nat,
{
    match base {
        JsonTree::Object(bs) => match mine {
            JsonTree::Object(ms) => match theirs {
                JsonTree::Object(ts) => DiffView::Object(
                    three_way_entries(bs, ms, ts, union_keys(bs, ms, ts)),
                ),
                _ => classify_three(base, mine, theirs),
            },
            _ => classify_three(base, mine, theirs),
        },
        _ => classify_three(base, mine, theirs),
    }
}

/// One child per key, in the order of `keys`.
pub open spec fn three_way_entries(
    bs: Seq<(Seq<char>, JsonTree)>,
    ms: Seq<(Seq<char>, JsonTree)>,
    ts: Seq<(Seq<char>, JsonTree)>,
    keys: Seq<Seq<char>>,
) -> Seq<(Seq<char>, DiffView)>
    decreases bs, keys.len(),
{
    if keys.len() == 0 {
        Seq::empty()
    } else {
        let k = keys[keys.len() - 1];
        three_way_entries(bs, ms, ts, keys.subrange(0, keys.len() - 1)).push(
            (k, three_way_node(bs, ms, ts, k)),
        )
    }
}

/// The child for one key of a 3-way object diff, by where the key occurs.
pub open spec fn three_way_node(
    bs: Seq<(Seq<char>, JsonTree)>,
    ms: Seq<(Seq<char>, JsonTree)>,
    ts: Seq<(Seq<char>, JsonTree)>,
    k: Seq<char>,
) -> DiffView
    decreases bs, 0nat,
{
    let ib = last_index(bs, k);
    let mv = entry_get(ms, k);
    let tv = entry_get(ts, k);
    if 0 <= ib && ib < bs.len() {
        let bv = bs[ib].1;
        match (mv, tv) {
            (Some(m), Some(t)) => spec_diff_three(bs[ib].1, m, t),
            (None, Some(t)) => if same_json(t, bv) {
                DiffView::Removed(bv)
            } else {
                DiffView::Modified {
                    base: bv,
                    mine: JsonTree::Null,
                    theirs: Some(t),
                    conflict: true,
                }
            },
            (Some(m), None) => if same_json(m, bv) {
                DiffView::Removed(bv)
            } else {
                DiffView::Modified {
                    base: bv,
                    mine: m,
                    theirs: Some(JsonTree::Null),
                    conflict: true,
                }
            },
            (None, None) => DiffView::Removed(bv),
        }
    } else {
        match (mv, tv) {
            (Some(m), Some(t)) => if same_json(m, t) {
                DiffView::Added(m)
            } else {
                DiffView::Modified {
                    base: JsonTree::Null,
                    mine: m,
                    theirs: Some(t),
                    conflict: true,
                }
            },
            (Some(m), None) => DiffView::Added(m),
            (None, Some(t)) => DiffView::Added(t),
            (None, None) => DiffView::Removed(JsonTree::Null),
        }
    }
}

// ---------------------------------------------------------------------------
// Counting
// ---------------------------------------------------------------------------

/// The nodes that need the user's decision: conflicted modifications, and
/// array changes where mine and theirs differ.
pub open spec fn conflict_total(d: DiffView) -> nat
    decreases d,
{
    match d {
        DiffView::Modified { conflict, .. } => if conflict {
            1
        } else {
            0
        },
        DiffView::ArrayChange { mine, theirs, .. } => match theirs {
            Some(t) => if same_json(mine, t) {
                0
            } else {
                1
            },
            None => 0,
        },
        DiffView::Object(es) => conflict_total_entries(es),
        _ => 0,
    }
}

pub open spec fn conflict_total_entries(es: Seq<(Seq<char>, DiffView)>) -> nat
    decreases es,
{
    if es.len() == 0 {
        0
    } else {
        conflict_total_entries(es.subrange(0, es.len() - 1)) + conflict_total(es[es.len() - 1].1)
    }
}

/// The nodes of a 3-way diff that were merged automatically: unconflicted
/// modifications, and array changes where mine and theirs agree.
pub open spec fn auto_total(d: DiffView) -> nat
    decreases d,
{
    match d {
        DiffView::Modified { conflict, theirs, .. } => if !conflict && theirs is Some {
            1
        } else {
            0
        },
        DiffView::ArrayChange { mine, theirs, .. } => match theirs {
            Some(t) => if same_json(mine, t) {
                1
            } else {
                0
            },
            None => 0,
        },
        DiffView::Object(es) => auto_total_entries(es),
        _ => 0,
    }
}

pub open spec fn auto_total_entries(es: Seq<(Seq<char>, DiffView)>) -> nat
    decreases es,
{
    if es.len() == 0 {
        0
    } else {
        auto_total_entries(es.subrange(0, es.len() - 1)) + auto_total(es[es.len() - 1].1)
    }
}

/// A count as a `usize` holds it: the count itself, or `usize::MAX` beyond.
pub open spec fn capped(n: int) -> int {
    if n <= usize::MAX {
        n
    } else {
        usize::MAX as int
    }
}

// ---------------------------------------------------------------------------
// Two-way diff
// ---------------------------------------------------------------------------

/// Computes the 2-way diff of `base` against `mine`.
pub fn diff_two(base: &JsonValue, mine: &JsonValue) -> (r: DiffResult)
    ensures
        r.root@ == spec_diff_two(base@, mine@),
        r.conflict_count == 0,
        r.auto_merged_count == 0,
{
    let root = diff_two_values(base, mine);
    DiffResult { root, conflict_count: 0, auto_merged_count: 0 }
}

#[verifier::loop_isolation(false)]
fn diff_two_values(base: &JsonValue, mine: &JsonValue) -> (r: DiffNode)
    ensures
        r@ == spec_diff_two(base@, mine@),
    decreases base,
{
    match (base, mine) {
        (JsonValue::Object(b), JsonValue::Object(m)) => {
            let ghost bv = b@;
            let ghost mv = m@;
            proof {
                lemma_entries_tree(b.entries@);
                lemma_entries_tree(m.entries@);
            }
            let mut map = DiffMap::new();
            proof {
                assert(bv.subrange(0, 0) =~= Seq::<(Seq<char>, JsonTree)>::empty());
            }
            for i in 0..b.entries.len()
                invariant
                    map@ == inserted(two_way_base_entries(bv.subrange(0, i as int), mv)),
            {
                let k = &b.entries[i].0;
                let bval = &b.entries[i].1;
                let ghost pre = two_way_base_entries(bv.subrange(0, i as int), mv);
                proof {
                    assert(bv.subrange(0, i + 1).subrange(0, i as int) =~= bv.subrange(0, i as int));
                    assert(bv[i as int] == (k@, bval@));
                }
                let child = match m.get(k.as_str()) {
                    Some(mval) => diff_two_values(bval, mval),
                    None => DiffNode::Removed(bval.clone()),
                };
                proof {
                    lemma_inserted_push(pre, (k@, child@));
                }
                map.insert(k.clone(), child);
            }
            proof {
                assert(bv.subrange(0, bv.len() as int) =~= bv);
                assert(two_way_added_entries(bv, mv.subrange(0, 0)) =~= Seq::empty());
                assert(two_way_base_entries(bv, mv) + two_way_added_entries(bv, mv.subrange(0, 0))
                    =~= two_way_base_entries(bv, mv));
            }
            for j in 0..m.entries.len()
                invariant
                    map@ == inserted(
                        two_way_base_entries(bv, mv) + two_way_added_entries(
                            bv,
                            mv.subrange(0, j as int),
                        ),
                    ),
            {
                let k = &m.entries[j].0;
                proof {
                    assert(mv.subrange(0, j + 1).subrange(0, j as int) =~= mv.subrange(0, j as int));
                    assert(mv[j as int] == (k@, m.entries@[j as int].1@));
                }
                if !b.contains_key(k.as_str()) {
                    let node = DiffNode::Added(m.entries[j].1.clone());
                    proof {
                        let a = two_way_base_entries(bv, mv);
                        let x = two_way_added_entries(bv, mv.subrange(0, j as int));
                        let e = (k@, DiffView::Added(mv[j as int].1));
                        assert((a + x).push(e) =~= a + x.push(e));
                        lemma_inserted_push(a + x, e);
                    }
                    map.insert(k.clone(), node);
                }
            }
            proof {
                assert(mv.subrange(0, mv.len() as int) =~= mv);
            }
            DiffNode::Object(map)
        },
        _ => {
            if base == mine {
                DiffNode::Unchanged(base.clone())
            } else if base.is_array() && mine.is_array() {
                DiffNode::ArrayChange { base: base.clone(), mine: mine.clone(), theirs: None }
            } else {
                DiffNode::Modified {
                    base: base.clone(),
                    mine: mine.clone(),
                    theirs: None,
                    conflict: false,
                }
            }
        },
    }
}

// ---------------------------------------------------------------------------
// Three-way diff
// ---------------------------------------------------------------------------

pub open spec fn strings_view(ks: Seq<String>) -> Seq<Seq<char>> {
    ks.map_values(|s: String| s@)
}

/// Whether a key is already among the collected keys.
fn contains_key_string(keys: &Vec<String>, k: &String) -> (r: bool)
    ensures
        r == strings_view(keys@).contains(k@),
{
    for i in 0..keys.len()
        invariant
            forall|j: int| 0 <= j < i ==> (#[trigger] keys@[j])@ != k@,
    {
        if keys[i] == *k {
            proof {
                assert(strings_view(keys@)[i as int] == k@);
            }
            return true;
        }
    }
    proof {
        if strings_view(keys@).contains(k@) {
            let j = choose|j: int| 0 <= j < strings_view(keys@).len() && strings_view(keys@)[j] == k@;
            assert(keys@[j]@ == k@);
        }
    }
    false
}

/// Appends the keys of an object that are not yet collected, in order.
#[verifier::loop_isolation(false)]
fn collect_keys(keys: &mut Vec<String>, obj: &JsonMap, Ghost(prefix): Ghost<Seq<Seq<char>>>)
    requires
        strings_view(old(keys)@) == dedup(prefix),
    ensures
        strings_view(final(keys)@) == dedup(prefix + keys_of(obj@)),
{
    proof {
        lemma_entries_tree(obj.entries@);
        assert(prefix + keys_of(obj@).subrange(0, 0) =~= prefix);
    }
    for i in 0..obj.entries.len()
        invariant
            strings_view(keys@) == dedup(prefix + keys_of(obj@).subrange(0, i as int)),
    {
        let k = &obj.entries[i].0;
        let present = contains_key_string(keys, k);
        let ghost before = keys@;
        if !present {
            keys.push(k.clone());
        }
        proof {
            let s = prefix + keys_of(obj@).subrange(0, i + 1);
            assert(s.subrange(0, s.len() - 1) =~= prefix + keys_of(obj@).subrange(0, i as int));
            assert(s[s.len() - 1] == k@);
            assert(strings_view(keys@) =~= if present {
                strings_view(before)
            } else {
                strings_view(before).push(k@)
            });
        }
    }
    proof {
        assert(keys_of(obj@).subrange(0, obj.entries@.len() as int) =~= keys_of(obj@));
    }
}

/// Adds one to a count, holding at `usize::MAX`.
fn count_one(c: &mut usize)
    ensures
        *final(c) == capped(*old(c) + 1),
{
    if *c < usize::MAX {
        *c = *c + 1;
    }
}

/// Computes the 3-way diff of `mine` and `theirs` against their common `base`,
/// counting the nodes that conflict and those merged automatically.
pub fn diff_three(base: &JsonValue, mine: &JsonValue, theirs: &JsonValue) -> (r: DiffResult)
    ensures
        r.root@ == spec_diff_three(base@, mine@, theirs@),
        r.conflict_count == capped(conflict_total(r.root@) as int),
        r.auto_merged_count == capped(auto_total(r.root@) as int),
{
    let mut conflict_count: usize = 0;
    let mut auto_merged_count: usize = 0;
    let root = diff_three_values(base, mine, theirs, &mut conflict_count, &mut auto_merged_count);
    DiffResult { root, conflict_count, auto_merged_count }
}

#[verifier::loop_isolation(false)]
fn diff_three_values(
    base: &JsonValue,
    mine: &JsonValue,
    theirs: &JsonValue,
    conflicts: &mut usize,
    auto: &mut usize,
) -> (r: DiffNode)
    ensures
        r@ == spec_diff_three(base@, mine@, theirs@),
        *final(conflicts) == capped(*old(conflicts) + conflict_total(r@)),
        *final(auto) == capped(*old(auto) + auto_total(r@)),
    decreases base@,
{
    match (base, mine, theirs) {
        (JsonValue::Object(b), JsonValue::Object(m), JsonValue::Object(t)) => {
            let ghost bs = b@;
            let ghost ms = m@;
            let ghost ts = t@;
            let ghost c0 = *conflicts as int;
            let ghost a0 = *auto as int;
            let mut keys: Vec<String> = Vec::new();
            proof {
                assert(strings_view(keys@) =~= dedup(Seq::<Seq<char>>::empty()));
            }
            collect_keys(&mut keys, b, Ghost(Seq::empty()));
            proof {
                assert(Seq::<Seq<char>>::empty() + keys_of(bs) =~= keys_of(bs));
            }
            collect_keys(&mut keys, m, Ghost(keys_of(bs)));
            collect_keys(&mut keys, t, Ghost(keys_of(bs) + keys_of(ms)));
            let ghost all_keys = strings_view(keys@);
            proof {
                assert(all_keys == union_keys(bs, ms, ts));
            }
            proof {
                lemma_dedup_unique(keys_of(bs) + keys_of(ms) + keys_of(ts));
                assert(all_keys.subrange(0, 0) =~= Seq::<Seq<char>>::empty());
            }
            let mut map = DiffMap::new();
            for i in 0..keys.len()
                invariant
                    all_keys == strings_view(keys@),
                    all_keys.no_duplicates(),
                    map@ == three_way_entries(bs, ms, ts, all_keys.subrange(0, i as int)),
                    *conflicts == capped(c0 + conflict_total_entries(map@)),
                    *auto == capped(a0 + auto_total_entries(map@)),
            {
                let key = &keys[i];
                let ghost k = key@;
                proof {
                    assert(all_keys.subrange(0, i + 1).subrange(0, i as int) =~= all_keys.subrange(
                        0,
                        i as int,
                    ));
                    assert(all_keys.subrange(0, i + 1)[i as int] == k);
                    lemma_last_index(bs, k);
                    lemma_last_index(ms, k);
                    lemma_last_index(ts, k);
                    lemma_dedup_contains(keys_of(bs) + keys_of(ms) + keys_of(ts), k);
                    assert(all_keys[i as int] == k);
                    assert(keys_of(bs).contains(k) || keys_of(ms).contains(k) || keys_of(ts).contains(k))
                        by {
                        let s = keys_of(bs) + keys_of(ms) + keys_of(ts);
                        let j = choose|j: int| 0 <= j < s.len() && s[j] == k;
                        if j < keys_of(bs).len() {
                            assert(keys_of(bs)[j] == k);
                        } else if j < keys_of(bs).len() + keys_of(ms).len() {
                            assert(keys_of(ms)[j - keys_of(bs).len()] == k);
                        } else {
                            assert(keys_of(ts)[j - keys_of(bs).len() - keys_of(ms).len()] == k);
                        }
                    }
                }
                let in_base = b.get(key.as_str());
                let in_mine = m.get(key.as_str());
                let in_theirs = t.get(key.as_str());
                let ghost cb = *conflicts as int;
                let ghost ab = *auto as int;
                let node = match (in_base, in_mine, in_theirs) {
                    (Some(bv), None, None) => DiffNode::Removed(bv.clone()),
                    (None, Some(mv), None) => DiffNode::Added(mv.clone()),
                    (None, None, Some(tv)) => DiffNode::Added(tv.clone()),
                    (None, Some(mv), Some(tv)) => {
                        if both_same(mv, tv) {
                            DiffNode::Added(mv.clone())
                        } else {
                            count_one(conflicts);
                            DiffNode::Modified {
                                base: JsonValue::Null,
                                mine: mv.clone(),
                                theirs: Some(tv.clone()),
                                conflict: true,
                            }
                        }
                    },
                    (Some(bv), Some(mv), Some(tv)) => {
                        proof {
                            assert(decreases_to!(base@ => bs[last_index(bs, k)].1));
                        }
                        diff_three_values(bv, mv, tv, conflicts, auto)
                    },
                    (Some(bv), None, Some(tv)) => {
                        // mine deleted; check if theirs is unchanged from base
                        if tv == bv {
                            DiffNode::Removed(bv.clone())
                        } else {
                            count_one(conflicts);
                            DiffNode::Modified {
                                base: bv.clone(),
                                mine: JsonValue::Null,
                                theirs: Some(tv.clone()),
                                conflict: true,
                            }
                        }
                    },
                    (Some(bv), Some(mv), None) => {
                        // theirs deleted; check if mine is unchanged from base
                        if mv == bv {
                            DiffNode::Removed(bv.clone())
                        } else {
                            count_one(conflicts);
                            DiffNode::Modified {
                                base: bv.clone(),
                                mine: mv.clone(),
                                theirs: Some(JsonValue::Null),
                                conflict: true,
                            }
                        }
                    },
                    (None, None, None) => {
                        proof {
                            assert(false);
                        }
                        DiffNode::Removed(JsonValue::Null)
                    },
                };
                proof {
                    assert(node@ == three_way_node(bs, ms, ts, k));
                    assert(*conflicts == capped(cb + conflict_total(node@)));
                    assert(*auto == capped(ab + auto_total(node@)));
                    let es = map@;
                    let before = all_keys.subrange(0, i as int);
                    lemma_three_way_keys(bs, ms, ts, before);
                    lemma_last_index(es, k);
                    assert(!before.contains(k)) by {
                        if before.contains(k) {
                            let j = choose|j: int| 0 <= j < before.len() && before[j] == k;
                            assert(all_keys[j] == all_keys[i as int]);
                        }
                    }
                    assert(entry_insert(es, k, node@) == es.push((k, node@)));
                    assert(es.push((k, node@)).subrange(0, es.len() as int) =~= es);
                    assert(conflict_total_entries(es.push((k, node@))) == conflict_total_entries(es)
                        + conflict_total(node@));
                    assert(auto_total_entries(es.push((k, node@))) == auto_total_entries(es)
                        + auto_total(node@));
                }
                map.insert(key.clone(), node);
            }
            proof {
                assert(all_keys.subrange(0, keys@.len() as int) =~= all_keys);
            }
            DiffNode::Object(map)
        },
        _ => classify_scalar(base, mine, theirs, conflicts, auto),
    }
}

fn classify_scalar(
    base: &JsonValue,
    mine: &JsonValue,
    theirs: &JsonValue,
    conflicts: &mut usize,
    auto: &mut usize,
) -> (r: DiffNode)
    ensures
        r@ == classify_three(base@, mine@, theirs@),
        *final(conflicts) == capped(*old(conflicts) + conflict_total(r@)),
        *final(auto) == capped(*old(auto) + auto_total(r@)),
{
    // Array: treat as opaque — if any version differs, flag as ArrayChange
    if (base.is_array() || mine.is_array() || theirs.is_array()) && !(base == mine && mine
        == theirs) {
        if mine != theirs {
            count_one(conflicts);
        } else {
            count_one(auto);
        }
        return DiffNode::ArrayChange {
            base: base.clone(),
            mine: mine.clone(),
            theirs: Some(theirs.clone()),
        };
    }
    if mine == theirs && mine == base {
        return DiffNode::Unchanged(base.clone());
    }
    if both_same(mine, theirs) {
        count_one(auto);
        return DiffNode::Modified {
            base: base.clone(),
            mine: mine.clone(),
            theirs: Some(theirs.clone()),
            conflict: false,
        };
    }
    if is_conflict(base, mine, theirs) {
        count_one(conflicts);
        return DiffNode::Modified {
            base: base.clone(),
            mine: mine.clone(),
            theirs: Some(theirs.clone()),
            conflict: true,
        };
    }
    // one side changed, other unchanged
    count_one(auto);
    DiffNode::Modified {
        base: base.clone(),
        mine: mine.clone(),
        theirs: Some(theirs.clone()),
        conflict: false,
    }
}

pub proof fn lemma_dedup_contains<A>(s: Seq<A>, x: A)
    ensures
        dedup(s).contains(x) == s.contains(x),
    decreases s.len(),
{
    if s.len() > 0 {
        let pre = s.subrange(0, s.len() - 1);
        let last = s[s.len() - 1];
        lemma_dedup_contains(pre, x);
        assert(s =~= pre.push(last));
        assert(pre.push(last).contains(x) == (pre.contains(x) || last == x)) by {
            if pre.contains(x) {
                let j = choose|j: int| 0 <= j < pre.len() && pre[j] == x;
                assert(pre.push(last)[j] == x);
            }
            if last == x {
                assert(pre.push(last)[pre.len() as int] == x);
            }
            if pre.push(last).contains(x) {
                let j = choose|j: int| 0 <= j < pre.push(last).len() && pre.push(last)[j] == x;
                if j < pre.len() {
                    assert(pre[j] == x);
                }
            }
        }
        let d = dedup(pre);
        if !d.contains(last) {
            assert(d.push(last).contains(x) == (d.contains(x) || last == x)) by {
                if d.contains(x) {
                    let j = choose|j: int| 0 <= j < d.len() && d[j] == x;
                    assert(d.push(last)[j] == x);
                }
                if last == x {
                    assert(d.push(last)[d.len() as int] == x);
                }
                if d.push(last).contains(x) {
                    let j = choose|j: int| 0 <= j < d.push(last).len() && d.push(last)[j] == x;
                    if j < d.len() {
                        assert(d[j] == x);
                    }
                }
            }
        } else {
            lemma_dedup_contains(pre, last);
        }
    }
}

/// The keys of a 3-way object diff are the keys it was built from, in order.
pub proof fn lemma_three_way_keys(
    bs: Seq<(Seq<char>, JsonTree)>,
    ms: Seq<(Seq<char>, JsonTree)>,
    ts: Seq<(Seq<char>, JsonTree)>,
    keys: Seq<Seq<char>>,
)
    ensures
        keys_of(three_way_entries(bs, ms, ts, keys)) == keys,
    decreases keys.len(),
{
    if keys.len() > 0 {
        let pre = keys.subrange(0, keys.len() - 1);
        lemma_three_way_keys(bs, ms, ts, pre);
        assert(keys_of(three_way_entries(bs, ms, ts, keys)) =~= keys_of(
            three_way_entries(bs, ms, ts, pre),
        ).push(keys[keys.len() - 1]));
        assert(pre.push(keys[keys.len() - 1]) =~= keys);
    }
}

/// `dedup` leaves no element twice.
pub proof fn lemma_dedup_unique<A>(s: Seq<A>)
    ensures
        dedup(s).no_duplicates(),
    decreases s.len(),
{
    if s.len() > 0 {
        let pre = s.subrange(0, s.len() - 1);
        lemma_dedup_unique(pre);
        let d = dedup(pre);
        let x = s[s.len() - 1];
        if !d.contains(x) {
            assert forall|i: int, j: int|
                0 <= i < d.push(x).len() && 0 <= j < d.push(x).len() && i != j implies d.push(x)[i]
                != d.push(x)[j] by {
                if i < d.len() && j < d.len() {
                } else if i == d.len() {
                    assert(d[j] == d.push(x)[j]);
                } else {
                    assert(d[i] == d.push(x)[i]);
                }
            }
        }
    }
}

} // verus!
