//! The diff tree, resolutions and merge results, with their views.
use vstd::prelude::*;
use crate::json::{
    clone_value, entry_get, entry_insert, has_key, keys_distinct, last_index,
    lemma_entry_insert_distinct, lemma_last_index, lemma_pairs_map, lemma_pairs_map_insert,
    pairs_map, JsonTree, JsonValue,
};

verus! {

/// Whether two documents are compared or three are merged.
#[derive(Debug, Clone, Copy, PartialEq, Eq, Structural)]
pub enum Mode {
    TwoWay,
    ThreeWay,
}

/// One step of a path into a document: an object key or an array index.
#[derive(Debug, PartialEq, Eq, Hash)]
pub enum PathSegment {
    Key(String),
    Index(usize),
}

/// A path from the root of a document to one of its nodes.
pub type JsonPath = Vec<PathSegment>;

/// The view of a path segment.
pub enum SegmentView {
    Key(Seq<char>),
    Index(usize),
}

impl View for PathSegment {
    type V = SegmentView;

    open spec fn view(&self) -> SegmentView {
        match self {
            PathSegment::Key(k) => SegmentView::Key(k@),
            PathSegment::Index(i) => SegmentView::Index(*i),
        }
    }
}

/// The view of a path.
pub open spec fn path_view(p: Seq<PathSegment>) -> Seq<SegmentView> {
    p.map_values(|s: PathSegment| s@)
}

/// The view of a list of paths.
pub open spec fn paths_view(ps: Seq<JsonPath>) -> Seq<Seq<SegmentView>> {
    ps.map_values(|p: JsonPath| path_view(p@))
}

/// How the user settled a conflicted node.
#[derive(Debug)]
pub enum Resolution {
    Mine,
    Theirs,
    Base,
    /// A value typed by the user, not limited to any of the three documents.
    Custom(JsonValue),
}

/// The view of a resolution.
pub enum ResolutionView {
    Mine,
    Theirs,
    Base,
    Custom(JsonTree),
}

impl View for Resolution {
    type V = ResolutionView;

    open spec fn view(&self) -> ResolutionView {
        match self {
            Resolution::Mine => ResolutionView::Mine,
            Resolution::Theirs => ResolutionView::Theirs,
            Resolution::Base => ResolutionView::Base,
            Resolution::Custom(v) => ResolutionView::Custom(v@),
        }
    }
}

/// The resolutions recorded so far, one per path.
#[derive(Debug)]
pub struct Resolutions {
    entries: Vec<(JsonPath, Resolution)>,
}

/// The path/resolution pairs of a list of entries, as views.
pub open spec fn resolution_pairs(es: Seq<(JsonPath, Resolution)>) -> Seq<(Seq<SegmentView>, ResolutionView)> {
    es.map_values(|e: (JsonPath, Resolution)| (path_view(e.0@), e.1@))
}

impl Resolutions {
    /// No path has two entries.
    #[verifier::type_invariant]
    spec fn paths_unique(self) -> bool {
        keys_distinct(resolution_pairs(self.entries@))
    }
}

impl View for Resolutions {
    type V = Map<Seq<SegmentView>, ResolutionView>;

    closed spec fn view(&self) -> Map<Seq<SegmentView>, ResolutionView> {
        pairs_map(resolution_pairs(self.entries@))
    }
}

/// One node of a diff tree, mirroring the shape of the documents.
#[derive(Debug)]
pub enum DiffNode {
    Unchanged(JsonValue),
    Added(JsonValue),
    Removed(JsonValue),
    Modified { base: JsonValue, mine: JsonValue, theirs: Option<JsonValue>, conflict: bool },
    Object(DiffMap),
    ArrayChange { base: JsonValue, mine: JsonValue, theirs: Option<JsonValue> },
}

/// The children of an object node, one per key, in the order the keys were
/// first inserted. The nodes are held in an `indexmap::IndexMap`.
#[verifier::external_body]
#[derive(Debug)]
pub struct DiffMap {
    inner: indexmap::IndexMap<String, DiffNode>,
}

/// The outcome of a diff.
#[derive(Debug)]
pub struct DiffResult {
    pub root: DiffNode,
    pub conflict_count: usize,
    pub auto_merged_count: usize,
}

/// The outcome of applying resolutions to a diff.
#[derive(Debug)]
pub struct MergeResult {
    pub merged: JsonValue,
    pub unresolved: Vec<JsonPath>,
}

/// The view of a diff node.
pub enum DiffView {
    Unchanged(JsonTree),
    Added(JsonTree),
    Removed(JsonTree),
    Modified { base: JsonTree, mine: JsonTree, theirs: Option<JsonTree>, conflict: bool },
    Object(Seq<(Seq<char>, DiffView)>),
    ArrayChange { base: JsonTree, mine: JsonTree, theirs: Option<JsonTree> },
}

pub open spec fn opt_tree(o: Option<JsonValue>) -> Option<JsonTree> {
    match o {
        Some(v) => Some(v@),
        None => None,
    }
}

/// The keys of a diff map with the views of their nodes, in the map's order.
pub uninterp spec fn diff_map_entries(m: DiffMap) -> Seq<(Seq<char>, DiffView)>;

pub open spec fn node_view(d: DiffNode) -> DiffView {
    match d {
        DiffNode::Unchanged(v) => DiffView::Unchanged(v@),
        DiffNode::Added(v) => DiffView::Added(v@),
        DiffNode::Removed(v) => DiffView::Removed(v@),
        DiffNode::Modified { base, mine, theirs, conflict } => DiffView::Modified {
            base: base@,
            mine: mine@,
            theirs: opt_tree(theirs),
            conflict,
        },
        DiffNode::Object(m) => DiffView::Object(diff_map_entries(m)),
        DiffNode::ArrayChange { base, mine, theirs } => DiffView::ArrayChange {
            base: base@,
            mine: mine@,
            theirs: opt_tree(theirs),
        },
    }
}

impl View for DiffNode {
    type V = DiffView;

    open spec fn view(&self) -> DiffView {
        node_view(*self)
    }
}

impl View for DiffMap {
    type V = Seq<(Seq<char>, DiffView)>;

    open spec fn view(&self) -> Seq<(Seq<char>, DiffView)> {
        diff_map_entries(*self)
    }
}

// ---------------------------------------------------------------------------
// Paths
// ---------------------------------------------------------------------------

impl Clone for PathSegment {
    fn clone(&self) -> (r: Self)
        ensures
            r@ == self@,
    {
        match self {
            PathSegment::Key(k) => PathSegment::Key(k.clone()),
            PathSegment::Index(i) => PathSegment::Index(*i),
        }
    }
}

/// Whether two path segments are the same step.
pub fn same_segment(a: &PathSegment, b: &PathSegment) -> (r: bool)
    ensures
        r == (a@ == b@),
{
    match (a, b) {
        (PathSegment::Key(x), PathSegment::Key(y)) => *x == *y,
        (PathSegment::Index(x), PathSegment::Index(y)) => *x == *y,
        _ => false,
    }
}

/// Whether two paths lead to the same node.
pub fn same_path(a: &JsonPath, b: &JsonPath) -> (r: bool)
    ensures
        r == (path_view(a@) == path_view(b@)),
{
    if a.len() != b.len() {
        proof {
            assert(path_view(a@).len() != path_view(b@).len());
        }
        return false;
    }
    for i in 0..a.len()
        invariant
            a@.len() == b@.len(),
            forall|j: int| 0 <= j < i ==> (#[trigger] a@[j])@ == b@[j]@,
    {
        if !same_segment(&a[i], &b[i]) {
            proof {
                assert(path_view(a@)[i as int] != path_view(b@)[i as int]);
            }
            return false;
        }
    }
    proof {
        assert(path_view(a@) =~= path_view(b@));
    }
    true
}

/// A copy of a path.
pub fn clone_path(p: &JsonPath) -> (r: JsonPath)
    ensures
        path_view(r@) == path_view(p@),
{
    let mut out: JsonPath = Vec::new();
    for i in 0..p.len()
        invariant
            out@.len() == i,
            forall|j: int| 0 <= j < i ==> (#[trigger] out@[j])@ == p@[j]@,
    {
        out.push(p[i].clone());
    }
    proof {
        assert(path_view(out@) =~= path_view(p@));
    }
    out
}

// ---------------------------------------------------------------------------
// Resolutions
// ---------------------------------------------------------------------------

impl Clone for Resolution {
    fn clone(&self) -> (r: Self)
        ensures
            r@ == self@,
    {
        match self {
            Resolution::Mine => Resolution::Mine,
            Resolution::Theirs => Resolution::Theirs,
            Resolution::Base => Resolution::Base,
            Resolution::Custom(v) => Resolution::Custom(clone_value(v)),
        }
    }
}

impl Resolutions {
    /// No resolutions.
    pub fn new() -> (r: Resolutions)
        ensures
            r@ == Map::<Seq<SegmentView>, ResolutionView>::empty(),
    {
        let r = Resolutions { entries: Vec::new() };
        proof {
            assert(resolution_pairs(r.entries@) =~= Seq::empty());
        }
        r
    }

    /// The index of the entry for a path.
    fn find(&self, path: &JsonPath) -> (r: Option<usize>)
        ensures
            match r {
                Some(i) => i == last_index(resolution_pairs(self.entries@), path_view(path@)),
                None => !has_key(resolution_pairs(self.entries@), path_view(path@)),
            },
    {
        let ghost pairs = resolution_pairs(self.entries@);
        let ghost k = path_view(path@);
        proof {
            lemma_last_index(pairs, k);
        }
        let mut i = self.entries.len();
        while i > 0
            invariant
                i <= self.entries@.len(),
                pairs == resolution_pairs(self.entries@),
                k == path_view(path@),
                -1 <= last_index(pairs, k) < pairs.len(),
                last_index(pairs, k) >= 0 ==> pairs[last_index(pairs, k)].0 == k,
                forall|j: int| last_index(pairs, k) < j < pairs.len() ==> #[trigger] pairs[j].0 != k,
                forall|j: int| i <= j < pairs.len() ==> #[trigger] pairs[j].0 != k,
            decreases i,
        {
            i = i - 1;
            if same_path(&self.entries[i].0, path) {
                proof {
                    assert(pairs[i as int].0 == k);
                    let l = last_index(pairs, k);
                    if l > i {
                        assert(pairs[l].0 == k);
                    }
                }
                return Some(i);
            }
        }
        proof {
            if has_key(pairs, k) {
                assert(pairs[last_index(pairs, k)].0 == k);
            }
        }
        None
    }

    /// The resolution recorded for a path.
    pub fn get(&self, path: &JsonPath) -> (r: Option<&Resolution>)
        ensures
            match r {
                Some(res) => self@.contains_key(path_view(path@)) && self@[path_view(path@)] == res@,
                None => !self@.contains_key(path_view(path@)),
            },
    {
        let found = self.find(path);
        proof {
            lemma_pairs_map(resolution_pairs(self.entries@), path_view(path@));
            lemma_last_index(resolution_pairs(self.entries@), path_view(path@));
        }
        match found {
            Some(i) => Some(&self.entries[i].1),
            None => None,
        }
    }

    /// Records the resolution for a path, replacing any earlier one.
    pub fn insert(&mut self, path: JsonPath, resolution: Resolution)
        ensures
            final(self)@ == old(self)@.insert(path_view(path@), resolution@),
    {
        proof {
            use_type_invariant(&*self);
        }
        let ghost k = path_view(path@);
        let ghost v = resolution@;
        let ghost before = resolution_pairs(self.entries@);
        let found = self.find(&path);
        proof {
            lemma_last_index(before, k);
            lemma_pairs_map_insert(before, k, v);
        }
        let mut entries: Vec<(JsonPath, Resolution)> = Vec::new();
        std::mem::swap(&mut entries, &mut self.entries);
        match found {
            Some(i) => {
                entries.set(i, (path, resolution));
            },
            None => {
                entries.push((path, resolution));
            },
        }
        proof {
            assert(resolution_pairs(entries@) =~= entry_insert(before, k, v));
            lemma_entry_insert_distinct(before, k, v);
        }
        self.entries = entries;
    }
}

impl Clone for Resolutions {
    fn clone(&self) -> (r: Self)
        ensures
            r@ == self@,
    {
        let mut out: Vec<(JsonPath, Resolution)> = Vec::new();
        for i in 0..self.entries.len()
            invariant
                out@.len() == i,
                forall|j: int|
                    0 <= j < i ==> path_view((#[trigger] out@[j]).0@) == path_view(self.entries@[j].0@)
                        && out@[j].1@ == self.entries@[j].1@,
        {
            let p = clone_path(&self.entries[i].0);
            let r = self.entries[i].1.clone();
            out.push((p, r));
        }
        proof {
            use_type_invariant(self);
            assert(resolution_pairs(out@) =~= resolution_pairs(self.entries@));
        }
        Resolutions { entries: out }
    }
}

// ---------------------------------------------------------------------------
// Diff trees
// ---------------------------------------------------------------------------

/// `IndexMap::new`: a map with no entries.
#[verifier::external_body]
fn index_map_new() -> (m: DiffMap)
    ensures
        diff_map_entries(m) == Seq::<(Seq<char>, DiffView)>::empty(),
{
    DiffMap { inner: indexmap::IndexMap::new() }
}

/// `IndexMap::insert`: a key already present keeps its place in the order and
/// takes the new node; a new key is appended last. Keys of an `IndexMap` are
/// unique, so the entry that changes is the only one with that key.
#[verifier::external_body]
fn index_map_insert(m: &mut DiffMap, key: String, node: DiffNode)
    ensures
        diff_map_entries(*final(m)) == entry_insert(diff_map_entries(*old(m)), key@, node@),
{
    m.inner.insert(key, node);
}

/// `IndexMap::len`: the number of entries.
#[verifier::external_body]
fn index_map_len(m: &DiffMap) -> (n: usize)
    ensures
        n == diff_map_entries(*m).len(),
{
    m.inner.len()
}

/// `IndexMap::get_index`: the entry at a position in the order, if the
/// position is below the length.
#[verifier::external_body]
fn index_map_get_index(m: &DiffMap, i: usize) -> (r: Option<(&String, &DiffNode)>)
    ensures
        match r {
            Some((k, d)) => i < diff_map_entries(*m).len() && diff_map_entries(*m)[i as int] == (
                k@,
                d@,
            ),
            None => i >= diff_map_entries(*m).len(),
        },
{
    m.inner.get_index(i)
}

/// `IndexMap::get`: the node stored under a key. Keys being unique, it is the
/// node of the one entry with that key.
#[verifier::external_body]
fn index_map_get<'a>(m: &'a DiffMap, key: &str) -> (r: Option<&'a DiffNode>)
    ensures
        match r {
            Some(d) => entry_get(diff_map_entries(*m), key@) == Some(d@),
            None => entry_get(diff_map_entries(*m), key@) is None,
        },
{
    m.inner.get(key)
}

/// `IndexMap::clone`: each key and node cloned, in the same order. A node is
/// cloned by `DiffNode::clone`, which keeps its view.
#[verifier::external_body]
fn index_map_clone(m: &DiffMap) -> (r: DiffMap)
    ensures
        diff_map_entries(r) == diff_map_entries(*m),
{
    DiffMap { inner: m.inner.clone() }
}

impl DiffMap {
    /// An empty map.
    pub fn new() -> (m: DiffMap)
        ensures
            m@ == Seq::<(Seq<char>, DiffView)>::empty(),
            keys_distinct(m@),
    {
        index_map_new()
    }

    /// Sets the node under a key: in its place if the key is present, else
    /// last.
    pub fn insert(&mut self, key: String, node: DiffNode)
        ensures
            final(self)@ == entry_insert(old(self)@, key@, node@),
            keys_distinct(old(self)@) ==> keys_distinct(final(self)@),
    {
        proof {
            if keys_distinct(self@) {
                lemma_entry_insert_distinct(self@, key@, node@);
            }
        }
        index_map_insert(self, key, node)
    }

    /// The number of children.
    pub fn len(&self) -> (n: usize)
        ensures
            n == self@.len(),
    {
        index_map_len(self)
    }

    /// The key and node at a position in the order.
    pub fn get_index(&self, i: usize) -> (r: Option<(&String, &DiffNode)>)
        ensures
            match r {
                Some((k, d)) => i < self@.len() && self@[i as int] == (k@, d@),
                None => i >= self@.len(),
            },
    {
        index_map_get_index(self, i)
    }

    /// The child under a key.
    pub fn get(&self, key: &str) -> (r: Option<&DiffNode>)
        ensures
            match r {
                Some(d) => entry_get(self@, key@) == Some(d@),
                None => entry_get(self@, key@) is None,
            },
    {
        index_map_get(self, key)
    }
}

impl Clone for DiffMap {
    fn clone(&self) -> (r: Self)
        ensures
            r@ == self@,
    {
        index_map_clone(self)
    }
}

fn clone_opt(o: &Option<JsonValue>) -> (r: Option<JsonValue>)
    ensures
        opt_tree(r) == opt_tree(*o),
{
    match o {
        Some(v) => Some(clone_value(v)),
        None => None,
    }
}

/// A copy of a diff node, children in the same order.
pub fn clone_node(d: &DiffNode) -> (r: DiffNode)
    ensures
        r@ == d@,
{
    match d {
        DiffNode::Unchanged(v) => DiffNode::Unchanged(clone_value(v)),
        DiffNode::Added(v) => DiffNode::Added(clone_value(v)),
        DiffNode::Removed(v) => DiffNode::Removed(clone_value(v)),
        DiffNode::Modified { base, mine, theirs, conflict } => DiffNode::Modified {
            base: clone_value(base),
            mine: clone_value(mine),
            theirs: clone_opt(theirs),
            conflict: *conflict,
        },
        DiffNode::Object(m) => DiffNode::Object(m.clone()),
        DiffNode::ArrayChange { base, mine, theirs } => DiffNode::ArrayChange {
            base: clone_value(base),
            mine: clone_value(mine),
            theirs: clone_opt(theirs),
        },
    }
}

impl Clone for DiffNode {
    fn clone(&self) -> (r: Self)
        ensures
            r@ == self@,
    {
        clone_node(self)
    }
}

impl Clone for DiffResult {
    fn clone(&self) -> (r: Self)
        ensures
            r.root@ == self.root@,
            r.conflict_count == self.conflict_count,
            r.auto_merged_count == self.auto_merged_count,
    {
        DiffResult {
            root: clone_node(&self.root),
            conflict_count: self.conflict_count,
            auto_merged_count: self.auto_merged_count,
        }
    }
}

} // verus!
