//! A JSON document model: the executable value type that the diff and merge
//! logic works on, its ordered mathematical view, and its canonical meaning.
use vstd::prelude::*;

verus! {

/// Clears the sign bit of an IEEE-754 double; a bit pattern whose magnitude
/// bits are all zero is +0.0 or -0.0.
pub const MAGNITUDE_MASK: u64 = 0x7fff_ffff_ffff_ffff;

/// A JSON number, held the way JSON documents hold numbers: a non-negative
/// integer, a negative integer, or a finite double given by its bit pattern.
#[derive(Debug, Clone, Copy)]
pub enum JsonNumber {
    PosInt(u64),
    /// Always less than zero in documents read from JSON text.
    NegInt(i64),
    /// The IEEE-754 bit pattern of a finite double.
    Float(u64),
}

/// A JSON value. Objects keep their members in order.
#[derive(Debug)]
pub enum JsonValue {
    Null,
    Bool(bool),
    Number(JsonNumber),
    String(String),
    Array(Vec<JsonValue>),
    Object(JsonMap),
}

/// The members of a JSON object, in order. The objects of JSON documents
/// have distinct keys (`keys_distinct`), which `new` and `insert` keep; a key
/// that occurs twice all the same stands for its last occurrence.
#[derive(Debug)]
pub struct JsonMap {
    pub entries: Vec<(String, JsonValue)>,
}

/// The ordered mathematical view of a `JsonValue`.
pub enum JsonTree {
    Null,
    Bool(bool),
    Number(JsonNumber),
    Str(Seq<char>),
    Array(Seq<JsonTree>),
    Object(Seq<(Seq<char>, JsonTree)>),
}

/// What a JSON value means: objects are maps from keys to values, and the
/// two zeros of a double are one number.
pub enum Json {
    Null,
    Bool(bool),
    Number(JsonNumber),
    Str(Seq<char>),
    Array(Seq<Json>),
    Object(Map<Seq<char>, Json>),
}

impl JsonNumber {
    /// The number with -0.0 written as +0.0.
    pub open spec fn canonical(self) -> JsonNumber {
        match self {
            JsonNumber::Float(bits) => if bits & MAGNITUDE_MASK == 0 {
                JsonNumber::Float(0)
            } else {
                self
            },
            _ => self,
        }
    }
}

// ---------------------------------------------------------------------------
// Views
// ---------------------------------------------------------------------------

pub open spec fn value_tree(v: JsonValue) -> JsonTree
    decreases v,
{
    match v {
        JsonValue::Null => JsonTree::Null,
        JsonValue::Bool(b) => JsonTree::Bool(b),
        JsonValue::Number(n) => JsonTree::Number(n),
        JsonValue::String(s) => JsonTree::Str(s@),
        JsonValue::Array(vs) => JsonTree::Array(values_tree(vs@)),
        JsonValue::Object(m) => JsonTree::Object(entries_tree(m.entries@)),
    }
}

pub open spec fn values_tree(vs: Seq<JsonValue>) -> Seq<JsonTree>
    decreases vs,
{
    if vs.len() == 0 {
        Seq::empty()
    } else {
        values_tree(vs.subrange(0, vs.len() - 1)).push(value_tree(vs[vs.len() - 1]))
    }
}

pub open spec fn entries_tree(es: Seq<(String, JsonValue)>) -> Seq<(Seq<char>, JsonTree)>
    decreases es,
{
    if es.len() == 0 {
        Seq::empty()
    } else {
        entries_tree(es.subrange(0, es.len() - 1)).push(
            (es[es.len() - 1].0@, value_tree(es[es.len() - 1].1)),
        )
    }
}

impl View for JsonValue {
    type V = JsonTree;

    open spec fn view(&self) -> JsonTree {
        value_tree(*self)
    }
}

impl View for JsonMap {
    type V = Seq<(Seq<char>, JsonTree)>;

    open spec fn view(&self) -> Seq<(Seq<char>, JsonTree)> {
        entries_tree(self.entries@)
    }
}

pub proof fn lemma_values_tree(vs: Seq<JsonValue>)
    ensures
        values_tree(vs).len() == vs.len(),
        forall|i: int| 0 <= i < vs.len() ==> #[trigger] values_tree(vs)[i] == value_tree(vs[i]),
    decreases vs.len(),
{
    if vs.len() > 0 {
        lemma_values_tree(vs.subrange(0, vs.len() - 1));
    }
}

pub proof fn lemma_entries_tree(es: Seq<(String, JsonValue)>)
    ensures
        entries_tree(es).len() == es.len(),
        forall|i: int|
            0 <= i < es.len() ==> #[trigger] entries_tree(es)[i] == (es[i].0@, value_tree(es[i].1)),
    decreases es.len(),
{
    if es.len() > 0 {
        lemma_entries_tree(es.subrange(0, es.len() - 1));
    }
}

pub proof fn lemma_entries_tree_push(es: Seq<(String, JsonValue)>, e: (String, JsonValue))
    ensures
        entries_tree(es.push(e)) == entries_tree(es).push((e.0@, value_tree(e.1))),
{
    assert(es.push(e).subrange(0, es.len() as int) =~= es);
}

// ---------------------------------------------------------------------------
// Canonical meaning
// ---------------------------------------------------------------------------

pub open spec fn canon(t: JsonTree) -> Json
    decreases t,
{
    match t {
        JsonTree::Null => Json::Null,
        JsonTree::Bool(b) => Json::Bool(b),
        JsonTree::Number(n) => Json::Number(n.canonical()),
        JsonTree::Str(s) => Json::Str(s),
        JsonTree::Array(xs) => Json::Array(canon_seq(xs)),
        JsonTree::Object(es) => Json::Object(canon_entries(es)),
    }
}

pub open spec fn canon_seq(xs: Seq<JsonTree>) -> Seq<Json>
    decreases xs,
{
    if xs.len() == 0 {
        Seq::empty()
    } else {
        canon_seq(xs.subrange(0, xs.len() - 1)).push(canon(xs[xs.len() - 1]))
    }
}

pub open spec fn canon_entries(es: Seq<(Seq<char>, JsonTree)>) -> Map<Seq<char>, Json>
    decreases es,
{
    if es.len() == 0 {
        Map::empty()
    } else {
        canon_entries(es.subrange(0, es.len() - 1)).insert(
            es[es.len() - 1].0,
            canon(es[es.len() - 1].1),
        )
    }
}

/// Two JSON values are equal as JSON: same scalars, arrays equal element by
/// element, objects with the same keys and equal values under each key.
pub open spec fn same_json(a: JsonTree, b: JsonTree) -> bool {
    canon(a) == canon(b)
}

pub open spec fn is_array(t: JsonTree) -> bool {
    t is Array
}

// ---------------------------------------------------------------------------
// Keyed entries
// ---------------------------------------------------------------------------

/// The index of the last entry with key `k`, or -1 when there is none.
pub open spec fn last_index<K, V>(es: Seq<(K, V)>, k: K) -> int
    decreases es.len(),
{
    if es.len() == 0 {
        -1
    } else if es[es.len() - 1].0 == k {
        es.len() - 1
    } else {
        last_index(es.subrange(0, es.len() - 1), k)
    }
}

pub open spec fn has_key<K, V>(es: Seq<(K, V)>, k: K) -> bool {
    last_index(es, k) >= 0
}

/// The value under key `k`: that of its last entry.
pub open spec fn entry_get<K, V>(es: Seq<(K, V)>, k: K) -> Option<V> {
    if has_key(es, k) {
        Some(es[last_index(es, k)].1)
    } else {
        None
    }
}

/// Sets the value under key `k`: the last entry with that key takes `v`;
/// with no such entry, `(k, v)` is appended.
pub open spec fn entry_insert<K, V>(es: Seq<(K, V)>, k: K, v: V) -> Seq<(K, V)> {
    if has_key(es, k) {
        es.update(last_index(es, k), (k, v))
    } else {
        es.push((k, v))
    }
}

pub open spec fn keys_of<K, V>(es: Seq<(K, V)>) -> Seq<K> {
    es.map_values(|e: (K, V)| e.0)
}

/// No key occurs in two entries.
pub open spec fn keys_distinct<K, V>(es: Seq<(K, V)>) -> bool {
    forall|i: int, j: int| 0 <= i < j < es.len() ==> (#[trigger] es[i]).0 != (#[trigger] es[j]).0
}

pub proof fn lemma_last_index<K, V>(es: Seq<(K, V)>, k: K)
    ensures
        -1 <= last_index(es, k) < es.len(),
        last_index(es, k) >= 0 ==> es[last_index(es, k)].0 == k,
        forall|j: int| last_index(es, k) < j < es.len() ==> #[trigger] es[j].0 != k,
        last_index(es, k) == -1 <==> forall|j: int| 0 <= j < es.len() ==> #[trigger] es[j].0 != k,
        has_key(es, k) <==> keys_of(es).contains(k),
    decreases es.len(),
{
    if es.len() > 0 {
        let pre = es.subrange(0, es.len() - 1);
        lemma_last_index(pre, k);
        if es[es.len() - 1].0 != k {
            assert forall|j: int| 0 <= j < pre.len() implies #[trigger] es[j].0 == pre[j].0 by {}
        }
    }
    if has_key(es, k) {
        assert(keys_of(es)[last_index(es, k)] == k);
    }
    if keys_of(es).contains(k) {
        let j = choose|j: int| 0 <= j < keys_of(es).len() && keys_of(es)[j] == k;
        assert(es[j].0 == k);
    }
}

pub proof fn lemma_last_index_push<K, V>(es: Seq<(K, V)>, e: (K, V), k: K)
    ensures
        last_index(es.push(e), k) == if e.0 == k { es.len() as int } else { last_index(es, k) },
{
    assert(es.push(e).subrange(0, es.len() as int) =~= es);
}

/// Looking up after an insert.
pub proof fn lemma_entry_insert<K, V>(es: Seq<(K, V)>, k: K, v: V, k2: K)
    ensures
        entry_get(entry_insert(es, k, v), k2) == if k2 == k { Some(v) } else { entry_get(es, k2) },
        has_key(entry_insert(es, k, v), k2) == (k2 == k || has_key(es, k2)),
{
    lemma_last_index(es, k);
    lemma_last_index(es, k2);
    let r = entry_insert(es, k, v);
    lemma_last_index(r, k2);
    if has_key(es, k) {
        let i = last_index(es, k);
        if k2 == k {
            assert(r[i].0 == k);
            assert(last_index(r, k2) == i) by {
                if last_index(r, k2) > i {
                    assert(r[last_index(r, k2)] == es[last_index(r, k2)]);
                } else if last_index(r, k2) < i {
                    assert(r[i].0 == k2);
                }
            }
        } else {
            assert(last_index(r, k2) == last_index(es, k2)) by {
                let a = last_index(r, k2);
                let b = last_index(es, k2);
                if a >= 0 {
                    assert(r[a] == es[a]);
                }
                if b >= 0 {
                    assert(r[b] == es[b]);
                }
                if a > b && a >= 0 {
                    assert(es[a].0 == k2);
                }
                if b > a && b >= 0 {
                    assert(r[b].0 == k2);
                }
            }
            if has_key(es, k2) {
                assert(r[last_index(es, k2)] == es[last_index(es, k2)]);
            }
        }
    } else {
        lemma_last_index_push(es, (k, v), k2);
    }
}

/// Setting the value under a key keeps keys distinct.
pub proof fn lemma_entry_insert_distinct<K, V>(es: Seq<(K, V)>, k: K, v: V)
    requires
        keys_distinct(es),
    ensures
        keys_distinct(entry_insert(es, k, v)),
{
    lemma_last_index(es, k);
    let r = entry_insert(es, k, v);
    assert forall|i: int, j: int| 0 <= i < j < r.len() implies (#[trigger] r[i]).0 != (
    #[trigger] r[j]).0 by {
        if j < es.len() {
            assert(r[i].0 == es[i].0);
            assert(r[j].0 == es[j].0);
        } else {
            assert(r[i].0 == es[i].0);
        }
    }
}

/// The entries that inserting the pairs of `es` one after another into an
/// empty keyed collection leaves, by `entry_insert`.
pub open spec fn inserted<K, V>(es: Seq<(K, V)>) -> Seq<(K, V)>
    decreases es.len(),
{
    if es.len() == 0 {
        Seq::empty()
    } else {
        entry_insert(inserted(es.subrange(0, es.len() - 1)), es[es.len() - 1].0, es[es.len() - 1].1)
    }
}

pub proof fn lemma_inserted_push<K, V>(es: Seq<(K, V)>, e: (K, V))
    ensures
        inserted(es.push(e)) == entry_insert(inserted(es), e.0, e.1),
{
    assert(es.push(e).subrange(0, es.len() as int) =~= es);
}

/// Inserting pairs one by one leaves each key once, under the value of its
/// last pair, and holds only pairs that were inserted.
pub proof fn lemma_inserted<K, V>(es: Seq<(K, V)>)
    ensures
        keys_distinct(inserted(es)),
        forall|k: K| #[trigger] entry_get(inserted(es), k) == entry_get(es, k),
        forall|i: int|
            0 <= i < inserted(es).len() ==> exists|j: int|
                0 <= j < es.len() && #[trigger] inserted(es)[i] == es[j],
    decreases es.len(),
{
    if es.len() > 0 {
        let n = es.len() - 1;
        let pre = es.subrange(0, n);
        let x = es[n];
        lemma_inserted(pre);
        assert(es =~= pre.push(x));
        let ip = inserted(pre);
        let r = inserted(es);
        assert(r == entry_insert(ip, x.0, x.1));
        lemma_last_index(ip, x.0);
        assert forall|k: K| #[trigger] entry_get(r, k) == entry_get(es, k) by {
            lemma_entry_insert(ip, x.0, x.1, k);
            lemma_last_index_push(pre, x, k);
            lemma_last_index(pre, k);
            assert(entry_get(ip, k) == entry_get(pre, k));
            if has_key(pre, k) {
                assert(es[last_index(pre, k)] == pre[last_index(pre, k)]);
            }
        }
        lemma_entry_insert_distinct(ip, x.0, x.1);
        if has_key(ip, x.0) {
            let l = last_index(ip, x.0);
            assert forall|i: int| 0 <= i < r.len() implies exists|j: int|
                0 <= j < es.len() && #[trigger] r[i] == es[j] by {
                if i == l {
                    assert(r[i] == es[n as int]);
                } else {
                    assert(r[i] == ip[i]);
                    let j = choose|j: int| 0 <= j < pre.len() && ip[i] == pre[j];
                    assert(pre[j] == es[j]);
                }
            }
        } else {
            assert forall|i: int| 0 <= i < r.len() implies exists|j: int|
                0 <= j < es.len() && #[trigger] r[i] == es[j] by {
                if i == ip.len() {
                    assert(r[i] == es[n as int]);
                } else {
                    assert(r[i] == ip[i]);
                    let j = choose|j: int| 0 <= j < pre.len() && ip[i] == pre[j];
                    assert(pre[j] == es[j]);
                }
            }
        }
    }
}

/// Looking a key up in two lists of entries one after the other: the second
/// list wins where it has the key.
pub proof fn lemma_entry_get_concat<K, V>(a: Seq<(K, V)>, b: Seq<(K, V)>, k: K)
    ensures
        entry_get(a + b, k) == if has_key(b, k) {
            entry_get(b, k)
        } else {
            entry_get(a, k)
        },
    decreases b.len(),
{
    if b.len() == 0 {
        assert(a + b =~= a);
    } else {
        let n = b.len() - 1;
        let bp = b.subrange(0, n);
        let x = b[n];
        lemma_entry_get_concat(a, bp, k);
        assert(b =~= bp.push(x));
        assert(a + b =~= (a + bp).push(x));
        lemma_last_index_push(a + bp, x, k);
        lemma_last_index_push(bp, x, k);
        lemma_last_index(a + bp, k);
        lemma_last_index(bp, k);
        if x.0 != k {
            if has_key(a + bp, k) {
                assert((a + b)[last_index(a + bp, k)] == (a + bp)[last_index(a + bp, k)]);
            }
            if has_key(bp, k) {
                assert(b[last_index(bp, k)] == bp[last_index(bp, k)]);
            }
        }
    }
}

/// The map that a list of pairs stands for: a later pair overrides an
/// earlier one with the same key.
pub open spec fn pairs_map<K, V>(es: Seq<(K, V)>) -> Map<K, V>
    decreases es.len(),
{
    if es.len() == 0 {
        Map::empty()
    } else {
        pairs_map(es.subrange(0, es.len() - 1)).insert(es[es.len() - 1].0, es[es.len() - 1].1)
    }
}

pub proof fn lemma_pairs_map<K, V>(es: Seq<(K, V)>, k: K)
    ensures
        pairs_map(es).dom().contains(k) == has_key(es, k),
        has_key(es, k) ==> pairs_map(es)[k] == es[last_index(es, k)].1,
    decreases es.len(),
{
    if es.len() > 0 {
        let pre = es.subrange(0, es.len() - 1);
        lemma_pairs_map(pre, k);
        lemma_last_index(es, k);
        lemma_last_index(pre, k);
        if es[es.len() - 1].0 != k && has_key(es, k) {
            assert(es[last_index(es, k)] == pre[last_index(pre, k)]);
        }
    }
}

pub proof fn lemma_pairs_map_insert<K, V>(es: Seq<(K, V)>, k: K, v: V)
    ensures
        pairs_map(entry_insert(es, k, v)) == pairs_map(es).insert(k, v),
{
    let a = pairs_map(entry_insert(es, k, v));
    let b = pairs_map(es).insert(k, v);
    assert forall|k2: K| #[trigger] a.dom().contains(k2) == b.dom().contains(k2) by {
        lemma_entry_insert(es, k, v, k2);
        lemma_pairs_map(entry_insert(es, k, v), k2);
        lemma_pairs_map(es, k2);
    }
    assert forall|k2: K| a.dom().contains(k2) implies #[trigger] a[k2] == b[k2] by {
        lemma_entry_insert(es, k, v, k2);
        lemma_pairs_map(entry_insert(es, k, v), k2);
        lemma_pairs_map(es, k2);
    }
    assert(a =~= b);
}

/// What an object means, key by key.
pub proof fn lemma_canon_entries(es: Seq<(Seq<char>, JsonTree)>, k: Seq<char>)
    ensures
        canon_entries(es).dom().contains(k) == has_key(es, k),
        has_key(es, k) ==> canon_entries(es)[k] == canon(es[last_index(es, k)].1),
    decreases es.len(),
{
    if es.len() > 0 {
        let pre = es.subrange(0, es.len() - 1);
        lemma_canon_entries(pre, k);
        lemma_last_index(es, k);
        lemma_last_index(pre, k);
        if es[es.len() - 1].0 != k && has_key(es, k) {
            assert(es[last_index(es, k)] == pre[last_index(pre, k)]);
        }
    }
}

pub proof fn lemma_canon_seq(xs: Seq<JsonTree>)
    ensures
        canon_seq(xs).len() == xs.len(),
        forall|i: int| 0 <= i < xs.len() ==> #[trigger] canon_seq(xs)[i] == canon(xs[i]),
    decreases xs.len(),
{
    if xs.len() > 0 {
        lemma_canon_seq(xs.subrange(0, xs.len() - 1));
    }
}

/// Two objects are equal as JSON exactly when they have the same keys and
/// equal values under each key.
pub proof fn lemma_same_object(es: Seq<(Seq<char>, JsonTree)>, fs: Seq<(Seq<char>, JsonTree)>)
    ensures
        same_json(JsonTree::Object(es), JsonTree::Object(fs)) <==> (forall|k: Seq<char>|
            #[trigger] has_key(es, k) == has_key(fs, k) && (has_key(es, k) ==> same_json(
                es[last_index(es, k)].1,
                fs[last_index(fs, k)].1,
            ))),
{
    let a = canon_entries(es);
    let b = canon_entries(fs);
    if forall|k: Seq<char>|
        #[trigger] has_key(es, k) == has_key(fs, k) && (has_key(es, k) ==> same_json(
            es[last_index(es, k)].1,
            fs[last_index(fs, k)].1,
        )) {
        assert forall|k: Seq<char>| #[trigger] a.dom().contains(k) == b.dom().contains(k) by {
            lemma_canon_entries(es, k);
            lemma_canon_entries(fs, k);
        }
        assert forall|k: Seq<char>| a.dom().contains(k) implies #[trigger] a[k] == b[k] by {
            lemma_canon_entries(es, k);
            lemma_canon_entries(fs, k);
        }
        assert(a =~= b);
    }
    if a == b {
        assert forall|k: Seq<char>|
            #[trigger] has_key(es, k) == has_key(fs, k) && (has_key(es, k) ==> same_json(
                es[last_index(es, k)].1,
                fs[last_index(fs, k)].1,
            )) by {
            lemma_canon_entries(es, k);
            lemma_canon_entries(fs, k);
        }
    }
}

/// Two arrays are equal as JSON exactly when they have the same length and
/// equal elements.
pub proof fn lemma_same_array(xs: Seq<JsonTree>, ys: Seq<JsonTree>)
    ensures
        same_json(JsonTree::Array(xs), JsonTree::Array(ys)) <==> (xs.len() == ys.len() && forall|
            i: int,
        | 0 <= i < xs.len() ==> #[trigger] same_json(xs[i], ys[i])),
{
    lemma_canon_seq(xs);
    lemma_canon_seq(ys);
    if xs.len() == ys.len() && forall|i: int| 0 <= i < xs.len() ==> #[trigger] same_json(xs[i], ys[i]) {
        assert forall|i: int| 0 <= i < xs.len() implies canon_seq(xs)[i] == canon_seq(ys)[i] by {
            assert(same_json(xs[i], ys[i]));
        }
        assert(canon_seq(xs) =~= canon_seq(ys));
    }
    if canon_seq(xs) == canon_seq(ys) {
        assert forall|i: int| 0 <= i < xs.len() implies #[trigger] same_json(xs[i], ys[i]) by {
            assert(canon_seq(xs)[i] == canon_seq(ys)[i]);
        }
    }
}

// ---------------------------------------------------------------------------
// Executable operations
// ---------------------------------------------------------------------------

pub proof fn lemma_values_tree_eq(a: Seq<JsonValue>, b: Seq<JsonValue>)
    requires
        a.len() == b.len(),
        forall|i: int| 0 <= i < a.len() ==> #[trigger] value_tree(a[i]) == value_tree(b[i]),
    ensures
        values_tree(a) == values_tree(b),
{
    lemma_values_tree(a);
    lemma_values_tree(b);
    assert(values_tree(a) =~= values_tree(b));
}

pub proof fn lemma_entries_tree_eq(a: Seq<(String, JsonValue)>, b: Seq<(String, JsonValue)>)
    requires
        a.len() == b.len(),
        forall|i: int|
            0 <= i < a.len() ==> (#[trigger] a[i]).0@ == b[i].0@ && value_tree(a[i].1) == value_tree(
                b[i].1,
            ),
    ensures
        entries_tree(a) == entries_tree(b),
{
    lemma_entries_tree(a);
    lemma_entries_tree(b);
    assert(entries_tree(a) =~= entries_tree(b));
}

impl JsonNumber {
    /// Equality of numbers as JSON compares them: integers by value within
    /// their kind, doubles by value (so +0.0 equals -0.0).
    pub fn same_number(&self, other: &JsonNumber) -> (r: bool)
        ensures
            r == (self.canonical() == other.canonical()),
    {
        match (self, other) {
            (JsonNumber::PosInt(a), JsonNumber::PosInt(b)) => *a == *b,
            (JsonNumber::NegInt(a), JsonNumber::NegInt(b)) => *a == *b,
            (JsonNumber::Float(a), JsonNumber::Float(b)) => {
                proof {
                    assert(0u64 & MAGNITUDE_MASK == 0) by (bit_vector);
                }
                *a == *b || (*a & MAGNITUDE_MASK == 0 && *b & MAGNITUDE_MASK == 0)
            },
            _ => false,
        }
    }
}

/// A copy of a JSON value, member order included.
#[verifier::loop_isolation(false)]
pub fn clone_value(v: &JsonValue) -> (r: JsonValue)
    ensures
        r@ == v@,
    decreases v,
{
    match v {
        JsonValue::Null => JsonValue::Null,
        JsonValue::Bool(b) => JsonValue::Bool(*b),
        JsonValue::Number(n) => JsonValue::Number(*n),
        JsonValue::String(s) => JsonValue::String(s.clone()),
        JsonValue::Array(vs) => {
            let mut out: Vec<JsonValue> = Vec::new();
            for i in 0..vs.len()
                invariant
                    out@.len() == i,
                    forall|j: int| 0 <= j < i ==> #[trigger] value_tree(out@[j]) == value_tree(vs@[j]),
            {
                proof {
                    assert(decreases_to!(*v => vs@[i as int]));
                }
                let c = clone_value(&vs[i]);
                out.push(c);
            }
            proof {
                lemma_values_tree_eq(out@, vs@);
            }
            JsonValue::Array(out)
        },
        JsonValue::Object(m) => JsonValue::Object(clone_map(m)),
    }
}

/// A copy of an object's members, in order.
#[verifier::loop_isolation(false)]
pub fn clone_map(m: &JsonMap) -> (r: JsonMap)
    ensures
        r@ == m@,
    decreases m,
{
    let mut out: Vec<(String, JsonValue)> = Vec::new();
    for i in 0..m.entries.len()
        invariant
            out@.len() == i,
            forall|j: int|
                0 <= j < i ==> (#[trigger] out@[j]).0@ == m.entries@[j].0@ && value_tree(out@[j].1)
                    == value_tree(m.entries@[j].1),
    {
        let k = m.entries[i].0.clone();
        let c = clone_value(&m.entries[i].1);
        out.push((k, c));
    }
    proof {
        lemma_entries_tree_eq(out@, m.entries@);
    }
    JsonMap { entries: out }
}

impl JsonMap {
    /// An object with no members.
    pub fn new() -> (m: JsonMap)
        ensures
            m@ == Seq::<(Seq<char>, JsonTree)>::empty(),
            keys_distinct(m@),
    {
        let m = JsonMap { entries: Vec::new() };
        proof {
            lemma_entries_tree(m.entries@);
        }
        m
    }

    /// The index of the last member with the given key.
    pub fn find_last(&self, key: &String) -> (r: Option<usize>)
        ensures
            match r {
                Some(i) => i == last_index(self@, key@),
                None => !has_key(self@, key@),
            },
    {
        let mut i = self.entries.len();
        while i > 0
            invariant
                i <= self.entries@.len(),
                forall|j: int| i <= j < self.entries@.len() ==> #[trigger] self.entries@[j].0@ != key@,
            decreases i,
        {
            i = i - 1;
            if self.entries[i].0 == *key {
                proof {
                    lemma_entries_tree(self.entries@);
                    lemma_last_index(self@, key@);
                    assert(self@[i as int].0 == key@);
                    let l = last_index(self@, key@);
                    if l > i {
                        assert(self@[l].0 == key@);
                        assert(self.entries@[l].0@ == key@);
                    }
                }
                return Some(i);
            }
        }
        proof {
            lemma_entries_tree(self.entries@);
            lemma_last_index(self@, key@);
            if has_key(self@, key@) {
                let l = last_index(self@, key@);
                assert(self@[l].0 == key@);
                assert(self.entries@[l].0@ == key@);
            }
        }
        None
    }

    /// The value under a key.
    pub fn get(&self, key: &str) -> (r: Option<&JsonValue>)
        ensures
            match r {
                Some(v) => entry_get(self@, key@) == Some(v@),
                None => entry_get(self@, key@) is None,
            },
    {
        let k = key.to_owned();
        match self.find_last(&k) {
            Some(i) => {
                proof {
                    lemma_entries_tree(self.entries@);
                    lemma_last_index(self@, k@);
                }
                Some(&self.entries[i].1)
            },
            None => None,
        }
    }

    /// Whether a key is present.
    pub fn contains_key(&self, key: &str) -> (r: bool)
        ensures
            r == has_key(self@, key@),
    {
        let k = key.to_owned();
        self.find_last(&k).is_some()
    }

    /// Sets the value under a key: an existing member keeps its place and
    /// takes the new value; a new key is appended.
    pub fn insert(&mut self, key: String, value: JsonValue)
        ensures
            final(self)@ == entry_insert(old(self)@, key@, value@),
            keys_distinct(old(self)@) ==> keys_distinct(final(self)@),
    {
        proof {
            if keys_distinct(self@) {
                lemma_entry_insert_distinct(self@, key@, value@);
            }
        }
        let found = self.find_last(&key);
        proof {
            lemma_entries_tree(self.entries@);
            lemma_last_index(self@, key@);
        }
        match found {
            Some(i) => {
                let ghost before = self.entries@;
                let ghost kv = key@;
                let ghost vv = value@;
                self.entries.set(i, (key, value));
                proof {
                    lemma_entries_tree(self.entries@);
                    assert(entries_tree(self.entries@) =~= entries_tree(before).update(
                        i as int,
                        (kv, vv),
                    ));
                }
            },
            None => {
                let ghost before = self.entries@;
                let e = (key, value);
                proof {
                    lemma_entries_tree_push(before, e);
                }
                self.entries.push(e);
            },
        }
    }
}

impl JsonValue {
    /// Whether the value is an array.
    pub fn is_array(&self) -> (r: bool)
        ensures
            r == is_array(self@),
    {
        match self {
            JsonValue::Array(_) => true,
            _ => false,
        }
    }

    /// The JSON number for an integer.
    pub fn from_i64(n: i64) -> (r: JsonValue)
        ensures
            r@ == JsonTree::Number(
                if n >= 0 {
                    JsonNumber::PosInt(n as u64)
                } else {
                    JsonNumber::NegInt(n)
                },
            ),
    {
        if n >= 0 {
            JsonValue::Number(JsonNumber::PosInt(n as u64))
        } else {
            JsonValue::Number(JsonNumber::NegInt(n))
        }
    }

    /// The JSON string holding the given text.
    pub fn from_text(s: &str) -> (r: JsonValue)
        ensures
            r@ == JsonTree::Str(s@),
    {
        JsonValue::String(s.to_owned())
    }
}

/// Equality of JSON values: the equality `==` of documents.
#[verifier::loop_isolation(false)]
pub fn json_equal(a: &JsonValue, b: &JsonValue) -> (r: bool)
    ensures
        r == same_json(a@, b@),
    decreases a,
{
    match (a, b) {
        (JsonValue::Null, JsonValue::Null) => true,
        (JsonValue::Bool(x), JsonValue::Bool(y)) => *x == *y,
        (JsonValue::Number(x), JsonValue::Number(y)) => x.same_number(y),
        (JsonValue::String(x), JsonValue::String(y)) => *x == *y,
        (JsonValue::Array(xs), JsonValue::Array(ys)) => {
            proof {
                lemma_values_tree(xs@);
                lemma_values_tree(ys@);
                lemma_same_array(values_tree(xs@), values_tree(ys@));
            }
            if xs.len() != ys.len() {
                return false;
            }
            for i in 0..xs.len()
                invariant
                    xs@.len() == ys@.len(),
                    values_tree(xs@).len() == xs@.len(),
                    values_tree(ys@).len() == ys@.len(),
                    forall|j: int| 0 <= j < xs@.len() ==> #[trigger] values_tree(xs@)[j] == value_tree(xs@[j]),
                    forall|j: int| 0 <= j < ys@.len() ==> #[trigger] values_tree(ys@)[j] == value_tree(ys@[j]),
                    forall|j: int| 0 <= j < i ==> #[trigger] same_json(values_tree(xs@)[j], values_tree(ys@)[j]),
                    same_json(a@, b@) <==> (forall|j: int| 0 <= j < xs@.len() ==> #[trigger] same_json(values_tree(xs@)[j], values_tree(ys@)[j])),
            {
                if !json_equal(&xs[i], &ys[i]) {
                    assert(!same_json(values_tree(xs@)[i as int], values_tree(ys@)[i as int]));
                    return false;
                }
            }
            true
        },
        (JsonValue::Object(m), JsonValue::Object(n)) => object_equal(m, n),
        _ => false,
    }
}

/// Equality of two objects as JSON: the same keys, and equal values under
/// each key.
#[verifier::loop_isolation(false)]
pub fn object_equal(m: &JsonMap, n: &JsonMap) -> (r: bool)
    ensures
        r == same_json(JsonTree::Object(m@), JsonTree::Object(n@)),
    decreases m,
{
    let ghost mv = m@;
    let ghost nv = n@;
    proof {
        lemma_entries_tree(m.entries@);
        lemma_entries_tree(n.entries@);
        lemma_same_object(mv, nv);
    }
    for i in 0..m.entries.len()
        invariant
            mv == m@,
            nv == n@,
            mv.len() == m.entries@.len(),
            forall|j: int| 0 <= j < m.entries@.len() ==> #[trigger] mv[j] == (m.entries@[j].0@, value_tree(m.entries@[j].1)),
            forall|j: int| 0 <= j < n.entries@.len() ==> #[trigger] nv[j] == (n.entries@[j].0@, value_tree(n.entries@[j].1)),
            nv.len() == n.entries@.len(),
            forall|j: int|
                0 <= j < i && #[trigger] last_index(mv, mv[j].0) == j ==> has_key(nv, mv[j].0)
                    && same_json(mv[j].1, nv[last_index(nv, mv[j].0)].1),
    {
        let k = &m.entries[i].0;
        proof {
            assert(mv[i as int] == (k@, value_tree(m.entries@[i as int].1)));
            lemma_last_index(mv, k@);
            lemma_last_index(nv, k@);
        }
        let last = m.find_last(k);
        if last == Some(i) {
            match n.find_last(k) {
                None => {
                    proof {
                        assert(has_key(mv, k@));
                        assert(!same_json(JsonTree::Object(mv), JsonTree::Object(nv)));
                    }
                    return false;
                },
                Some(j) => {
                    proof {
                        assert(nv[j as int] == (n.entries@[j as int].0@, value_tree(n.entries@[j as int].1)));
                    }
                    if !json_equal(&m.entries[i].1, &n.entries[j].1) {
                        proof {
                            assert(has_key(mv, k@));
                            assert(!same_json(mv[i as int].1, nv[j as int].1));
                            assert(!same_json(JsonTree::Object(mv), JsonTree::Object(nv)));
                        }
                        return false;
                    }
                },
            }
        }
    }
    for j in 0..n.entries.len()
        invariant
            mv == m@,
            nv == n@,
            nv.len() == n.entries@.len(),
            forall|j2: int| 0 <= j2 < n.entries@.len() ==> #[trigger] nv[j2] == (n.entries@[j2].0@, value_tree(n.entries@[j2].1)),
            forall|j2: int| 0 <= j2 < j ==> #[trigger] has_key(mv, nv[j2].0),
    {
        let k = &n.entries[j].0;
        if m.find_last(k).is_none() {
            proof {
                lemma_last_index(nv, k@);
                assert(nv[j as int].0 == k@);
                assert(has_key(nv, k@));
                assert(!same_json(JsonTree::Object(mv), JsonTree::Object(nv)));
            }
            return false;
        }
    }
    proof {
        assert forall|k: Seq<char>|
            #[trigger] has_key(mv, k) == has_key(nv, k) && (has_key(mv, k) ==> same_json(
                mv[last_index(mv, k)].1,
                nv[last_index(nv, k)].1,
            )) by {
            lemma_last_index(mv, k);
            lemma_last_index(nv, k);
            if has_key(mv, k) {
                let i = last_index(mv, k);
                assert(last_index(mv, mv[i].0) == i);
            }
            if has_key(nv, k) {
                let j = last_index(nv, k);
                assert(has_key(mv, nv[j].0));
            }
        }
    }
    true
}

impl PartialEq for JsonValue {
    fn eq(&self, other: &Self) -> (r: bool) {
        json_equal(self, other)
    }
}

impl vstd::std_specs::cmp::PartialEqSpecImpl for JsonValue {
    open spec fn obeys_eq_spec() -> bool {
        true
    }

    open spec fn eq_spec(&self, other: &Self) -> bool {
        same_json(self@, other@)
    }
}

impl Clone for JsonValue {
    fn clone(&self) -> (r: Self)
        ensures
            r@ == self@,
    {
        clone_value(self)
    }
}

impl Clone for JsonMap {
    fn clone(&self) -> (r: Self)
        ensures
            r@ == self@,
    {
        clone_map(self)
    }
}

} // verus!
