//! The value model: captured values, snapshots, traces, and tree paths.

use vstd::prelude::*;

verus! {

/// One segment of a tree path: a mapping key (or top-level name), or a
/// sequence index.
#[derive(Clone, Debug, PartialEq, Eq)]
pub enum PathSeg {
    Key(String),
    Index(usize),
}

/// Mathematical image of a path segment: the key text, or the index.
pub enum SegModel {
    Key(Seq<char>),
    Index(int),
}

impl PathSeg {
    /// The mathematical segment this exec segment stands for.
    pub open spec fn model(self) -> SegModel {
        match self {
            PathSeg::Key(k) => SegModel::Key(k@),
            PathSeg::Index(i) => SegModel::Index(i as int),
        }
    }
}

/// A path from a snapshot root to a node: the node's identity for diffing
/// and for the expansion state.
pub type TreePath = Vec<PathSeg>;

/// The mathematical image of a path.
pub open spec fn path_model(p: Seq<PathSeg>) -> Seq<SegModel> {
    p.map_values(|s: PathSeg| s.model())
}

/// One captured value: a scalar rendered as text, an ordered sequence, or a
/// keyed mapping with unique keys.
#[derive(Debug, PartialEq, Eq)]
pub enum Value {
    Scalar(String),
    Sequence(Vec<Value>),
    Mapping(Vec<(String, Value)>),
}

/// One captured program state: an ordered set of named top-level values,
/// names unique.
pub struct Snapshot {
    pub values: Vec<(String, Value)>,
}

/// The full viewed history: a non-empty ordered sequence of snapshots.
pub struct Trace {
    pub states: Vec<Snapshot>,
}

/// Keys of a mapping (or names of a snapshot level) are pairwise distinct.
pub open spec fn keys_unique(entries: Seq<(String, Value)>) -> bool {
    forall|i: int, j: int|
        0 <= i < j < entries.len() ==> entries[i].0@ != entries[j].0@
}

/// Every mapping inside the value has unique keys.
pub open spec fn value_wf(v: Value) -> bool
    decreases v, 0int, 0int,
{
    match v {
        Value::Scalar(_) => true,
        Value::Sequence(items) => seq_wf_from(items, 0),
        Value::Mapping(entries) => keys_unique(entries@) && map_wf_from(entries, 0),
    }
}

/// The sequence items from `i` on are well formed.
pub open spec fn seq_wf_from(items: Vec<Value>, i: int) -> bool
    decreases items, 1int, items@.len() - i,
    via seq_wf_from_dec
{
    if i < 0 || i >= items@.len() {
        true
    } else {
        value_wf(items@[i]) && seq_wf_from(items, i + 1)
    }
}

#[via_fn]
proof fn seq_wf_from_dec(items: Vec<Value>, i: int) {
    broadcast use vstd::std_specs::vec::axiom_vec_index_decreases;

    if 0 <= i < items@.len() {
        assert(decreases_to!(items => items[i]));
    }
}

/// One mapping entry's value is well formed.
pub open spec fn entry_wf(e: (String, Value)) -> bool
    decreases e, 2int, 0int,
{
    value_wf(e.1)
}

/// The mapping entries from `i` on are well formed.
pub open spec fn map_wf_from(entries: Vec<(String, Value)>, i: int) -> bool
    decreases entries, 1int, entries@.len() - i,
    via map_wf_from_dec
{
    if i < 0 || i >= entries@.len() {
        true
    } else {
        entry_wf(entries@[i]) && map_wf_from(entries, i + 1)
    }
}

#[via_fn]
proof fn map_wf_from_dec(entries: Vec<(String, Value)>, i: int) {
    broadcast use vstd::std_specs::vec::axiom_vec_index_decreases;

    if 0 <= i < entries@.len() {
        assert(decreases_to!(entries => entries[i]));
    }
}

/// A well-formed item list has each item well formed.
pub proof fn lemma_seq_wf_at(items: Vec<Value>, i: int, j: int)
    requires
        0 <= i <= j < items@.len(),
        seq_wf_from(items, i),
    ensures
        value_wf(items@[j]),
    decreases j - i,
{
    if i < j {
        lemma_seq_wf_at(items, i + 1, j);
    }
}

/// A well-formed entry list has each entry's value well formed.
pub proof fn lemma_map_wf_at(entries: Vec<(String, Value)>, i: int, j: int)
    requires
        0 <= i <= j < entries@.len(),
        map_wf_from(entries, i),
    ensures
        value_wf(entries@[j].1),
    decreases j - i,
{
    if i < j {
        lemma_map_wf_at(entries, i + 1, j);
    } else {
        assert(entry_wf(entries@[j]));
    }
}

/// A snapshot level is well formed: names unique, values well formed.
pub open spec fn entries_wf(entries: Seq<(String, Value)>) -> bool {
    keys_unique(entries) && forall|i: int|
        0 <= i < entries.len() ==> value_wf(#[trigger] entries[i].1)
}

impl Snapshot {
    pub open spec fn wf(self) -> bool {
        entries_wf(self.values@)
    }
}

impl Trace {
    pub open spec fn wf(self) -> bool {
        self.states@.len() > 0 && forall|i: int|
            0 <= i < self.states@.len() ==> (#[trigger] self.states@[i]).wf()
    }
}

/// The value stored under key `k` at one mapping level, if any (first match;
/// under `keys_unique` it is the only one).
pub open spec fn entries_lookup(entries: Seq<(String, Value)>, k: Seq<char>) -> Option<Value>
    decreases entries.len(),
{
    if entries.len() == 0 {
        None
    } else if entries[0].0@ == k {
        Some(entries[0].1)
    } else {
        entries_lookup(entries.drop_first(), k)
    }
}

/// The child of `v` selected by one path segment, if any.
pub open spec fn child_of(v: Value, s: SegModel) -> Option<Value> {
    match v {
        Value::Scalar(_) => None,
        Value::Sequence(items) => match s {
            SegModel::Index(i) => if 0 <= i < items@.len() {
                Some(items@[i])
            } else {
                None
            },
            SegModel::Key(_) => None,
        },
        Value::Mapping(entries) => match s {
            SegModel::Key(k) => entries_lookup(entries@, k),
            SegModel::Index(_) => None,
        },
    }
}

/// The node reached from `v` by following `p`, if any.
pub open spec fn value_at(v: Value, p: Seq<SegModel>) -> Option<Value>
    decreases p.len(),
{
    if p.len() == 0 {
        Some(v)
    } else {
        match child_of(v, p[0]) {
            Some(c) => value_at(c, p.drop_first()),
            None => None,
        }
    }
}

/// The node reached from a snapshot level by following `p`, if any.  The
/// empty path names no node: the top level is a set of roots, not a node.
pub open spec fn node_at(entries: Seq<(String, Value)>, p: Seq<SegModel>) -> Option<Value> {
    if p.len() == 0 {
        None
    } else {
        match p[0] {
            SegModel::Key(k) => match entries_lookup(entries, k) {
                Some(v) => value_at(v, p.drop_first()),
                None => None,
            },
            SegModel::Index(_) => None,
        }
    }
}

/// Exec equality of two path segments, specified over their models.
pub fn seg_eq(a: &PathSeg, b: &PathSeg) -> (r: bool)
    ensures
        r == (a.model() == b.model()),
{
    match (a, b) {
        (PathSeg::Key(x), PathSeg::Key(y)) => *x == *y,
        (PathSeg::Index(x), PathSeg::Index(y)) => x == y,
        _ => false,
    }
}

/// Exec equality of two paths, specified over their models.
pub fn path_eq(a: &TreePath, b: &TreePath) -> (r: bool)
    ensures
        r == (path_model(a@) == path_model(b@)),
{
    if a.len() != b.len() {
        assert(path_model(a@).len() != path_model(b@).len());
        return false;
    }
    let n = a.len();
    for i in 0..n
        invariant
            n == a@.len() == b@.len(),
            forall|j: int| 0 <= j < i ==> a@[j].model() == b@[j].model(),
    {
        if !seg_eq(&a[i], &b[i]) {
            assert(path_model(a@)[i as int] != path_model(b@)[i as int]);
            return false;
        }
    }
    assert(path_model(a@) =~= path_model(b@));
    true
}

/// Clone of one path segment, keeping its model.
pub fn seg_clone(s: &PathSeg) -> (r: PathSeg)
    ensures
        r.model() == s.model(),
{
    match s {
        PathSeg::Key(k) => PathSeg::Key(k.clone()),
        PathSeg::Index(i) => PathSeg::Index(*i),
    }
}

/// Clone of a path, keeping its model.
pub fn path_clone(p: &TreePath) -> (r: TreePath)
    ensures
        path_model(r@) == path_model(p@),
{
    let mut out: TreePath = Vec::new();
    let n = p.len();
    for i in 0..n
        invariant
            n == p@.len(),
            out@.len() == i,
            forall|j: int| 0 <= j < i ==> out@[j].model() == p@[j].model(),
    {
        out.push(seg_clone(&p[i]));
    }
    assert(path_model(out@) =~= path_model(p@));
    out
}

/// The first `l` segments of a path, keeping models.
pub fn path_prefix(p: &TreePath, l: usize) -> (r: TreePath)
    requires
        l <= p@.len(),
    ensures
        path_model(r@) == path_model(p@).take(l as int),
{
    let mut out: TreePath = Vec::new();
    for i in 0..l
        invariant
            l <= p@.len(),
            out@.len() == i,
            forall|j: int| 0 <= j < i ==> out@[j].model() == p@[j].model(),
    {
        out.push(seg_clone(&p[i]));
    }
    assert(path_model(out@) =~= path_model(p@).take(l as int));
    out
}

/// A path extended by one segment, keeping models.
pub fn path_push(p: &TreePath, s: PathSeg) -> (r: TreePath)
    ensures
        path_model(r@) == path_model(p@).push(s.model()),
{
    let mut out = path_clone(p);
    let ghost before = path_model(out@);
    out.push(s);
    assert(path_model(out@) =~= before.push(s.model()));
    out
}

/// A successful lookup returns the value of some entry carrying the key.
pub proof fn lemma_lookup_witness(e: Seq<(String, Value)>, k: Seq<char>)
    requires
        entries_lookup(e, k) is Some,
    ensures
        exists|j: int|
            0 <= j < e.len() && (#[trigger] e[j]).0@ == k && e[j].1 == entries_lookup(
                e,
                k,
            ).unwrap(),
    decreases e.len(),
{
    if e.len() > 0 {
        if e[0].0@ == k {
            assert(e[0].0@ == k && e[0].1 == entries_lookup(e, k).unwrap());
        } else {
            lemma_lookup_witness(e.drop_first(), k);
            let j = choose|j: int|
                0 <= j < e.drop_first().len() && (#[trigger] e.drop_first()[j]).0@ == k
                    && e.drop_first()[j].1 == entries_lookup(e.drop_first(), k).unwrap();
            assert(e[j + 1] == e.drop_first()[j]);
        }
    }
}

} // verus!
