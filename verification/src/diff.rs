//! The diff engine: structural comparison of two snapshot levels.
//!
//! The comparison pairs children by key at mapping levels and by position at
//! sequence levels.  A key or index present on one side only marks the root
//! of the added or removed subtree; a scalar pair with different text, or a
//! pair of different kinds, is modified; composite pairs of the same kind
//! recurse and get no entry of their own.  Absence of an entry means
//! unchanged.

use vstd::prelude::*;

use crate::value::{
    PathSeg, SegModel, TreePath, Value, entries_lookup, entries_wf, keys_unique,
    lemma_lookup_witness, node_at, path_clone, path_model, path_push, value_at, value_wf,
};

verus! {

/// Classification of one node against its counterpart.
#[derive(Clone, Copy, Debug, PartialEq, Eq, Structural)]
pub enum DiffKind {
    Added,
    Removed,
    Modified,
    Unchanged,
}

/// The classification with the two sides swapped.
pub open spec fn flip_kind(k: DiffKind) -> DiffKind {
    match k {
        DiffKind::Added => DiffKind::Removed,
        DiffKind::Removed => DiffKind::Added,
        DiffKind::Modified => DiffKind::Modified,
        DiffKind::Unchanged => DiffKind::Unchanged,
    }
}

/// Classification of a pair of nodes taken by themselves: modified when the
/// kinds differ or two scalars carry different text; unchanged otherwise.
pub open spec fn leaf_class(a: Value, b: Value) -> DiffKind {
    match (a, b) {
        (Value::Scalar(s), Value::Scalar(t)) => if s@ == t@ {
            DiffKind::Unchanged
        } else {
            DiffKind::Modified
        },
        (Value::Sequence(_), Value::Sequence(_)) => DiffKind::Unchanged,
        (Value::Mapping(_), Value::Mapping(_)) => DiffKind::Unchanged,
        _ => DiffKind::Modified,
    }
}

/// The number of index positions a paired sequence level compares.
pub open spec fn seq_limit(x: Vec<Value>, y: Vec<Value>) -> int {
    if x@.len() >= y@.len() {
        x@.len() as int
    } else {
        y@.len() as int
    }
}

/// The recorded entries for the pair of subtrees at path `pm`.
pub open spec fn value_entries(a: Value, b: Value, pm: Seq<SegModel>) -> Seq<
    (Seq<SegModel>, DiffKind),
>
    decreases a, 0int, 0int,
{
    match (a, b) {
        (Value::Sequence(x), Value::Sequence(y)) => seq_entries_from(x, y, pm, 0),
        (Value::Mapping(x), Value::Mapping(y)) => map_paired_from(x, y, pm, 0) + map_added_from(
            x,
            y,
            pm,
            0,
        ),
        _ => if leaf_class(a, b) == DiffKind::Unchanged {
            Seq::empty()
        } else {
            seq![(pm, DiffKind::Modified)]
        },
    }
}

/// Entries for the index positions from `i` on of a paired sequence level.
pub open spec fn seq_entries_from(x: Vec<Value>, y: Vec<Value>, pm: Seq<SegModel>, i: int) -> Seq<
    (Seq<SegModel>, DiffKind),
>
    decreases x, 1int, seq_limit(x, y) - i,
    via seq_entries_from_dec
{
    if i < 0 || i >= seq_limit(x, y) {
        Seq::empty()
    } else {
        let child = pm.push(SegModel::Index(i));
        (if i < x@.len() && i < y@.len() {
            value_entries(x@[i], y@[i], child)
        } else if i < x@.len() {
            seq![(child, DiffKind::Removed)]
        } else {
            seq![(child, DiffKind::Added)]
        }) + seq_entries_from(x, y, pm, i + 1)
    }
}

#[via_fn]
proof fn seq_entries_from_dec(x: Vec<Value>, y: Vec<Value>, pm: Seq<SegModel>, i: int) {
    broadcast use vstd::std_specs::vec::axiom_vec_index_decreases;

    if 0 <= i < x@.len() {
        assert(decreases_to!(x => x[i]));
    }
    if 0 <= i < y@.len() {
        assert(decreases_to!(y => y[i]));
    }
}

/// Entries for one paired mapping entry of the previous side: removed when
/// its key is absent from the current side, recursed otherwise.
pub open spec fn pair_entries(
    p: (String, Value),
    found: Option<Value>,
    child: Seq<SegModel>,
) -> Seq<(Seq<SegModel>, DiffKind)>
    decreases p, 0int, 0int,
{
    match found {
        Option::None => seq![(child, DiffKind::Removed)],
        Option::Some(yv) => value_entries(p.1, yv, child),
    }
}

/// Entries for the previous-side keys from `i` on of a paired mapping level.
pub open spec fn map_paired_from(
    x: Vec<(String, Value)>,
    y: Vec<(String, Value)>,
    pm: Seq<SegModel>,
    i: int,
) -> Seq<(Seq<SegModel>, DiffKind)>
    decreases x, 1int, x@.len() - i,
{
    if i < 0 || i >= x@.len() {
        Seq::empty()
    } else {
        let k = x@[i].0@;
        pair_entries(x@[i], entries_lookup(y@, k), pm.push(SegModel::Key(k)))
            + map_paired_from(x, y, pm, i + 1)
    }
}

/// Entries for the current-side keys from `j` on of a paired mapping level:
/// a key absent from the previous side is added.
pub open spec fn map_added_from(
    x: Vec<(String, Value)>,
    y: Vec<(String, Value)>,
    pm: Seq<SegModel>,
    j: int,
) -> Seq<(Seq<SegModel>, DiffKind)>
    decreases y@.len() - j,
{
    if j < 0 || j >= y@.len() {
        Seq::empty()
    } else {
        let k = y@[j].0@;
        (match entries_lookup(x@, k) {
            Option::None => seq![(pm.push(SegModel::Key(k)), DiffKind::Added)],
            Option::Some(_) => Seq::empty(),
        }) + map_added_from(x, y, pm, j + 1)
    }
}

/// All recorded entries for a pair of snapshot levels.
pub open spec fn snap_entries(prevs: Vec<(String, Value)>, currs: Vec<(String, Value)>) -> Seq<
    (Seq<SegModel>, DiffKind),
> {
    map_paired_from(prevs, currs, Seq::empty(), 0) + map_added_from(prevs, currs, Seq::empty(), 0)
}

/// The sparse change table produced by a diff: path to classification,
/// absence meaning unchanged.
pub struct DiffResult {
    pub changes: Vec<(TreePath, DiffKind)>,
}

/// The mathematical image of a change list.
pub open spec fn list_model(s: Seq<(TreePath, DiffKind)>) -> Seq<(Seq<SegModel>, DiffKind)> {
    Seq::new(s.len(), |i: int| (path_model(s[i].0@), s[i].1))
}

/// The classification stored for `p`: the first entry with that path, or
/// unchanged when there is none.
pub open spec fn entries_class(entries: Seq<(Seq<SegModel>, DiffKind)>, p: Seq<SegModel>)
    -> DiffKind
    decreases entries.len(),
{
    if entries.len() == 0 {
        DiffKind::Unchanged
    } else if entries[0].0 == p {
        entries[0].1
    } else {
        entries_class(entries.drop_first(), p)
    }
}

impl DiffResult {
    /// The mathematical image: the recorded (path, classification) pairs in
    /// order.
    pub open spec fn model(self) -> Seq<(Seq<SegModel>, DiffKind)> {
        list_model(self.changes@)
    }

    /// An empty table: everything unchanged.
    pub fn empty() -> (d: DiffResult)
        ensures
            d.model() == Seq::<(Seq<SegModel>, DiffKind)>::empty(),
    {
        let d = DiffResult { changes: Vec::new() };
        proof {
            assert(d.model() =~= Seq::<(Seq<SegModel>, DiffKind)>::empty());
        }
        d
    }

    /// The classification stored for `p`, unchanged when none is.
    pub fn get(&self, p: &TreePath) -> (k: DiffKind)
        ensures
            k == entries_class(self.model(), path_model(p@)),
    {
        let n = self.changes.len();
        proof {
            assert(self.model().skip(0) =~= self.model());
        }
        for i in 0..n
            invariant
                n == self.changes@.len(),
                entries_class(self.model(), path_model(p@)) == entries_class(
                    self.model().skip(i as int),
                    path_model(p@),
                ),
        {
            let ghost rest = self.model().skip(i as int);
            assert(rest[0] == self.model()[i as int]);
            if crate::value::path_eq(&self.changes[i].0, p) {
                return self.changes[i].1;
            }
            proof {
                assert(rest.drop_first() =~= self.model().skip(i as int + 1));
            }
        }
        proof {
            assert(self.model().skip(n as int) =~= Seq::<(Seq<SegModel>, DiffKind)>::empty());
        }
        DiffKind::Unchanged
    }

    /// The recorded paths, in order, as fresh path values.
    pub fn changed_paths(&self) -> (r: Vec<TreePath>)
        ensures
            r@.len() == self.model().len(),
            forall|i: int|
                0 <= i < r@.len() ==> path_model(#[trigger] r@[i]@) == self.model()[i].0,
    {
        let mut r: Vec<TreePath> = Vec::new();
        let n = self.changes.len();
        for i in 0..n
            invariant
                n == self.changes@.len(),
                r@.len() == i,
                forall|j: int|
                    0 <= j < i ==> path_model(#[trigger] r@[j]@) == self.model()[j].0,
        {
            r.push(path_clone(&self.changes[i].0));
        }
        r
    }
}

/// The value stored under `k` at one exec mapping level, if any.
fn map_find<'a>(entries: &'a Vec<(String, Value)>, k: &String) -> (r: Option<&'a Value>)
    ensures
        match r {
            Option::Some(v) => entries_lookup(entries@, k@) == Option::Some(*v),
            Option::None => entries_lookup(entries@, k@) is None,
        },
{
    let n = entries.len();
    proof {
        assert(entries@.skip(0) =~= entries@);
    }
    for i in 0..n
        invariant
            n == entries@.len(),
            entries_lookup(entries@, k@) == entries_lookup(entries@.skip(i as int), k@),
    {
        let ghost rest = entries@.skip(i as int);
        assert(rest[0] == entries@[i as int]);
        if entries[i].0 == *k {
            return Some(&entries[i].1);
        }
        proof {
            assert(rest.drop_first() =~= entries@.skip(i as int + 1));
        }
    }
    proof {
        assert(entries@.skip(n as int) =~= Seq::<(String, Value)>::empty());
    }
    None
}

/// Appends one entry, extending the model by one pair.
fn push_entry(out: &mut Vec<(TreePath, DiffKind)>, p: TreePath, k: DiffKind)
    ensures
        list_model(final(out)@) == list_model(old(out)@) + seq![(path_model(p@), k)],
{
    out.push((p, k));
    proof {
        assert(list_model(out@) =~= list_model(old(out)@) + seq![(path_model(p@), k)]);
    }
}

/// Records the entries for the subtree pair at `path` onto `out`.
fn diff_value(a: &Value, b: &Value, path: &TreePath, out: &mut Vec<(TreePath, DiffKind)>)
    ensures
        list_model(final(out)@) == list_model(old(out)@) + value_entries(
            *a,
            *b,
            path_model(path@),
        ),
    decreases *a, 0int, 0int,
{
    match (a, b) {
        (Value::Sequence(x), Value::Sequence(y)) => {
            proof {
                assert(*a == Value::Sequence(*x));
                assert(decreases_to!(*a => a->Sequence_0));
            }
            diff_seq_from(x, y, path, 0, out);
        },
        (Value::Mapping(x), Value::Mapping(y)) => {
            proof {
                assert(*a == Value::Mapping(*x));
                assert(decreases_to!(*a => a->Mapping_0));
            }
            diff_map_from(x, y, path, 0, out);
            diff_added_from(x, y, path, 0, out);
            proof {
                assert(list_model(out@) =~= list_model(old(out)@) + value_entries(
                    *a,
                    *b,
                    path_model(path@),
                ));
            }
        },
        _ => {
            let modified = match (a, b) {
                (Value::Scalar(s), Value::Scalar(t)) => *s != *t,
                _ => true,
            };
            if modified {
                push_entry(out, path_clone(path), DiffKind::Modified);
            }
            proof {
                assert(list_model(out@) =~= list_model(old(out)@) + value_entries(
                    *a,
                    *b,
                    path_model(path@),
                ));
            }
        },
    }
}

/// Records the entries for the index positions from `i` on of a paired
/// sequence level at `path` onto `out`.
fn diff_seq_from(
    x: &Vec<Value>,
    y: &Vec<Value>,
    path: &TreePath,
    i: usize,
    out: &mut Vec<(TreePath, DiffKind)>,
)
    ensures
        list_model(final(out)@) == list_model(old(out)@) + seq_entries_from(
            *x,
            *y,
            path_model(path@),
            i as int,
        ),
    decreases *x, 1int, seq_limit(*x, *y) - i,
{
    let xl = x.len();
    let yl = y.len();
    let lim = if xl >= yl {
        xl
    } else {
        yl
    };
    if i >= lim {
        proof {
            assert(list_model(out@) =~= list_model(old(out)@) + seq_entries_from(
                *x,
                *y,
                path_model(path@),
                i as int,
            ));
        }
        return ;
    }
    let child = path_push(path, PathSeg::Index(i));
    if i < xl && i < yl {
        proof {
            assert(decreases_to!(*x => x@[i as int]));
        }
        diff_value(&x[i], &y[i], &child, out);
    } else if i < xl {
        push_entry(out, child, DiffKind::Removed);
    } else {
        push_entry(out, child, DiffKind::Added);
    }
    diff_seq_from(x, y, path, i + 1, out);
    proof {
        assert(list_model(out@) =~= list_model(old(out)@) + seq_entries_from(
            *x,
            *y,
            path_model(path@),
            i as int,
        ));
    }
}

/// Records the entries for one paired previous-side mapping entry onto
/// `out`.
fn diff_pair(
    p: &(String, Value),
    found: Option<&Value>,
    child: TreePath,
    out: &mut Vec<(TreePath, DiffKind)>,
)
    ensures
        list_model(final(out)@) == list_model(old(out)@) + pair_entries(
            *p,
            match found {
                Option::Some(v) => Option::Some(*v),
                Option::None => Option::None,
            },
            path_model(child@),
        ),
    decreases *p, 0int, 0int,
{
    match found {
        None => {
            push_entry(out, child, DiffKind::Removed);
        },
        Some(yv) => {
            proof {
                assert(decreases_to!(*p => p.1));
            }
            diff_value(&p.1, yv, &child, out);
        },
    }
}

/// Records the entries for the previous-side keys from `i` on of a paired
/// mapping level at `path` onto `out`.
fn diff_map_from(
    x: &Vec<(String, Value)>,
    y: &Vec<(String, Value)>,
    path: &TreePath,
    i: usize,
    out: &mut Vec<(TreePath, DiffKind)>,
)
    ensures
        list_model(final(out)@) == list_model(old(out)@) + map_paired_from(
            *x,
            *y,
            path_model(path@),
            i as int,
        ),
    decreases *x, 2int, x@.len() - i,
{
    if i >= x.len() {
        proof {
            assert(list_model(out@) =~= list_model(old(out)@) + map_paired_from(
                *x,
                *y,
                path_model(path@),
                i as int,
            ));
        }
        return ;
    }
    let child = path_push(path, PathSeg::Key(x[i].0.clone()));
    let found = map_find(y, &x[i].0);
    proof {
        assert(decreases_to!(*x => x@[i as int]));
    }
    diff_pair(&x[i], found, child, out);
    diff_map_from(x, y, path, i + 1, out);
    proof {
        assert(list_model(out@) =~= list_model(old(out)@) + map_paired_from(
            *x,
            *y,
            path_model(path@),
            i as int,
        ));
    }
}

/// Records the added entries for the current-side keys from `j` on of a
/// paired mapping level at `path` onto `out`.
fn diff_added_from(
    x: &Vec<(String, Value)>,
    y: &Vec<(String, Value)>,
    path: &TreePath,
    j: usize,
    out: &mut Vec<(TreePath, DiffKind)>,
)
    ensures
        list_model(final(out)@) == list_model(old(out)@) + map_added_from(
            *x,
            *y,
            path_model(path@),
            j as int,
        ),
    decreases y@.len() - j,
{
    if j >= y.len() {
        proof {
            assert(list_model(out@) =~= list_model(old(out)@) + map_added_from(
                *x,
                *y,
                path_model(path@),
                j as int,
            ));
        }
        return ;
    }
    if map_find(x, &y[j].0).is_none() {
        let child = path_push(path, PathSeg::Key(y[j].0.clone()));
        push_entry(out, child, DiffKind::Added);
    }
    diff_added_from(x, y, path, j + 1, out);
    proof {
        assert(list_model(out@) =~= list_model(old(out)@) + map_added_from(
            *x,
            *y,
            path_model(path@),
            j as int,
        ));
    }
}

/// Computes the structural diff of two snapshot levels.
///
/// The result records exactly the entries of `snap_entries`: removed and
/// recursed previous-side names first, then added current-side names; no
/// unchanged node is recorded, and descendants of an added or removed root
/// are left implicit.
pub fn compute_diff(prev: &Vec<(String, Value)>, curr: &Vec<(String, Value)>) -> (d: DiffResult)
    ensures
        d.model() == snap_entries(*prev, *curr),
{
    let mut changes: Vec<(TreePath, DiffKind)> = Vec::new();
    let root: TreePath = Vec::new();
    proof {
        assert(path_model(root@) =~= Seq::<SegModel>::empty());
        assert(list_model(changes@) =~= Seq::<(Seq<SegModel>, DiffKind)>::empty());
    }
    diff_map_from(prev, curr, &root, 0, &mut changes);
    diff_added_from(prev, curr, &root, 0, &mut changes);
    let d = DiffResult { changes };
    proof {
        assert(d.model() =~= snap_entries(*prev, *curr));
    }
    d
}

/// Whether the entry list records exactly the pair `(p, k)`.
pub open spec fn has_entry(
    entries: Seq<(Seq<SegModel>, DiffKind)>,
    p: Seq<SegModel>,
    k: DiffKind,
) -> bool {
    exists|i: int| 0 <= i < entries.len() && entries[i] == (p, k)
}

/// Membership in a concatenation is membership in either part.
pub proof fn lemma_has_entry_concat(
    a: Seq<(Seq<SegModel>, DiffKind)>,
    b: Seq<(Seq<SegModel>, DiffKind)>,
    p: Seq<SegModel>,
    k: DiffKind,
)
    ensures
        has_entry(a + b, p, k) == (has_entry(a, p, k) || has_entry(b, p, k)),
{
    if has_entry(a + b, p, k) {
        let i = choose|i: int| 0 <= i < (a + b).len() && (a + b)[i] == (p, k);
        if i < a.len() {
            assert(a[i] == (p, k));
        } else {
            assert(b[i - a.len()] == (p, k));
        }
    }
    if has_entry(a, p, k) {
        let i = choose|i: int| 0 <= i < a.len() && a[i] == (p, k);
        assert((a + b)[i] == (p, k));
    }
    if has_entry(b, p, k) {
        let i = choose|i: int| 0 <= i < b.len() && b[i] == (p, k);
        assert((a + b)[a.len() + i] == (p, k));
    }
}

/// Membership in a one-entry list is equality with that entry.
pub proof fn lemma_has_entry_singleton(e: (Seq<SegModel>, DiffKind), p: Seq<SegModel>, k: DiffKind)
    ensures
        has_entry(seq![e], p, k) == (e == (p, k)),
{
    if e == (p, k) {
        assert(seq![e][0] == (p, k));
    }
    if has_entry(seq![e], p, k) {
        let i = choose|i: int| 0 <= i < seq![e].len() && seq![e][i] == (p, k);
        assert(i == 0);
    }
}

/// A lookup succeeds exactly when some entry carries the key.
pub proof fn lemma_lookup_some_index(e: Seq<(String, Value)>, k: Seq<char>)
    ensures
        (entries_lookup(e, k) is Some) == (exists|j: int| 0 <= j < e.len() && (#[trigger] e[j]).0@
            == k),
    decreases e.len(),
{
    if e.len() > 0 {
        lemma_lookup_some_index(e.drop_first(), k);
        if e[0].0@ == k {
            assert(e[0].0@ == k);
        } else {
            if exists|j: int| 0 <= j < e.len() && (#[trigger] e[j]).0@ == k {
                let j = choose|j: int| 0 <= j < e.len() && (#[trigger] e[j]).0@ == k;
                assert(e.drop_first()[j - 1] == e[j]);
            }
            if entries_lookup(e, k) is Some {
                let j = choose|j: int|
                    0 <= j < e.drop_first().len() && (#[trigger] e.drop_first()[j]).0@ == k;
                assert(e[j + 1] == e.drop_first()[j]);
            }
        }
    }
}

/// Under unique keys, a lookup returns the value of the one entry with the
/// key.
pub proof fn lemma_lookup_at_index(e: Seq<(String, Value)>, k: Seq<char>, j: int)
    requires
        keys_unique(e),
        0 <= j < e.len(),
        e[j].0@ == k,
    ensures
        entries_lookup(e, k) == Option::Some(e[j].1),
    decreases e.len(),
{
    if e[0].0@ == k {
        assert(j == 0);
    } else {
        assert(j >= 1);
        assert forall|a: int, b: int|
            0 <= a < b < e.drop_first().len() implies (#[trigger] e.drop_first()[a]).0@ != (
        #[trigger] e.drop_first()[b]).0@ by {
            assert(e.drop_first()[a] == e[a + 1]);
            assert(e.drop_first()[b] == e[b + 1]);
        }
        assert(e.drop_first()[j - 1] == e[j]);
        lemma_lookup_at_index(e.drop_first(), k, j - 1);
    }
}

/// What it means for `(p, k)` to stem from previous-side entry `j` of a
/// paired mapping level.
pub open spec fn mpf_entry_pred(
    x: Vec<(String, Value)>,
    y: Vec<(String, Value)>,
    pm: Seq<SegModel>,
    j: int,
    p: Seq<SegModel>,
    k: DiffKind,
) -> bool {
    let key = x@[j].0@;
    match entries_lookup(y@, key) {
        Option::None => p == pm.push(SegModel::Key(key)) && k == DiffKind::Removed,
        Option::Some(yv) => has_entry(value_entries(x@[j].1, yv, pm.push(SegModel::Key(key))), p, k),
    }
}

/// What it means for `(p, k)` to stem from current-side entry `jj` of a
/// paired mapping level.
pub open spec fn maf_entry_pred(
    x: Vec<(String, Value)>,
    y: Vec<(String, Value)>,
    pm: Seq<SegModel>,
    jj: int,
    p: Seq<SegModel>,
    k: DiffKind,
) -> bool {
    entries_lookup(x@, y@[jj].0@) is None && p == pm.push(SegModel::Key(y@[jj].0@)) && k
        == DiffKind::Added
}

/// The previous-side entries are exactly those stemming from some
/// previous-side key.
pub proof fn lemma_mpf_char(
    x: Vec<(String, Value)>,
    y: Vec<(String, Value)>,
    pm: Seq<SegModel>,
    i: int,
    p: Seq<SegModel>,
    k: DiffKind,
)
    requires
        0 <= i,
    ensures
        has_entry(map_paired_from(x, y, pm, i), p, k) == (exists|j: int|
            i <= j < x@.len() && #[trigger] mpf_entry_pred(x, y, pm, j, p, k)),
    decreases x@.len() - i,
{
    if i < 0 || i >= x@.len() {
    } else {
        let key = x@[i].0@;
        let child = pm.push(SegModel::Key(key));
        let part = pair_entries(x@[i], entries_lookup(y@, key), child);
        let rest = map_paired_from(x, y, pm, i + 1);
        lemma_mpf_char(x, y, pm, i + 1, p, k);
        lemma_has_entry_concat(part, rest, p, k);
        match entries_lookup(y@, key) {
            Option::None => {
                lemma_has_entry_singleton((child, DiffKind::Removed), p, k);
                assert(has_entry(part, p, k) == mpf_entry_pred(x, y, pm, i, p, k));
            },
            Option::Some(_) => {
                assert(has_entry(part, p, k) == mpf_entry_pred(x, y, pm, i, p, k));
            },
        }
        if has_entry(map_paired_from(x, y, pm, i), p, k) {
            if has_entry(part, p, k) {
                assert(mpf_entry_pred(x, y, pm, i, p, k));
            } else {
                let j = choose|j: int|
                    i + 1 <= j < x@.len() && #[trigger] mpf_entry_pred(x, y, pm, j, p, k);
                assert(mpf_entry_pred(x, y, pm, j, p, k));
            }
        }
        if exists|j: int| i <= j < x@.len() && #[trigger] mpf_entry_pred(x, y, pm, j, p, k) {
            let j = choose|j: int|
                i <= j < x@.len() && #[trigger] mpf_entry_pred(x, y, pm, j, p, k);
            if j == i {
                assert(has_entry(part, p, k));
            } else {
                assert(has_entry(rest, p, k));
            }
        }
    }
}

/// The current-side entries are exactly the added keys.
pub proof fn lemma_maf_char(
    x: Vec<(String, Value)>,
    y: Vec<(String, Value)>,
    pm: Seq<SegModel>,
    i: int,
    p: Seq<SegModel>,
    k: DiffKind,
)
    requires
        0 <= i,
    ensures
        has_entry(map_added_from(x, y, pm, i), p, k) == (exists|jj: int|
            i <= jj < y@.len() && #[trigger] maf_entry_pred(x, y, pm, jj, p, k)),
    decreases y@.len() - i,
{
    if i < 0 || i >= y@.len() {
    } else {
        let key = y@[i].0@;
        let part: Seq<(Seq<SegModel>, DiffKind)> = match entries_lookup(x@, key) {
            Option::None => seq![(pm.push(SegModel::Key(key)), DiffKind::Added)],
            Option::Some(_) => Seq::empty(),
        };
        let rest = map_added_from(x, y, pm, i + 1);
        lemma_maf_char(x, y, pm, i + 1, p, k);
        lemma_has_entry_concat(part, rest, p, k);
        if entries_lookup(x@, key) is None {
            lemma_has_entry_singleton((pm.push(SegModel::Key(key)), DiffKind::Added), p, k);
        }
        assert(has_entry(part, p, k) == maf_entry_pred(x, y, pm, i, p, k));
        if has_entry(map_added_from(x, y, pm, i), p, k) {
            if has_entry(part, p, k) {
                assert(maf_entry_pred(x, y, pm, i, p, k));
            } else {
                let jj = choose|jj: int|
                    i + 1 <= jj < y@.len() && #[trigger] maf_entry_pred(x, y, pm, jj, p, k);
                assert(maf_entry_pred(x, y, pm, jj, p, k));
            }
        }
        if exists|jj: int| i <= jj < y@.len() && #[trigger] maf_entry_pred(x, y, pm, jj, p, k) {
            let jj = choose|jj: int|
                i <= jj < y@.len() && #[trigger] maf_entry_pred(x, y, pm, jj, p, k);
            if jj == i {
                assert(has_entry(part, p, k));
            } else {
                assert(has_entry(rest, p, k));
            }
        }
    }
}

/// Symmetry of one paired previous-side entry against its counterpart.
proof fn lemma_pair_sym(
    e: (String, Value),
    yv: Value,
    child: Seq<SegModel>,
    p: Seq<SegModel>,
    k: DiffKind,
)
    requires
        value_wf(e.1),
        value_wf(yv),
    ensures
        has_entry(value_entries(e.1, yv, child), p, k) == has_entry(
            value_entries(yv, e.1, child),
            p,
            flip_kind(k),
        ),
    decreases e, 3int, 0int,
{
    lemma_value_entries_sym(e.1, yv, child, p, k);
}

/// Symmetry of a whole paired mapping level.
proof fn lemma_map_level_sym(
    x: Vec<(String, Value)>,
    y: Vec<(String, Value)>,
    pm: Seq<SegModel>,
    p: Seq<SegModel>,
    k: DiffKind,
)
    requires
        entries_wf(x@),
        entries_wf(y@),
    ensures
        has_entry(map_paired_from(x, y, pm, 0) + map_added_from(x, y, pm, 0), p, k) == has_entry(
            map_paired_from(y, x, pm, 0) + map_added_from(y, x, pm, 0),
            p,
            flip_kind(k),
        ),
    decreases x, 2int, 0int,
{
    broadcast use vstd::std_specs::vec::axiom_vec_index_decreases;

    lemma_mpf_char(x, y, pm, 0, p, k);
    lemma_maf_char(x, y, pm, 0, p, k);
    lemma_mpf_char(y, x, pm, 0, p, flip_kind(k));
    lemma_maf_char(y, x, pm, 0, p, flip_kind(k));
    lemma_has_entry_concat(map_paired_from(x, y, pm, 0), map_added_from(x, y, pm, 0), p, k);
    lemma_has_entry_concat(
        map_paired_from(y, x, pm, 0),
        map_added_from(y, x, pm, 0),
        p,
        flip_kind(k),
    );
    if exists|j: int| 0 <= j < x@.len() && #[trigger] mpf_entry_pred(x, y, pm, j, p, k) {
        let j = choose|j: int| 0 <= j < x@.len() && #[trigger] mpf_entry_pred(x, y, pm, j, p, k);
        let key = x@[j].0@;
        match entries_lookup(y@, key) {
            Option::None => {
                assert(maf_entry_pred(y, x, pm, j, p, flip_kind(k)));
            },
            Option::Some(yv) => {
                lemma_lookup_some_index(y@, key);
                let jy = choose|jy: int| 0 <= jy < y@.len() && (#[trigger] y@[jy]).0@ == key;
                lemma_lookup_at_index(y@, key, jy);
                lemma_lookup_at_index(x@, key, j);
                assert(decreases_to!(x => x[j]));
                assert(value_wf(x@[j].1));
                assert(value_wf(y@[jy].1));
                lemma_pair_sym(x@[j], yv, pm.push(SegModel::Key(key)), p, k);
                assert(mpf_entry_pred(y, x, pm, jy, p, flip_kind(k)));
            },
        }
    }
    if exists|jj: int| 0 <= jj < y@.len() && #[trigger] maf_entry_pred(x, y, pm, jj, p, k) {
        let jj = choose|jj: int|
            0 <= jj < y@.len() && #[trigger] maf_entry_pred(x, y, pm, jj, p, k);
        assert(mpf_entry_pred(y, x, pm, jj, p, flip_kind(k)));
    }
    if exists|j: int| 0 <= j < y@.len() && #[trigger] mpf_entry_pred(y, x, pm, j, p, flip_kind(k)) {
        let j = choose|j: int|
            0 <= j < y@.len() && #[trigger] mpf_entry_pred(y, x, pm, j, p, flip_kind(k));
        let key = y@[j].0@;
        match entries_lookup(x@, key) {
            Option::None => {
                assert(maf_entry_pred(x, y, pm, j, p, k));
            },
            Option::Some(xv) => {
                lemma_lookup_some_index(x@, key);
                let jx = choose|jx: int| 0 <= jx < x@.len() && (#[trigger] x@[jx]).0@ == key;
                lemma_lookup_at_index(x@, key, jx);
                lemma_lookup_at_index(y@, key, j);
                assert(decreases_to!(x => x[jx]));
                assert(value_wf(x@[jx].1));
                assert(value_wf(y@[j].1));
                lemma_pair_sym(x@[jx], y@[j].1, pm.push(SegModel::Key(key)), p, k);
                assert(mpf_entry_pred(x, y, pm, jx, p, k));
            },
        }
    }
    if exists|jj: int| 0 <= jj < x@.len() && #[trigger] maf_entry_pred(y, x, pm, jj, p, flip_kind(k)) {
        let jj = choose|jj: int|
            0 <= jj < x@.len() && #[trigger] maf_entry_pred(y, x, pm, jj, p, flip_kind(k));
        assert(mpf_entry_pred(x, y, pm, jj, p, k));
    }
}

/// Symmetry of a paired sequence level from position `i` on.
proof fn lemma_seq_entries_sym(
    x: Vec<Value>,
    y: Vec<Value>,
    pm: Seq<SegModel>,
    i: int,
    p: Seq<SegModel>,
    k: DiffKind,
)
    requires
        value_wf(Value::Sequence(x)),
        value_wf(Value::Sequence(y)),
    ensures
        has_entry(seq_entries_from(x, y, pm, i), p, k) == has_entry(
            seq_entries_from(y, x, pm, i),
            p,
            flip_kind(k),
        ),
    decreases x, 1int, seq_limit(x, y) - i,
{
    broadcast use vstd::std_specs::vec::axiom_vec_index_decreases;

    assert(seq_limit(y, x) == seq_limit(x, y));
    if i < 0 || i >= seq_limit(x, y) {
    } else {
        let child = pm.push(SegModel::Index(i));
        let part_xy: Seq<(Seq<SegModel>, DiffKind)> = if i < x@.len() && i < y@.len() {
            value_entries(x@[i], y@[i], child)
        } else if i < x@.len() {
            seq![(child, DiffKind::Removed)]
        } else {
            seq![(child, DiffKind::Added)]
        };
        let part_yx: Seq<(Seq<SegModel>, DiffKind)> = if i < y@.len() && i < x@.len() {
            value_entries(y@[i], x@[i], child)
        } else if i < y@.len() {
            seq![(child, DiffKind::Removed)]
        } else {
            seq![(child, DiffKind::Added)]
        };
        lemma_has_entry_concat(part_xy, seq_entries_from(x, y, pm, i + 1), p, k);
        lemma_has_entry_concat(part_yx, seq_entries_from(y, x, pm, i + 1), p, flip_kind(k));
        if i < x@.len() && i < y@.len() {
            assert(decreases_to!(x => x[i]));
            assert(value_wf(x@[i])) by {
                crate::value::lemma_seq_wf_at(x, 0, i);
            }
            assert(value_wf(y@[i])) by {
                crate::value::lemma_seq_wf_at(y, 0, i);
            }
            lemma_value_entries_sym(x@[i], y@[i], child, p, k);
        } else {
            lemma_has_entry_singleton((child, DiffKind::Removed), p, k);
            lemma_has_entry_singleton((child, DiffKind::Added), p, k);
            lemma_has_entry_singleton((child, DiffKind::Removed), p, flip_kind(k));
            lemma_has_entry_singleton((child, DiffKind::Added), p, flip_kind(k));
        }
        lemma_seq_entries_sym(x, y, pm, i + 1, p, k);
    }
}

/// Symmetry of the recorded entries of one subtree pair: swapping the two
/// sides swaps added and removed and keeps modified.
pub proof fn lemma_value_entries_sym(
    a: Value,
    b: Value,
    pm: Seq<SegModel>,
    p: Seq<SegModel>,
    k: DiffKind,
)
    requires
        value_wf(a),
        value_wf(b),
    ensures
        has_entry(value_entries(a, b, pm), p, k) == has_entry(
            value_entries(b, a, pm),
            p,
            flip_kind(k),
        ),
    decreases a, 0int, 0int,
{
    match (a, b) {
        (Value::Sequence(x), Value::Sequence(y)) => {
            lemma_seq_entries_sym(x, y, pm, 0, p, k);
        },
        (Value::Mapping(x), Value::Mapping(y)) => {
            assert(entries_wf(x@)) by {
                assert forall|j: int| 0 <= j < x@.len() implies value_wf(
                    #[trigger] x@[j].1,
                ) by {
                    crate::value::lemma_map_wf_at(x, 0, j);
                }
            }
            assert(entries_wf(y@)) by {
                assert forall|j: int| 0 <= j < y@.len() implies value_wf(
                    #[trigger] y@[j].1,
                ) by {
                    crate::value::lemma_map_wf_at(y, 0, j);
                }
            }
            lemma_map_level_sym(x, y, pm, p, k);
        },
        _ => {
            assert(leaf_class(a, b) == leaf_class(b, a));
            if leaf_class(a, b) != DiffKind::Unchanged {
                lemma_has_entry_singleton((pm, DiffKind::Modified), p, k);
                lemma_has_entry_singleton((pm, DiffKind::Modified), p, flip_kind(k));
            }
        },
    }
}

/// Diff symmetry: for well-formed snapshot levels, every path recorded
/// added one way round is recorded removed the other way round, and
/// modified paths are recorded identically in both directions.
pub proof fn lemma_diff_symmetry(
    prevs: Vec<(String, Value)>,
    currs: Vec<(String, Value)>,
    p: Seq<SegModel>,
    k: DiffKind,
)
    requires
        entries_wf(prevs@),
        entries_wf(currs@),
    ensures
        has_entry(snap_entries(prevs, currs), p, k) == has_entry(
            snap_entries(currs, prevs),
            p,
            flip_kind(k),
        ),
{
    lemma_map_level_sym(prevs, currs, Seq::empty(), p, k);
}

/// A recorded entry of one mapping-level pair that is not a removal names a
/// node of the current side.
proof fn lemma_map_entry_in_current(
    x: Vec<(String, Value)>,
    y: Vec<(String, Value)>,
    pm: Seq<SegModel>,
    p: Seq<SegModel>,
    k: DiffKind,
)
    requires
        has_entry(map_paired_from(x, y, pm, 0) + map_added_from(x, y, pm, 0), p, k),
        k != DiffKind::Removed,
    ensures
        exists|q: Seq<SegModel>|
            p == pm + q && q.len() >= 1 && #[trigger] value_at(Value::Mapping(y), q) is Some,
    decreases y, 1int, 0int,
{
    broadcast use vstd::std_specs::vec::axiom_vec_index_decreases;

    lemma_mpf_char(x, y, pm, 0, p, k);
    lemma_maf_char(x, y, pm, 0, p, k);
    lemma_has_entry_concat(map_paired_from(x, y, pm, 0), map_added_from(x, y, pm, 0), p, k);
    if exists|j: int| 0 <= j < x@.len() && #[trigger] mpf_entry_pred(x, y, pm, j, p, k) {
        let j = choose|j: int| 0 <= j < x@.len() && #[trigger] mpf_entry_pred(x, y, pm, j, p, k);
        let key = x@[j].0@;
        let child = pm.push(SegModel::Key(key));
        match entries_lookup(y@, key) {
            Option::None => {
                assert(false);
            },
            Option::Some(yv) => {
                lemma_lookup_witness(y@, key);
                let jy = choose|jy: int|
                    0 <= jy < y@.len() && (#[trigger] y@[jy]).0@ == key && y@[jy].1
                        == entries_lookup(y@, key).unwrap();
                assert(decreases_to!(y => y[jy]));
                lemma_pair_in_current(x@[j].1, y@[jy], child, p, k);
                let q2 = choose|q2: Seq<SegModel>|
                    p == child + q2 && #[trigger] value_at(y@[jy].1, q2) is Some;
                let q = seq![SegModel::Key(key)] + q2;
                assert(p == pm + q) by {
                    assert(pm + q =~= child + q2);
                }
                assert(q.drop_first() =~= q2);
                assert(value_at(Value::Mapping(y), q) is Some);
            },
        }
    } else {
        let jj = choose|jj: int|
            0 <= jj < y@.len() && #[trigger] maf_entry_pred(x, y, pm, jj, p, k);
        let key = y@[jj].0@;
        let q = seq![SegModel::Key(key)];
        lemma_lookup_some_index(y@, key);
        assert(entries_lookup(y@, key) is Some);
        assert(p == pm + q) by {
            assert(pm + q =~= pm.push(SegModel::Key(key)));
        }
        assert(q.drop_first() =~= Seq::<SegModel>::empty());
        let cv = entries_lookup(y@, key).unwrap();
        assert(value_at(cv, Seq::<SegModel>::empty()) is Some);
        assert(value_at(Value::Mapping(y), q) == value_at(cv, q.drop_first()));
        assert(value_at(Value::Mapping(y), q) is Some);
    }
}

/// Carries the existence claim through one mapping entry of the current
/// side.
proof fn lemma_pair_in_current(
    a2: Value,
    e: (String, Value),
    child: Seq<SegModel>,
    p: Seq<SegModel>,
    k: DiffKind,
)
    requires
        has_entry(value_entries(a2, e.1, child), p, k),
        k != DiffKind::Removed,
    ensures
        exists|q2: Seq<SegModel>| p == child + q2 && #[trigger] value_at(e.1, q2) is Some,
    decreases e, 2int, 0int,
{
    lemma_value_entry_in_current(a2, e.1, child, p, k);
}

/// A recorded entry of one sequence-level pair that is not a removal names
/// a node of the current side.
proof fn lemma_seq_entry_in_current(
    x: Vec<Value>,
    y: Vec<Value>,
    pm: Seq<SegModel>,
    i: int,
    p: Seq<SegModel>,
    k: DiffKind,
)
    requires
        has_entry(seq_entries_from(x, y, pm, i), p, k),
        k != DiffKind::Removed,
        0 <= i,
    ensures
        exists|q: Seq<SegModel>|
            p == pm + q && q.len() >= 1 && #[trigger] value_at(Value::Sequence(y), q) is Some,
    decreases y, 1int, seq_limit(x, y) - i,
{
    broadcast use vstd::std_specs::vec::axiom_vec_index_decreases;

    let child = pm.push(SegModel::Index(i));
    let part: Seq<(Seq<SegModel>, DiffKind)> = if i < x@.len() && i < y@.len() {
        value_entries(x@[i], y@[i], child)
    } else if i < x@.len() {
        seq![(child, DiffKind::Removed)]
    } else {
        seq![(child, DiffKind::Added)]
    };
    lemma_has_entry_concat(part, seq_entries_from(x, y, pm, i + 1), p, k);
    if has_entry(part, p, k) {
        if i < x@.len() && i < y@.len() {
            assert(decreases_to!(y => y[i]));
            lemma_value_entry_in_current(x@[i], y@[i], child, p, k);
            let q2 = choose|q2: Seq<SegModel>|
                p == child + q2 && #[trigger] value_at(y@[i], q2) is Some;
            let q = seq![SegModel::Index(i)] + q2;
            assert(p == pm + q) by {
                assert(pm + q =~= child + q2);
            }
            assert(q.drop_first() =~= q2);
            assert(value_at(Value::Sequence(y), q) is Some);
        } else if i < x@.len() {
            lemma_has_entry_singleton((child, DiffKind::Removed), p, k);
            assert(false);
        } else {
            lemma_has_entry_singleton((child, DiffKind::Added), p, k);
            let q = seq![SegModel::Index(i)];
            assert(p == pm + q) by {
                assert(pm + q =~= child);
            }
            assert(q.drop_first() =~= Seq::<SegModel>::empty());
            assert(value_at(y@[i], Seq::<SegModel>::empty()) is Some);
            assert(value_at(Value::Sequence(y), q) == value_at(y@[i], q.drop_first()));
            assert(value_at(Value::Sequence(y), q) is Some);
        }
    } else {
        lemma_seq_entry_in_current(x, y, pm, i + 1, p, k);
    }
}

/// A recorded entry of a subtree pair that is not a removal names a node of
/// the current side, below the pair's path.
pub proof fn lemma_value_entry_in_current(
    a: Value,
    b: Value,
    pm: Seq<SegModel>,
    p: Seq<SegModel>,
    k: DiffKind,
)
    requires
        has_entry(value_entries(a, b, pm), p, k),
        k != DiffKind::Removed,
    ensures
        exists|q: Seq<SegModel>| p == pm + q && #[trigger] value_at(b, q) is Some,
    decreases b, 0int, 0int,
{
    match (a, b) {
        (Value::Sequence(x), Value::Sequence(y)) => {
            lemma_seq_entry_in_current(x, y, pm, 0, p, k);
        },
        (Value::Mapping(x), Value::Mapping(y)) => {
            lemma_map_entry_in_current(x, y, pm, p, k);
        },
        _ => {
            lemma_has_entry_singleton((pm, DiffKind::Modified), p, k);
            let q = Seq::<SegModel>::empty();
            assert(p == pm + q) by {
                assert(pm + q =~= pm);
            }
            assert(value_at(b, q) is Some);
        },
    }
}

/// A recorded diff entry that is not a removal names a node of the current
/// snapshot level.
pub proof fn lemma_changed_in_current(
    prevs: Vec<(String, Value)>,
    currs: Vec<(String, Value)>,
    p: Seq<SegModel>,
    k: DiffKind,
)
    requires
        has_entry(snap_entries(prevs, currs), p, k),
        k != DiffKind::Removed,
    ensures
        node_at(currs@, p) is Some,
{
    lemma_map_entry_in_current(prevs, currs, Seq::empty(), p, k);
    let q = choose|q: Seq<SegModel>|
        p == Seq::<SegModel>::empty() + q && q.len() >= 1 && #[trigger] value_at(
            Value::Mapping(currs),
            q,
        ) is Some;
    assert(p =~= q);
    match p[0] {
        SegModel::Key(_) => {
            assert(node_at(currs@, p) == value_at(Value::Mapping(currs), p));
        },
        SegModel::Index(_) => {
            assert(false);
        },
    }
}

} // verus!
