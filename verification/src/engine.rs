//! The comparison engine: configuration, the diff record, the recursive
//! diff specification and its executable implementation.

use vstd::prelude::*;
use crate::float_bits::{float_eq_bits_exec, tolerant_eq_bits, tolerant_eq_bits_exec};
use crate::model::{
    entries_h, index_path, insert_sorted, key_path, lookup, seq_h, sort_spec, sorted_entry_keys,
    vcmp, veq, vh, ValueModel, lemma_entries_h_index, lemma_insert_sorted_at, lemma_lookup_h,
    lemma_seq_h_index, lemma_sort_h,
};
use crate::paths::{index_path_exec, key_path_exec};
use crate::value::{
    arr_model, clone_value, dict_get, dict_get_sorted, entries_model, entries_sorted,
    value_cmp, value_eq, value_model, Value, lemma_array_view, lemma_dict_view,
};

verus! {

/// One detected difference, anchored to a path.  `Added` and `Removed`
/// carry the side that introduced the difference; `Changed` carries both.
#[derive(Debug, PartialEq)]
pub enum Diff {
    Added(String, Value),
    Removed(String, Value),
    Changed(String, Value, Value),
}

/// Model of a diff record: path text and value models.
pub enum DiffModel {
    Added(Seq<char>, ValueModel),
    Removed(Seq<char>, ValueModel),
    Changed(Seq<char>, ValueModel, ValueModel),
}

impl View for Diff {
    type V = DiffModel;

    open spec fn view(&self) -> DiffModel {
        match self {
            Diff::Added(p, v) => DiffModel::Added(p@, value_model(*v)),
            Diff::Removed(p, v) => DiffModel::Removed(p@, value_model(*v)),
            Diff::Changed(p, a, b) => DiffModel::Changed(p@, value_model(*a), value_model(*b)),
        }
    }
}

/// Model of a diff list, record-wise.
pub open spec fn diffs_model(s: Seq<Diff>) -> Seq<DiffModel> {
    s.map_values(|d: Diff| d@)
}

/// The comparison engine's configuration: immutable after construction,
/// reusable across any number of comparisons.
pub struct DeepDiff {
    /// Compare arrays without regard to element order.
    pub ignore_order: bool,
    /// Bit pattern of the tolerance bound for float leaves, if any.
    pub float_tolerance: Option<u64>,
    /// Read the tolerance as a relative bound rather than an absolute one.
    pub use_percent: bool,
}

/// Leaf equality: tolerant on a pair of floats when a tolerance is
/// configured, the library's exact value equality otherwise.
pub open spec fn leaf_equal(cfg: DeepDiff, a: ValueModel, b: ValueModel) -> bool {
    match (a, b) {
        (ValueModel::Float(x), ValueModel::Float(y)) => match cfg.float_tolerance {
            Some(t) => tolerant_eq_bits(x, y, t, cfg.use_percent),
            None => veq(a, b),
        },
        _ => veq(a, b),
    }
}

/// The diff of `a` against `b` at `path`: dict levels walk both key sets,
/// arrays walk positions (after sorting both sides when order is
/// ignored), and any other pairing is a leaf that is either equal or
/// reported as changed.
pub open spec fn diff_value(
    cfg: DeepDiff,
    a: ValueModel,
    b: ValueModel,
    path: Seq<char>,
) -> Seq<DiffModel>
    decreases vh(a) + vh(b), 2int, 0int,
        via diff_value_decreases
{
    match (a, b) {
        (ValueModel::Dict(x), ValueModel::Dict(y)) => diff_dict_pass1(cfg, x, y, path, 0)
            + diff_dict_added(x, y, path, 0),
        (ValueModel::Arr(x), ValueModel::Arr(y)) => if cfg.ignore_order {
            diff_arrays(cfg, sort_spec(x), sort_spec(y), path, 0)
        } else {
            diff_arrays(cfg, x, y, path, 0)
        },
        _ => if leaf_equal(cfg, a, b) {
            Seq::empty()
        } else {
            seq![DiffModel::Changed(path, a, b)]
        },
    }
}

#[via_fn]
proof fn diff_value_decreases(cfg: DeepDiff, a: ValueModel, b: ValueModel, path: Seq<char>) {
    match (a, b) {
        (ValueModel::Arr(x), ValueModel::Arr(y)) => {
            if cfg.ignore_order {
                lemma_sort_h(x);
                lemma_sort_h(y);
            }
        },
        _ => {},
    }
}

/// First dict pass, from entry `i` of `x` on: recurse where the key is
/// shared, report a removal where `y` lacks it.
pub open spec fn diff_dict_pass1(
    cfg: DeepDiff,
    x: Seq<(Seq<char>, ValueModel)>,
    y: Seq<(Seq<char>, ValueModel)>,
    path: Seq<char>,
    i: int,
) -> Seq<DiffModel>
    decreases 2 + entries_h(x) + entries_h(y), 1int, x.len() - i,
        via diff_dict_pass1_decreases
{
    if i < 0 || i >= x.len() {
        Seq::empty()
    } else {
        let head = match lookup(y, x[i].0) {
            Some(w) => diff_value(cfg, x[i].1, w, key_path(path, x[i].0)),
            None => seq![DiffModel::Removed(key_path(path, x[i].0), x[i].1)],
        };
        head + diff_dict_pass1(cfg, x, y, path, i + 1)
    }
}

#[via_fn]
proof fn diff_dict_pass1_decreases(
    cfg: DeepDiff,
    x: Seq<(Seq<char>, ValueModel)>,
    y: Seq<(Seq<char>, ValueModel)>,
    path: Seq<char>,
    i: int,
) {
    if 0 <= i < x.len() {
        lemma_entries_h_index(x, i);
        if lookup(y, x[i].0) is Some {
            lemma_lookup_h(y, x[i].0);
        }
    }
}

/// Second dict pass, from entry `i` of `y` on: report an addition for
/// every key that `x` lacks.
pub open spec fn diff_dict_added(
    x: Seq<(Seq<char>, ValueModel)>,
    y: Seq<(Seq<char>, ValueModel)>,
    path: Seq<char>,
    i: int,
) -> Seq<DiffModel>
    decreases y.len() - i,
{
    if i < 0 || i >= y.len() {
        Seq::empty()
    } else {
        let head: Seq<DiffModel> = if lookup(x, y[i].0) is None {
            seq![DiffModel::Added(key_path(path, y[i].0), y[i].1)]
        } else {
            Seq::empty()
        };
        head + diff_dict_added(x, y, path, i + 1)
    }
}

/// Positional array walk from index `i` on: recurse where both sides have
/// the position, report the survivor's record where only one does.  The
/// element path carries the index unless order is ignored, in which case
/// every record stays anchored to the parent path.
pub open spec fn diff_arrays(
    cfg: DeepDiff,
    x: Seq<ValueModel>,
    y: Seq<ValueModel>,
    path: Seq<char>,
    i: int,
) -> Seq<DiffModel>
    decreases 2 + seq_h(x) + seq_h(y), 1int, (if x.len() > y.len() { x.len() as int } else {
        y.len() as int
    }) - i,
        via diff_arrays_decreases
{
    let n = if x.len() > y.len() {
        x.len() as int
    } else {
        y.len() as int
    };
    if i < 0 || i >= n {
        Seq::empty()
    } else {
        let p = if cfg.ignore_order {
            path
        } else {
            index_path(path, i as nat)
        };
        let head = if i < x.len() && i < y.len() {
            diff_value(cfg, x[i], y[i], p)
        } else if i < x.len() {
            seq![DiffModel::Removed(p, x[i])]
        } else {
            seq![DiffModel::Added(p, y[i])]
        };
        head + diff_arrays(cfg, x, y, path, i + 1)
    }
}

#[via_fn]
proof fn diff_arrays_decreases(
    cfg: DeepDiff,
    x: Seq<ValueModel>,
    y: Seq<ValueModel>,
    path: Seq<char>,
    i: int,
) {
    if 0 <= i < x.len() {
        lemma_seq_h_index(x, i);
    }
    if 0 <= i < y.len() {
        lemma_seq_h_index(y, i);
    }
}

/// The model of a concatenation is the concatenation of the models.
pub proof fn lemma_diffs_model_concat(a: Seq<Diff>, b: Seq<Diff>)
    ensures
        diffs_model(a + b) == diffs_model(a) + diffs_model(b),
{
    assert(diffs_model(a + b) =~= diffs_model(a) + diffs_model(b));
}

/// The model of a push is a push of the model.
pub proof fn lemma_diffs_model_push(s: Seq<Diff>, d: Diff)
    ensures
        diffs_model(s.push(d)) == diffs_model(s).push(d@),
{
    assert(diffs_model(s.push(d)) =~= diffs_model(s).push(d@));
}

impl DeepDiff {
    /// A fresh engine: order-sensitive arrays, exact float equality.
    pub fn new() -> (r: DeepDiff)
        ensures
            r == (DeepDiff { ignore_order: false, float_tolerance: None, use_percent: false }),
    {
        DeepDiff { ignore_order: false, float_tolerance: None, use_percent: false }
    }

    /// The same engine with order-insensitive array comparison switched
    /// on or off.
    pub fn ignore_order(self, value: bool) -> (r: DeepDiff)
        ensures
            r == (DeepDiff { ignore_order: value, ..self }),
    {
        DeepDiff { ignore_order: value, ..self }
    }

    /// The same engine with tolerant float equality: `value` is the bit
    /// pattern of the bound, read as a relative bound when `use_percent`
    /// is set.
    pub fn float_tolerance(self, value: u64, use_percent: bool) -> (r: DeepDiff)
        ensures
            r == (DeepDiff { float_tolerance: Some(value), use_percent, ..self }),
    {
        DeepDiff { float_tolerance: Some(value), use_percent, ..self }
    }

    /// The ordered list of every difference between the two trees, per
    /// the diff specification, starting from the empty root path.
    pub fn compare(&self, v1: &Value, v2: &Value) -> (r: Vec<Diff>)
        ensures
            diffs_model(r@) == diff_value(*self, v1@, v2@, Seq::empty()),
    {
        let root = String::new();
        self.compare_recursive(v1, v2, root)
    }

    /// Leaf equality under this configuration (`leaf_equal` on the models).
    fn values_equal(&self, v1: &Value, v2: &Value) -> (r: bool)
        ensures
            r == leaf_equal(*self, v1@, v2@),
    {
        match (v1, v2) {
            (Value::Float(x), Value::Float(y)) => {
                match self.float_tolerance {
                    Some(t) => tolerant_eq_bits_exec(*x, *y, t, self.use_percent),
                    None => float_eq_bits_exec(*x, *y),
                }
            },
            _ => value_eq(v1, v2),
        }
    }

    /// Recursive diff walk (`diff_value` on the models).
    fn compare_recursive(&self, v1: &Value, v2: &Value, path: String) -> (r: Vec<Diff>)
        ensures
            diffs_model(r@) == diff_value(*self, v1@, v2@, path@),
        decreases vh(v1@) + vh(v2@), 2int,
    {
        match (v1, v2) {
            (Value::Dict(d1), Value::Dict(d2)) => {
                proof {
                    lemma_dict_view(*d1);
                    lemma_dict_view(*d2);
                }
                self.compare_dicts(d1, d2, path)
            },
            (Value::Array(a1), Value::Array(a2)) => {
                proof {
                    lemma_array_view(*a1);
                    lemma_array_view(*a2);
                }
                self.compare_arrays(a1, a2, path)
            },
            _ => {
                if self.values_equal(v1, v2) {
                    let r: Vec<Diff> = Vec::new();
                    proof {
                        assert(diffs_model(r@) =~= diff_value(*self, v1@, v2@, path@));
                    }
                    r
                } else {
                    let mut r: Vec<Diff> = Vec::new();
                    r.push(Diff::Changed(path, clone_value(v1), clone_value(v2)));
                    proof {
                        assert(diffs_model(r@) =~= diff_value(*self, v1@, v2@, path@));
                    }
                    r
                }
            },
        }
    }

    /// Dict comparison: both passes of the dict walk, appended.
    fn compare_dicts(
        &self,
        d1: &Vec<(String, Value)>,
        d2: &Vec<(String, Value)>,
        path: String,
    ) -> (r: Vec<Diff>)
        ensures
            diffs_model(r@) == diff_dict_pass1(*self, entries_model(d1@), entries_model(d2@),
                path@, 0) + diff_dict_added(entries_model(d1@), entries_model(d2@), path@, 0),
        decreases 2 + entries_h(entries_model(d1@)) + entries_h(entries_model(d2@)), 1int,
    {
        let ghost mx = entries_model(d1@);
        let ghost my = entries_model(d2@);
        let ghost p = path@;
        // With ascending keys (the usual case) each lookup is a binary
        // search; a malformed level falls back to the linear scan.
        let d1_sorted = entries_sorted(d1);
        let d2_sorted = entries_sorted(d2);
        let mut diffs: Vec<Diff> = Vec::new();
        proof {
            assert(diffs_model(diffs@) =~= Seq::<DiffModel>::empty());
            assert(Seq::<DiffModel>::empty() + diff_dict_pass1(*self, mx, my, p, 0)
                =~= diff_dict_pass1(*self, mx, my, p, 0));
        }
        let mut i: usize = 0;
        while i < d1.len()
            invariant
                i <= d1.len(),
                mx == entries_model(d1@),
                my == entries_model(d2@),
                p == path@,
                d2_sorted == sorted_entry_keys(my),
                diffs_model(diffs@) + diff_dict_pass1(*self, mx, my, p, i as int)
                    == diff_dict_pass1(*self, mx, my, p, 0),
            decreases d1.len() - i,
        {
            let ghost pass_i = diff_dict_pass1(*self, mx, my, p, i as int);
            let ghost pass_next = diff_dict_pass1(*self, mx, my, p, i as int + 1);
            let k = &d1[i].0;
            let new_path = key_path_exec(&path, k);
            let got = if d2_sorted {
                dict_get_sorted(d2, k)
            } else {
                dict_get(d2, k)
            };
            match got {
                Some(w) => {
                    proof {
                        lemma_entries_h_index(mx, i as int);
                        lemma_lookup_h(my, k@);
                    }
                    let mut sub = self.compare_recursive(&d1[i].1, w, new_path);
                    proof {
                        let ghost head = diff_value(*self, mx[i as int].1, w@, key_path(p, k@));
                        assert(pass_i == head + pass_next);
                        lemma_diffs_model_concat(diffs@, sub@);
                        assert((diffs_model(diffs@) + head) + pass_next
                            =~= diffs_model(diffs@) + (head + pass_next));
                    }
                    diffs.append(&mut sub);
                },
                None => {
                    let val = clone_value(&d1[i].1);
                    let ghost old_diffs = diffs@;
                    diffs.push(Diff::Removed(new_path, val));
                    proof {
                        let ghost head = seq![DiffModel::Removed(key_path(p, k@),
                            mx[i as int].1)];
                        assert(pass_i == head + pass_next);
                        lemma_diffs_model_push(old_diffs, Diff::Removed(new_path, val));
                        assert(diffs_model(diffs@) =~= diffs_model(old_diffs) + head);
                        assert((diffs_model(old_diffs) + head) + pass_next
                            =~= diffs_model(old_diffs) + (head + pass_next));
                    }
                },
            }
            i += 1;
        }
        proof {
            assert(diff_dict_pass1(*self, mx, my, p, d1.len() as int)
                =~= Seq::<DiffModel>::empty());
            assert(diffs_model(diffs@) + Seq::<DiffModel>::empty() =~= diffs_model(diffs@));
            assert(diffs_model(diffs@) + diff_dict_added(mx, my, p, 0)
                =~= diff_dict_pass1(*self, mx, my, p, 0) + diff_dict_added(mx, my, p, 0));
        }
        let ghost total = diff_dict_pass1(*self, mx, my, p, 0) + diff_dict_added(mx, my, p, 0);
        let mut j: usize = 0;
        while j < d2.len()
            invariant
                j <= d2.len(),
                mx == entries_model(d1@),
                my == entries_model(d2@),
                p == path@,
                d1_sorted == sorted_entry_keys(mx),
                total == diff_dict_pass1(*self, mx, my, p, 0) + diff_dict_added(mx, my, p, 0),
                diffs_model(diffs@) + diff_dict_added(mx, my, p, j as int) == total,
            decreases d2.len() - j,
        {
            let ghost add_j = diff_dict_added(mx, my, p, j as int);
            let ghost add_next = diff_dict_added(mx, my, p, j as int + 1);
            let k = &d2[j].0;
            let got = if d1_sorted {
                dict_get_sorted(d1, k)
            } else {
                dict_get(d1, k)
            };
            match got {
                Some(_) => {
                    proof {
                        assert(add_j == Seq::<DiffModel>::empty() + add_next);
                        assert(Seq::<DiffModel>::empty() + add_next =~= add_next);
                    }
                },
                None => {
                    let new_path = key_path_exec(&path, k);
                    let val = clone_value(&d2[j].1);
                    let ghost old_diffs = diffs@;
                    diffs.push(Diff::Added(new_path, val));
                    proof {
                        let ghost head = seq![DiffModel::Added(key_path(p, k@), my[j as int].1)];
                        assert(add_j == head + add_next);
                        lemma_diffs_model_push(old_diffs, Diff::Added(new_path, val));
                        assert(diffs_model(diffs@) =~= diffs_model(old_diffs) + head);
                        assert((diffs_model(old_diffs) + head) + add_next
                            =~= diffs_model(old_diffs) + (head + add_next));
                    }
                },
            }
            j += 1;
        }
        proof {
            assert(diff_dict_added(mx, my, p, d2.len() as int) =~= Seq::<DiffModel>::empty());
            assert(diffs_model(diffs@) + Seq::<DiffModel>::empty() =~= diffs_model(diffs@));
        }
        diffs
    }

    /// Array comparison: positional, over sorted copies when order is
    /// ignored.
    fn compare_arrays(&self, a1: &Vec<Value>, a2: &Vec<Value>, path: String) -> (r: Vec<Diff>)
        ensures
            diffs_model(r@) == if self.ignore_order {
                diff_arrays(*self, sort_spec(arr_model(a1@)), sort_spec(arr_model(a2@)), path@,
                    0)
            } else {
                diff_arrays(*self, arr_model(a1@), arr_model(a2@), path@, 0)
            },
        decreases 2 + seq_h(arr_model(a1@)) + seq_h(arr_model(a2@)), 1int,
    {
        if self.ignore_order {
            let s1 = sorted_copy(a1);
            let s2 = sorted_copy(a2);
            proof {
                lemma_sort_h(arr_model(a1@));
                lemma_sort_h(arr_model(a2@));
            }
            self.compare_arrays_ordered(&s1, &s2, path)
        } else {
            self.compare_arrays_ordered(a1, a2, path)
        }
    }

    /// The positional walk itself (`diff_arrays` on the models).
    fn compare_arrays_ordered(
        &self,
        a1: &Vec<Value>,
        a2: &Vec<Value>,
        path: String,
    ) -> (r: Vec<Diff>)
        ensures
            diffs_model(r@) == diff_arrays(*self, arr_model(a1@), arr_model(a2@), path@, 0),
        decreases 2 + seq_h(arr_model(a1@)) + seq_h(arr_model(a2@)), 0int,
    {
        let ghost mx = arr_model(a1@);
        let ghost my = arr_model(a2@);
        let ghost p = path@;
        let mut diffs: Vec<Diff> = Vec::new();
        let max_len = if a1.len() > a2.len() {
            a1.len()
        } else {
            a2.len()
        };
        proof {
            assert(diffs_model(diffs@) =~= Seq::<DiffModel>::empty());
            assert(Seq::<DiffModel>::empty() + diff_arrays(*self, mx, my, p, 0)
                =~= diff_arrays(*self, mx, my, p, 0));
        }
        let mut i: usize = 0;
        while i < max_len
            invariant
                i <= max_len,
                max_len == if a1.len() > a2.len() { a1.len() } else { a2.len() },
                mx == arr_model(a1@),
                my == arr_model(a2@),
                p == path@,
                diffs_model(diffs@) + diff_arrays(*self, mx, my, p, i as int)
                    == diff_arrays(*self, mx, my, p, 0),
            decreases max_len - i,
        {
            let ghost walk_i = diff_arrays(*self, mx, my, p, i as int);
            let ghost walk_next = diff_arrays(*self, mx, my, p, i as int + 1);
            let new_path = if self.ignore_order {
                path.clone()
            } else {
                index_path_exec(&path, i)
            };
            let ghost hp = if self.ignore_order { p } else { index_path(p, i as nat) };
            assert(new_path@ == hp);
            if i < a1.len() && i < a2.len() {
                proof {
                    lemma_seq_h_index(mx, i as int);
                    lemma_seq_h_index(my, i as int);
                }
                let mut sub = self.compare_recursive(&a1[i], &a2[i], new_path);
                proof {
                    let ghost head = diff_value(*self, mx[i as int], my[i as int], hp);
                    assert(walk_i == head + walk_next);
                    lemma_diffs_model_concat(diffs@, sub@);
                    assert((diffs_model(diffs@) + head) + walk_next
                        =~= diffs_model(diffs@) + (head + walk_next));
                }
                diffs.append(&mut sub);
            } else if i < a1.len() {
                let val = clone_value(&a1[i]);
                let ghost old_diffs = diffs@;
                diffs.push(Diff::Removed(new_path, val));
                proof {
                    let ghost head = seq![DiffModel::Removed(hp, mx[i as int])];
                    assert(walk_i == head + walk_next);
                    lemma_diffs_model_push(old_diffs, Diff::Removed(new_path, val));
                    assert(diffs_model(diffs@) =~= diffs_model(old_diffs) + head);
                    assert((diffs_model(old_diffs) + head) + walk_next
                        =~= diffs_model(old_diffs) + (head + walk_next));
                }
            } else {
                let val = clone_value(&a2[i]);
                let ghost old_diffs = diffs@;
                diffs.push(Diff::Added(new_path, val));
                proof {
                    let ghost head = seq![DiffModel::Added(hp, my[i as int])];
                    assert(walk_i == head + walk_next);
                    lemma_diffs_model_push(old_diffs, Diff::Added(new_path, val));
                    assert(diffs_model(diffs@) =~= diffs_model(old_diffs) + head);
                    assert((diffs_model(old_diffs) + head) + walk_next
                        =~= diffs_model(old_diffs) + (head + walk_next));
                }
            }
            i += 1;
        }
        proof {
            assert(diff_arrays(*self, mx, my, p, max_len as int) =~= Seq::<DiffModel>::empty());
            assert(diffs_model(diffs@) + Seq::<DiffModel>::empty() =~= diffs_model(diffs@));
        }
        diffs
    }
}

/// A copy of the elements, sorted stably under the library's value order
/// (`sort_spec` on the models).
fn sorted_copy(items: &Vec<Value>) -> (r: Vec<Value>)
    ensures
        arr_model(r@) == sort_spec(arr_model(items@)),
{
    let ghost m = arr_model(items@);
    let mut out: Vec<Value> = Vec::new();
    proof {
        assert(arr_model(out@) =~= Seq::<ValueModel>::empty());
        assert(m.subrange(0, 0) =~= Seq::<ValueModel>::empty());
        assert(sort_spec(m.subrange(0, 0)) == Seq::<ValueModel>::empty());
    }
    let mut i: usize = 0;
    while i < items.len()
        invariant
            i <= items.len(),
            m == arr_model(items@),
            arr_model(out@) == sort_spec(m.subrange(0, i as int)),
        decreases items.len() - i,
    {
        let x = clone_value(&items[i]);
        let ghost xm = value_model(x);
        let ghost pre = arr_model(out@);
        insert_into_sorted(&mut out, x);
        proof {
            let ghost grown = m.subrange(0, i as int + 1);
            assert(grown.last() == m[i as int]);
            assert(grown.drop_last() =~= m.subrange(0, i as int));
            assert(sort_spec(grown) == insert_sorted(xm, pre));
        }
        i += 1;
    }
    proof {
        assert(m.subrange(0, items.len() as int) =~= m);
    }
    out
}

/// Insert `x` into an already sorted vector, after every element not
/// strictly greater than it (`insert_sorted` on the models).
fn insert_into_sorted(out: &mut Vec<Value>, x: Value)
    ensures
        arr_model(final(out)@) == insert_sorted(value_model(x), arr_model(old(out)@)),
{
    let ghost xm = value_model(x);
    let mut p: usize = 0;
    loop
        invariant_except_break
            p <= out.len(),
            out == old(out),
            xm == value_model(x),
            forall|j: int| 0 <= j < p as int
                ==> vcmp(xm, value_model(#[trigger] old(out)@[j])) >= 0,
        ensures
            p <= out.len(),
            out == old(out),
            xm == value_model(x),
            forall|j: int| 0 <= j < p as int
                ==> vcmp(xm, value_model(#[trigger] old(out)@[j])) >= 0,
            (p as int) < old(out)@.len() ==> vcmp(xm, value_model(old(out)@[p as int])) < 0,
        decreases out.len() - p,
    {
        if p >= out.len() {
            break;
        }
        let c = value_cmp(&x, &out[p]);
        proof {
            assert(out@[p as int] == old(out)@[p as int]);
        }
        if c < 0 {
            break;
        }
        p += 1;
    }
    proof {
        let m = arr_model(old(out)@);
        assert forall|j: int| 0 <= j < p as int implies vcmp(xm, #[trigger] m[j]) >= 0 by {
            assert(m[j] == value_model(old(out)@[j]));
        }
        if (p as int) < m.len() {
            assert(m[p as int] == value_model(old(out)@[p as int]));
        }
        lemma_insert_sorted_at(xm, m, p as int);
    }
    let ghost before = out@;
    let ghost m = arr_model(old(out)@);
    out.insert(p, x);
    proof {
        assert(out@ == before.insert(p as int, x));
        assert(arr_model(out@) =~= m.subrange(0, p as int) + seq![xm]
            + m.subrange(p as int, m.len() as int));
    }
}

} // verus!
