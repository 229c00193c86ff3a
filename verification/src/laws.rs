//! Laws of the diff: proved, general statements about the engine over
//! the value model.

use vstd::prelude::*;
use crate::engine::{diff_dict_added, diff_dict_pass1, diff_value, diff_arrays, DeepDiff,
    DiffModel, leaf_equal};
use crate::float_bits::{lemma_float_eq_refl, lemma_float_eq_sym, lemma_tolerant_eq_sym};
use crate::model::{
    entries_h, index_path, key_path, lookup, seq_h, sort_spec, str_cmp, veq, vh, wf, ValueModel,
    lemma_entries_h_index, lemma_insert_sorted_multiset, lemma_lookup_absent, lemma_lookup_at,
    lemma_lookup_present, lemma_seq_h_index, lemma_sort_contains, lemma_sort_h,
    lemma_str_cmp_antisym, lemma_str_cmp_eq, lemma_str_cmp_refl, lemma_str_cmp_trans,
};

verus! {

/// The library's value equality is reflexive: every value, NaN floats
/// included, equals itself.
pub proof fn lemma_veq_refl(v: ValueModel)
    ensures
        veq(v, v),
    decreases vh(v),
{
    match v {
        ValueModel::Float(bits) => {
            lemma_float_eq_refl(bits);
        },
        ValueModel::Arr(x) => {
            assert forall|i: int| 0 <= i < x.len() implies veq(#[trigger] x[i], x[i]) by {
                lemma_seq_h_index(x, i);
                lemma_veq_refl(x[i]);
            }
        },
        ValueModel::Dict(e) => {
            assert forall|i: int| 0 <= i < e.len() implies (#[trigger] e[i]).0 == e[i].0
                && veq(e[i].1, e[i].1) by {
                lemma_entries_h_index(e, i);
                lemma_veq_refl(e[i].1);
            }
        },
        _ => {},
    }
}

/// Idempotence: comparing a well-formed value with itself reports
/// nothing, NaN floats included, when no float tolerance is configured.
/// (With a tolerance the engine inherits IEEE comparisons against the
/// bound, under which a NaN leaf, or a pair of zeros under a relative
/// bound, compares unequal to itself.)
pub proof fn lemma_compare_identical(cfg: DeepDiff, v: ValueModel, path: Seq<char>)
    requires
        wf(v),
        cfg.float_tolerance is None,
    ensures
        diff_value(cfg, v, v, path) == Seq::<DiffModel>::empty(),
    decreases vh(v), 1int, 0int,
{
    match v {
        ValueModel::Dict(x) => {
            lemma_pass1_identical(cfg, x, path, 0);
            lemma_added_identical(x, path, 0);
            assert(diff_value(cfg, v, v, path) =~= Seq::<DiffModel>::empty());
        },
        ValueModel::Arr(x) => {
            if cfg.ignore_order {
                lemma_sort_h(x);
                let s = sort_spec(x);
                assert forall|k: int| 0 <= k < s.len() implies wf(#[trigger] s[k]) by {
                    assert(s.contains(s[k]));
                    lemma_sort_contains(x, s[k]);
                    let t = choose|t: int| 0 <= t < x.len() && x[t] == s[k];
                    assert(wf(x[t]));
                }
                lemma_arr_walk_identical(cfg, s, path, 0);
            } else {
                lemma_arr_walk_identical(cfg, x, path, 0);
            }
        },
        _ => {
            lemma_veq_refl(v);
            assert(leaf_equal(cfg, v, v));
        },
    }
}

/// The first dict pass over a level and itself reports nothing.
proof fn lemma_pass1_identical(
    cfg: DeepDiff,
    x: Seq<(Seq<char>, ValueModel)>,
    path: Seq<char>,
    i: int,
)
    requires
        cfg.float_tolerance is None,
        forall|a: int, b: int| 0 <= a < b < x.len()
            ==> str_cmp((#[trigger] x[a]).0, (#[trigger] x[b]).0) < 0,
        forall|a: int| 0 <= a < x.len() ==> wf((#[trigger] x[a]).1),
    ensures
        diff_dict_pass1(cfg, x, x, path, i) == Seq::<DiffModel>::empty(),
    decreases 1 + entries_h(x), 0int, x.len() - i,
{
    if 0 <= i < x.len() {
        assert forall|j: int| 0 <= j < i implies (#[trigger] x[j]).0 != x[i].0 by {
            if x[j].0 == x[i].0 {
                lemma_str_cmp_refl(x[i].0);
            }
        }
        lemma_lookup_at(x, i);
        lemma_entries_h_index(x, i);
        lemma_compare_identical(cfg, x[i].1, key_path(path, x[i].0));
        lemma_pass1_identical(cfg, x, path, i + 1);
        assert(diff_dict_pass1(cfg, x, x, path, i) =~= Seq::<DiffModel>::empty());
    }
}

/// The second dict pass over a level and itself reports nothing.
proof fn lemma_added_identical(x: Seq<(Seq<char>, ValueModel)>, path: Seq<char>, i: int)
    ensures
        diff_dict_added(x, x, path, i) == Seq::<DiffModel>::empty(),
    decreases x.len() - i,
{
    if 0 <= i < x.len() {
        lemma_lookup_present(x, i);
        lemma_added_identical(x, path, i + 1);
        assert(diff_dict_added(x, x, path, i) =~= Seq::<DiffModel>::empty());
    }
}

/// The positional walk of a sequence against itself reports nothing.
proof fn lemma_arr_walk_identical(cfg: DeepDiff, x: Seq<ValueModel>, path: Seq<char>, i: int)
    requires
        cfg.float_tolerance is None,
        forall|k: int| 0 <= k < x.len() ==> wf(#[trigger] x[k]),
    ensures
        diff_arrays(cfg, x, x, path, i) == Seq::<DiffModel>::empty(),
    decreases 1 + seq_h(x), 0int, x.len() - i,
{
    if 0 <= i < x.len() {
        lemma_seq_h_index(x, i);
        if cfg.ignore_order {
            lemma_compare_identical(cfg, x[i], path);
        } else {
            lemma_compare_identical(cfg, x[i], index_path(path, i as nat));
        }
        lemma_arr_walk_identical(cfg, x, path, i + 1);
        assert(diff_arrays(cfg, x, x, path, i) =~= Seq::<DiffModel>::empty());
    }
}

/// Determinism: the diff of two trees under one configuration is a
/// function of the configuration, the trees and the path alone, so any
/// two runs produce record-for-record identical output.  `compare`'s
/// contract pins its result to this function.
pub proof fn lemma_deterministic(
    cfg: DeepDiff,
    a: ValueModel,
    b: ValueModel,
    path: Seq<char>,
    r1: Seq<DiffModel>,
    r2: Seq<DiffModel>,
)
    requires
        r1 == diff_value(cfg, a, b, path),
        r2 == diff_value(cfg, a, b, path),
    ensures
        r1 == r2,
{
}

/// Entries of `y`, from index `i` on, whose keys are absent from `x`,
/// in their order of appearance.
pub open spec fn added_entries(
    x: Seq<(Seq<char>, ValueModel)>,
    y: Seq<(Seq<char>, ValueModel)>,
    i: int,
) -> Seq<(Seq<char>, ValueModel)>
    decreases y.len() - i,
{
    if i < 0 || i >= y.len() {
        Seq::empty()
    } else if lookup(x, y[i].0) is None {
        seq![y[i]] + added_entries(x, y, i + 1)
    } else {
        added_entries(x, y, i + 1)
    }
}

/// The `Added` records those entries turn into, in the same order.
pub open spec fn added_records(
    x: Seq<(Seq<char>, ValueModel)>,
    y: Seq<(Seq<char>, ValueModel)>,
    path: Seq<char>,
    i: int,
) -> Seq<DiffModel>
    decreases y.len() - i,
{
    if i < 0 || i >= y.len() {
        Seq::empty()
    } else if lookup(x, y[i].0) is None {
        seq![DiffModel::Added(key_path(path, y[i].0), y[i].1)] + added_records(x, y, path, i + 1)
    } else {
        added_records(x, y, path, i + 1)
    }
}

/// The second dict pass emits exactly the `Added` records of the keys
/// the first tree lacks.
pub proof fn lemma_added_pass_shape(
    x: Seq<(Seq<char>, ValueModel)>,
    y: Seq<(Seq<char>, ValueModel)>,
    path: Seq<char>,
    i: int,
)
    ensures
        diff_dict_added(x, y, path, i) == added_records(x, y, path, i),
    decreases y.len() - i,
{
    if 0 <= i < y.len() {
        lemma_added_pass_shape(x, y, path, i + 1);
        assert(diff_dict_added(x, y, path, i) =~= added_records(x, y, path, i));
    }
}

/// Records and entries of the second pass line up index by index.
pub proof fn lemma_added_records_entries(
    x: Seq<(Seq<char>, ValueModel)>,
    y: Seq<(Seq<char>, ValueModel)>,
    path: Seq<char>,
    i: int,
)
    ensures
        added_records(x, y, path, i).len() == added_entries(x, y, i).len(),
        forall|n: int| 0 <= n < added_entries(x, y, i).len()
            ==> #[trigger] added_records(x, y, path, i)[n] == DiffModel::Added(
                key_path(path, added_entries(x, y, i)[n].0), added_entries(x, y, i)[n].1),
    decreases y.len() - i,
{
    if 0 <= i < y.len() {
        lemma_added_records_entries(x, y, path, i + 1);
        if lookup(x, y[i].0) is None {
            assert forall|n: int| 0 <= n < added_entries(x, y, i).len()
                implies #[trigger] added_records(x, y, path, i)[n] == DiffModel::Added(
                    key_path(path, added_entries(x, y, i)[n].0),
                    added_entries(x, y, i)[n].1) by {
                if n > 0 {
                    assert(added_entries(x, y, i)[n] == added_entries(x, y, i + 1)[n - 1]);
                    assert(added_records(x, y, path, i)[n]
                        == added_records(x, y, path, i + 1)[n - 1]);
                }
            }
        }
    }
}

/// Every filtered entry comes from `y` at or after `i`, its key is
/// absent from `x`, and the filtered keys ascend whenever `y`'s do.
pub proof fn lemma_added_entries_props(
    x: Seq<(Seq<char>, ValueModel)>,
    y: Seq<(Seq<char>, ValueModel)>,
    i: int,
)
    requires
        forall|a: int, b: int| 0 <= a < b < y.len()
            ==> str_cmp((#[trigger] y[a]).0, (#[trigger] y[b]).0) < 0,
    ensures
        forall|n: int| 0 <= n < added_entries(x, y, i).len() ==> exists|j: int|
            i <= j < y.len() && y[j] == #[trigger] added_entries(x, y, i)[n],
        forall|n: int| 0 <= n < added_entries(x, y, i).len()
            ==> lookup(x, (#[trigger] added_entries(x, y, i)[n]).0) is None,
        forall|n: int, m: int| 0 <= n < m < added_entries(x, y, i).len()
            ==> str_cmp((#[trigger] added_entries(x, y, i)[n]).0,
                (#[trigger] added_entries(x, y, i)[m]).0) < 0,
    decreases y.len() - i,
{
    if 0 <= i < y.len() {
        lemma_added_entries_props(x, y, i + 1);
        let a = added_entries(x, y, i);
        let tail = added_entries(x, y, i + 1);
        if lookup(x, y[i].0) is None {
            assert(a == seq![y[i]] + tail);
            assert forall|n: int| 0 <= n < a.len() implies exists|j: int|
                i <= j < y.len() && y[j] == #[trigger] a[n] by {
                if n == 0 {
                    assert(a[0] == y[i]);
                    assert(i <= i < y.len() && y[i] == a[0]);
                } else {
                    assert(a[n] == tail[n - 1]);
                    let j = choose|j: int| i + 1 <= j < y.len() && y[j] == tail[n - 1];
                    assert(i <= j < y.len() && y[j] == a[n]);
                }
            }
            assert forall|n: int| 0 <= n < a.len()
                implies lookup(x, (#[trigger] a[n]).0) is None by {
                if n > 0 {
                    assert(a[n] == tail[n - 1]);
                }
            }
            assert forall|n: int, m: int| 0 <= n < m < a.len()
                implies str_cmp((#[trigger] a[n]).0, (#[trigger] a[m]).0) < 0 by {
                if n == 0 {
                    assert(a[m] == tail[m - 1]);
                    let j = choose|j: int| i + 1 <= j < y.len() && y[j] == tail[m - 1];
                    assert(str_cmp(y[i].0, y[j].0) < 0);
                } else {
                    assert(a[n] == tail[n - 1]);
                    assert(a[m] == tail[m - 1]);
                }
            }
        } else {
            assert(a == tail);
            assert forall|n: int| 0 <= n < a.len() implies exists|j: int|
                i <= j < y.len() && y[j] == #[trigger] a[n] by {
                let j = choose|j: int| i + 1 <= j < y.len() && y[j] == tail[n];
                assert(i <= j < y.len() && y[j] == a[n]);
            }
        }
    }
}

/// A concatenation contains whatever its right part contains.
proof fn lemma_concat_contains_right(a: Seq<DiffModel>, b: Seq<DiffModel>, w: DiffModel)
    requires
        b.contains(w),
    ensures
        (a + b).contains(w),
{
    let i = choose|i: int| 0 <= i < b.len() && b[i] == w;
    assert((a + b)[a.len() + i] == w);
}

/// The first dict pass holds the `Removed` record of every key of `x`
/// at or after `i` that `y` lacks.
pub proof fn lemma_pass1_contains_removed(
    cfg: DeepDiff,
    x: Seq<(Seq<char>, ValueModel)>,
    y: Seq<(Seq<char>, ValueModel)>,
    path: Seq<char>,
    i: int,
    i0: int,
)
    requires
        0 <= i <= i0 < x.len(),
        lookup(y, x[i0].0) is None,
    ensures
        diff_dict_pass1(cfg, x, y, path, i).contains(
            DiffModel::Removed(key_path(path, x[i0].0), x[i0].1)),
    decreases i0 - i,
{
    let w = DiffModel::Removed(key_path(path, x[i0].0), x[i0].1);
    if i == i0 {
        let rest = diff_dict_pass1(cfg, x, y, path, i + 1);
        assert(diff_dict_pass1(cfg, x, y, path, i) == seq![w] + rest);
        assert((seq![w] + rest)[0] == w);
    } else {
        lemma_pass1_contains_removed(cfg, x, y, path, i + 1, i0);
        let rest = diff_dict_pass1(cfg, x, y, path, i + 1);
        match lookup(y, x[i].0) {
            Some(v) => {
                lemma_concat_contains_right(diff_value(cfg, x[i].1, v,
                    key_path(path, x[i].0)), rest, w);
            },
            None => {
                lemma_concat_contains_right(seq![DiffModel::Removed(key_path(path, x[i].0),
                    x[i].1)], rest, w);
            },
        }
    }
}

/// Dict level ordering.  At one dict level the output is the first pass
/// followed by the second: the second pass is exactly the `Added` records
/// of the keys missing from the first tree, one per key, in ascending key
/// order; and the first pass holds a `Removed` record for every key the
/// second tree lacks, those keys taken in ascending order as well (they
/// are drawn from the level's sorted key list in order).
pub proof fn lemma_dict_level_ordering(
    cfg: DeepDiff,
    x: Seq<(Seq<char>, ValueModel)>,
    y: Seq<(Seq<char>, ValueModel)>,
    path: Seq<char>,
)
    requires
        forall|a: int, b: int| 0 <= a < b < x.len()
            ==> str_cmp((#[trigger] x[a]).0, (#[trigger] x[b]).0) < 0,
        forall|a: int, b: int| 0 <= a < b < y.len()
            ==> str_cmp((#[trigger] y[a]).0, (#[trigger] y[b]).0) < 0,
    ensures
        diff_value(cfg, ValueModel::Dict(x), ValueModel::Dict(y), path)
            == diff_dict_pass1(cfg, x, y, path, 0) + added_records(x, y, path, 0),
        added_records(x, y, path, 0).len() == added_entries(x, y, 0).len(),
        forall|n: int| 0 <= n < added_entries(x, y, 0).len()
            ==> #[trigger] added_records(x, y, path, 0)[n] == DiffModel::Added(
                key_path(path, added_entries(x, y, 0)[n].0), added_entries(x, y, 0)[n].1),
        forall|n: int| 0 <= n < added_entries(x, y, 0).len()
            ==> lookup(x, (#[trigger] added_entries(x, y, 0)[n]).0) is None,
        forall|n: int, m: int| 0 <= n < m < added_entries(x, y, 0).len()
            ==> str_cmp((#[trigger] added_entries(x, y, 0)[n]).0,
                (#[trigger] added_entries(x, y, 0)[m]).0) < 0,
        forall|n: int| 0 <= n < added_entries(y, x, 0).len()
            ==> lookup(y, (#[trigger] added_entries(y, x, 0)[n]).0) is None,
        forall|n: int, m: int| 0 <= n < m < added_entries(y, x, 0).len()
            ==> str_cmp((#[trigger] added_entries(y, x, 0)[n]).0,
                (#[trigger] added_entries(y, x, 0)[m]).0) < 0,
        forall|n: int| 0 <= n < added_entries(y, x, 0).len()
            ==> diff_dict_pass1(cfg, x, y, path, 0).contains(DiffModel::Removed(
                key_path(path, (#[trigger] added_entries(y, x, 0)[n]).0),
                added_entries(y, x, 0)[n].1)),
{
    lemma_added_pass_shape(x, y, path, 0);
    lemma_added_records_entries(x, y, path, 0);
    lemma_added_entries_props(x, y, 0);
    lemma_added_entries_props(y, x, 0);
    let rems = added_entries(y, x, 0);
    assert forall|n: int| 0 <= n < rems.len()
        implies diff_dict_pass1(cfg, x, y, path, 0).contains(DiffModel::Removed(
            key_path(path, (#[trigger] rems[n]).0), rems[n].1)) by {
        let j = choose|j: int| 0 <= j < x.len() && x[j] == rems[n];
        lemma_pass1_contains_removed(cfg, x, y, path, 0, j);
    }
}

/// The mirror of one record: additions and removals exchange, a change
/// swaps its two payloads, the path stays.
pub open spec fn flip(d: DiffModel) -> DiffModel {
    match d {
        DiffModel::Added(p, v) => DiffModel::Removed(p, v),
        DiffModel::Removed(p, v) => DiffModel::Added(p, v),
        DiffModel::Changed(p, u, v) => DiffModel::Changed(p, v, u),
    }
}

/// The library's value equality is symmetric.
pub proof fn lemma_veq_sym(a: ValueModel, b: ValueModel)
    ensures
        veq(a, b) == veq(b, a),
    decreases vh(a),
{
    match (a, b) {
        (ValueModel::Float(x), ValueModel::Float(y)) => {
            lemma_float_eq_sym(x, y);
        },
        (ValueModel::Arr(x), ValueModel::Arr(y)) => {
            assert forall|i: int| 0 <= i < x.len() && i < y.len()
                implies veq(#[trigger] x[i], y[i]) == veq(y[i], x[i]) by {
                lemma_seq_h_index(x, i);
                lemma_veq_sym(x[i], y[i]);
            }
        },
        (ValueModel::Dict(x), ValueModel::Dict(y)) => {
            assert forall|i: int| 0 <= i < x.len() && i < y.len()
                implies veq((#[trigger] x[i]).1, y[i].1) == veq(y[i].1, x[i].1) by {
                lemma_entries_h_index(x, i);
                lemma_veq_sym(x[i].1, y[i].1);
            }
        },
        _ => {},
    }
}

/// Leaf equality is symmetric, tolerant comparisons included.
pub proof fn lemma_leaf_equal_sym(cfg: DeepDiff, a: ValueModel, b: ValueModel)
    ensures
        leaf_equal(cfg, a, b) == leaf_equal(cfg, b, a),
{
    lemma_veq_sym(a, b);
    match (a, b) {
        (ValueModel::Float(x), ValueModel::Float(y)) => {
            match cfg.float_tolerance {
                Some(t) => {
                    lemma_tolerant_eq_sym(x, y, t, cfg.use_percent);
                },
                None => {},
            }
        },
        _ => {},
    }
}

/// A concatenation contains whatever its left part contains.
proof fn lemma_concat_contains_left(a: Seq<DiffModel>, b: Seq<DiffModel>, w: DiffModel)
    requires
        a.contains(w),
    ensures
        (a + b).contains(w),
{
    let i = choose|i: int| 0 <= i < a.len() && a[i] == w;
    assert((a + b)[i] == w);
}

/// Whatever a concatenation contains sits in one of its parts.
proof fn lemma_concat_contains_split(a: Seq<DiffModel>, b: Seq<DiffModel>, w: DiffModel)
    requires
        (a + b).contains(w),
    ensures
        a.contains(w) || b.contains(w),
{
    let i = choose|i: int| 0 <= i < (a + b).len() && (a + b)[i] == w;
    if i < a.len() {
        assert(a[i] == w);
    } else {
        assert(b[i - a.len()] == w);
    }
}

/// A found key occurs as an entry with the found value.
proof fn lemma_lookup_index(e: Seq<(Seq<char>, ValueModel)>, k: Seq<char>)
    requires
        lookup(e, k) is Some,
    ensures
        exists|j: int| 0 <= j < e.len() && (#[trigger] e[j]).0 == k
            && e[j].1 == lookup(e, k)->0,
    decreases e,
{
    if e[0].0 == k {
        assert(e[0].0 == k && e[0].1 == lookup(e, k)->0);
    } else {
        let tail = e.subrange(1, e.len() as int);
        lemma_lookup_index(tail, k);
        let j = choose|j: int| 0 <= j < tail.len() && (#[trigger] tail[j]).0 == k
            && tail[j].1 == lookup(tail, k)->0;
        assert((e[j + 1]).0 == k && e[j + 1].1 == lookup(e, k)->0);
    }
}

/// Every record of the first pass stems from some entry of `x` at or
/// after `i`: the shared-key recursion or the removal of a missing key.
proof fn lemma_pass1_member(
    cfg: DeepDiff,
    x: Seq<(Seq<char>, ValueModel)>,
    y: Seq<(Seq<char>, ValueModel)>,
    path: Seq<char>,
    i: int,
    d: DiffModel,
)
    requires
        0 <= i,
        diff_dict_pass1(cfg, x, y, path, i).contains(d),
    ensures
        exists|i0: int| i <= i0 < x.len() && ((lookup(y, (#[trigger] x[i0]).0) is Some
            && diff_value(cfg, x[i0].1, lookup(y, x[i0].0)->0,
                key_path(path, x[i0].0)).contains(d))
            || (lookup(y, x[i0].0) is None
                && d == DiffModel::Removed(key_path(path, x[i0].0), x[i0].1))),
    decreases x.len() - i,
{
    let head = match lookup(y, x[i].0) {
        Some(w) => diff_value(cfg, x[i].1, w, key_path(path, x[i].0)),
        None => seq![DiffModel::Removed(key_path(path, x[i].0), x[i].1)],
    };
    assert(diff_dict_pass1(cfg, x, y, path, i) == head + diff_dict_pass1(cfg, x, y, path,
        i + 1));
    lemma_concat_contains_split(head, diff_dict_pass1(cfg, x, y, path, i + 1), d);
    if head.contains(d) {
        match lookup(y, x[i].0) {
            Some(w) => {
                assert(i <= i < x.len() && lookup(y, (x[i]).0) is Some
                    && diff_value(cfg, x[i].1, lookup(y, x[i].0)->0,
                        key_path(path, x[i].0)).contains(d));
            },
            None => {
                let j = choose|j: int| 0 <= j < head.len() && head[j] == d;
                assert(d == DiffModel::Removed(key_path(path, x[i].0), x[i].1));
            },
        }
    } else {
        lemma_pass1_member(cfg, x, y, path, i + 1, d);
    }
}

/// Every record of the second pass is the addition of some missing key
/// of `y` at or after `i`.
proof fn lemma_added_member(
    x: Seq<(Seq<char>, ValueModel)>,
    y: Seq<(Seq<char>, ValueModel)>,
    path: Seq<char>,
    i: int,
    d: DiffModel,
)
    requires
        0 <= i,
        diff_dict_added(x, y, path, i).contains(d),
    ensures
        exists|j: int| i <= j < y.len() && lookup(x, (#[trigger] y[j]).0) is None
            && d == DiffModel::Added(key_path(path, y[j].0), y[j].1),
    decreases y.len() - i,
{
    let head: Seq<DiffModel> = if lookup(x, y[i].0) is None {
        seq![DiffModel::Added(key_path(path, y[i].0), y[i].1)]
    } else {
        Seq::empty()
    };
    assert(diff_dict_added(x, y, path, i) == head + diff_dict_added(x, y, path, i + 1));
    lemma_concat_contains_split(head, diff_dict_added(x, y, path, i + 1), d);
    if head.contains(d) {
        let j = choose|j: int| 0 <= j < head.len() && head[j] == d;
        assert(lookup(x, (y[i]).0) is None && d == DiffModel::Added(key_path(path, y[i].0),
            y[i].1));
    } else {
        lemma_added_member(x, y, path, i + 1, d);
    }
}

/// The first pass contains whatever the walk of entry `i0` contributes.
proof fn lemma_pass1_contains_at(
    cfg: DeepDiff,
    x: Seq<(Seq<char>, ValueModel)>,
    y: Seq<(Seq<char>, ValueModel)>,
    path: Seq<char>,
    i: int,
    i0: int,
    w: DiffModel,
)
    requires
        0 <= i <= i0 < x.len(),
        (match lookup(y, x[i0].0) {
            Some(v) => diff_value(cfg, x[i0].1, v, key_path(path, x[i0].0)),
            None => seq![DiffModel::Removed(key_path(path, x[i0].0), x[i0].1)],
        }).contains(w),
    ensures
        diff_dict_pass1(cfg, x, y, path, i).contains(w),
    decreases i0 - i,
{
    let head = match lookup(y, x[i].0) {
        Some(v) => diff_value(cfg, x[i].1, v, key_path(path, x[i].0)),
        None => seq![DiffModel::Removed(key_path(path, x[i].0), x[i].1)],
    };
    assert(diff_dict_pass1(cfg, x, y, path, i) == head + diff_dict_pass1(cfg, x, y, path,
        i + 1));
    if i == i0 {
        lemma_concat_contains_left(head, diff_dict_pass1(cfg, x, y, path, i + 1), w);
    } else {
        lemma_pass1_contains_at(cfg, x, y, path, i + 1, i0, w);
        lemma_concat_contains_right(head, diff_dict_pass1(cfg, x, y, path, i + 1), w);
    }
}

/// The second pass contains the addition of every missing key of `y`.
proof fn lemma_added_contains_at(
    x: Seq<(Seq<char>, ValueModel)>,
    y: Seq<(Seq<char>, ValueModel)>,
    path: Seq<char>,
    i: int,
    i0: int,
)
    requires
        0 <= i <= i0 < y.len(),
        lookup(x, y[i0].0) is None,
    ensures
        diff_dict_added(x, y, path, i).contains(DiffModel::Added(key_path(path, y[i0].0),
            y[i0].1)),
    decreases i0 - i,
{
    let w = DiffModel::Added(key_path(path, y[i0].0), y[i0].1);
    let head: Seq<DiffModel> = if lookup(x, y[i].0) is None {
        seq![DiffModel::Added(key_path(path, y[i].0), y[i].1)]
    } else {
        Seq::empty()
    };
    assert(diff_dict_added(x, y, path, i) == head + diff_dict_added(x, y, path, i + 1));
    if i == i0 {
        assert(head[0] == w);
        lemma_concat_contains_left(head, diff_dict_added(x, y, path, i + 1), w);
    } else {
        lemma_added_contains_at(x, y, path, i + 1, i0);
        lemma_concat_contains_right(head, diff_dict_added(x, y, path, i + 1), w);
    }
}

/// Walk duality for arrays: the mirror of every record of the walk of
/// `x` against `y` lies in the walk of `y` against `x`.
proof fn lemma_arr_flip(
    cfg: DeepDiff,
    x: Seq<ValueModel>,
    y: Seq<ValueModel>,
    path: Seq<char>,
    i: int,
    d: DiffModel,
)
    requires
        0 <= i,
        forall|k: int| 0 <= k < x.len() ==> wf(#[trigger] x[k]),
        forall|k: int| 0 <= k < y.len() ==> wf(#[trigger] y[k]),
        diff_arrays(cfg, x, y, path, i).contains(d),
    ensures
        diff_arrays(cfg, y, x, path, i).contains(flip(d)),
    decreases 2 + seq_h(x) + seq_h(y), 0int, (if x.len() > y.len() { x.len() as int } else {
        y.len() as int
    }) - i,
{
    let n = if x.len() > y.len() {
        x.len() as int
    } else {
        y.len() as int
    };
    let p = if cfg.ignore_order {
        path
    } else {
        index_path(path, i as nat)
    };
    let head_xy = if i < x.len() && i < y.len() {
        diff_value(cfg, x[i], y[i], p)
    } else if i < x.len() {
        seq![DiffModel::Removed(p, x[i])]
    } else {
        seq![DiffModel::Added(p, y[i])]
    };
    let head_yx = if i < x.len() && i < y.len() {
        diff_value(cfg, y[i], x[i], p)
    } else if i < y.len() {
        seq![DiffModel::Removed(p, y[i])]
    } else {
        seq![DiffModel::Added(p, x[i])]
    };
    assert(diff_arrays(cfg, x, y, path, i) == head_xy + diff_arrays(cfg, x, y, path, i + 1));
    assert(diff_arrays(cfg, y, x, path, i) == head_yx + diff_arrays(cfg, y, x, path, i + 1));
    lemma_concat_contains_split(head_xy, diff_arrays(cfg, x, y, path, i + 1), d);
    if head_xy.contains(d) {
        if i < x.len() && i < y.len() {
            lemma_seq_h_index(x, i);
            lemma_seq_h_index(y, i);
            lemma_flip_contains(cfg, x[i], y[i], p, d);
        } else {
            let j = choose|j: int| 0 <= j < head_xy.len() && head_xy[j] == d;
            assert(head_yx[0] == flip(d));
        }
        lemma_concat_contains_left(head_yx, diff_arrays(cfg, y, x, path, i + 1), flip(d));
    } else {
        lemma_arr_flip(cfg, x, y, path, i + 1, d);
        lemma_concat_contains_right(head_yx, diff_arrays(cfg, y, x, path, i + 1), flip(d));
    }
}

/// The mirror of every record of the diff of `a` against `b` lies in the
/// diff of `b` against `a`.
pub proof fn lemma_flip_contains(
    cfg: DeepDiff,
    a: ValueModel,
    b: ValueModel,
    path: Seq<char>,
    d: DiffModel,
)
    requires
        wf(a),
        wf(b),
        diff_value(cfg, a, b, path).contains(d),
    ensures
        diff_value(cfg, b, a, path).contains(flip(d)),
    decreases vh(a) + vh(b), 1int, 0int,
{
    match (a, b) {
        (ValueModel::Dict(x), ValueModel::Dict(y)) => {
            lemma_concat_contains_split(diff_dict_pass1(cfg, x, y, path, 0),
                diff_dict_added(x, y, path, 0), d);
            if diff_dict_pass1(cfg, x, y, path, 0).contains(d) {
                lemma_pass1_member(cfg, x, y, path, 0, d);
                let i0 = choose|i0: int| 0 <= i0 < x.len()
                    && ((lookup(y, (#[trigger] x[i0]).0) is Some
                        && diff_value(cfg, x[i0].1, lookup(y, x[i0].0)->0,
                            key_path(path, x[i0].0)).contains(d))
                        || (lookup(y, x[i0].0) is None
                            && d == DiffModel::Removed(key_path(path, x[i0].0), x[i0].1)));
                if lookup(y, x[i0].0) is Some {
                    let w = lookup(y, x[i0].0)->0;
                    lemma_lookup_index(y, x[i0].0);
                    let j = choose|j: int| 0 <= j < y.len()
                        && (#[trigger] y[j]).0 == x[i0].0 && y[j].1 == w;
                    lemma_entries_h_index(x, i0);
                    lemma_entries_h_index(y, j);
                    lemma_flip_contains(cfg, x[i0].1, w, key_path(path, x[i0].0), d);
                    assert forall|t: int| 0 <= t < i0 implies (#[trigger] x[t]).0
                        != x[i0].0 by {
                        if x[t].0 == x[i0].0 {
                            lemma_str_cmp_refl(x[i0].0);
                        }
                    }
                    lemma_lookup_at(x, i0);
                    assert(lookup(x, y[j].0) == Some(x[i0].1));
                    lemma_pass1_contains_at(cfg, y, x, path, 0, j, flip(d));
                    lemma_concat_contains_left(diff_dict_pass1(cfg, y, x, path, 0),
                        diff_dict_added(y, x, path, 0), flip(d));
                } else {
                    lemma_added_contains_at(y, x, path, 0, i0);
                    lemma_concat_contains_right(diff_dict_pass1(cfg, y, x, path, 0),
                        diff_dict_added(y, x, path, 0), flip(d));
                }
            } else {
                lemma_added_member(x, y, path, 0, d);
                let j = choose|j: int| 0 <= j < y.len()
                    && lookup(x, (#[trigger] y[j]).0) is None
                    && d == DiffModel::Added(key_path(path, y[j].0), y[j].1);
                lemma_pass1_contains_removed(cfg, y, x, path, 0, j);
                lemma_concat_contains_left(diff_dict_pass1(cfg, y, x, path, 0),
                    diff_dict_added(y, x, path, 0), flip(d));
            }
        },
        (ValueModel::Arr(x), ValueModel::Arr(y)) => {
            if cfg.ignore_order {
                lemma_sort_h(x);
                lemma_sort_h(y);
                let sx = sort_spec(x);
                let sy = sort_spec(y);
                assert forall|k: int| 0 <= k < sx.len() implies wf(#[trigger] sx[k]) by {
                    assert(sx.contains(sx[k]));
                    lemma_sort_contains(x, sx[k]);
                    let t = choose|t: int| 0 <= t < x.len() && x[t] == sx[k];
                    assert(wf(x[t]));
                }
                assert forall|k: int| 0 <= k < sy.len() implies wf(#[trigger] sy[k]) by {
                    assert(sy.contains(sy[k]));
                    lemma_sort_contains(y, sy[k]);
                    let t = choose|t: int| 0 <= t < y.len() && y[t] == sy[k];
                    assert(wf(y[t]));
                }
                lemma_arr_flip(cfg, sx, sy, path, 0, d);
            } else {
                lemma_arr_flip(cfg, x, y, path, 0, d);
            }
        },
        _ => {
            lemma_leaf_equal_sym(cfg, a, b);
            if !leaf_equal(cfg, a, b) {
                let s = seq![DiffModel::Changed(path, a, b)];
                let i = choose|i: int| 0 <= i < s.len() && s[i] == d;
                assert(d == DiffModel::Changed(path, a, b));
                assert(diff_value(cfg, b, a, path)[0] == flip(d));
            }
        },
    }
}

/// Removed/Added duality: a record stands in the diff of `a` against `b`
/// exactly when its mirror stands in the diff of `b` against `a` at the
/// same path — removals become additions, additions removals, and a
/// change swaps its two payloads.
pub proof fn lemma_duality(cfg: DeepDiff, a: ValueModel, b: ValueModel, path: Seq<char>,
    d: DiffModel)
    requires
        wf(a),
        wf(b),
    ensures
        diff_value(cfg, a, b, path).contains(d)
            <==> diff_value(cfg, b, a, path).contains(flip(d)),
{
    if diff_value(cfg, a, b, path).contains(d) {
        lemma_flip_contains(cfg, a, b, path, d);
    }
    if diff_value(cfg, b, a, path).contains(flip(d)) {
        lemma_flip_contains(cfg, b, a, path, flip(d));
        assert(flip(flip(d)) == d);
    }
}

/// The mirror of every record of a list, in place.
pub open spec fn flip_seq(s: Seq<DiffModel>) -> Seq<DiffModel>
    decreases s,
{
    if s.len() == 0 {
        Seq::empty()
    } else {
        seq![flip(s[0])] + flip_seq(s.subrange(1, s.len() as int))
    }
}

/// Length and elements of `flip_seq`.
pub proof fn lemma_flip_seq_props(s: Seq<DiffModel>)
    ensures
        flip_seq(s).len() == s.len(),
        forall|i: int| 0 <= i < s.len() ==> #[trigger] flip_seq(s)[i] == flip(s[i]),
    decreases s,
{
    if s.len() > 0 {
        let tail = s.subrange(1, s.len() as int);
        lemma_flip_seq_props(tail);
        assert forall|i: int| 0 <= i < s.len() implies #[trigger] flip_seq(s)[i]
            == flip(s[i]) by {
            if i > 0 {
                assert(flip_seq(s)[i] == flip_seq(tail)[i - 1]);
                assert(tail[i - 1] == s[i]);
            }
        }
    }
}

/// Mirroring distributes over concatenation.
proof fn lemma_flip_seq_concat(a: Seq<DiffModel>, b: Seq<DiffModel>)
    ensures
        flip_seq(a + b) == flip_seq(a) + flip_seq(b),
{
    lemma_flip_seq_props(a);
    lemma_flip_seq_props(b);
    lemma_flip_seq_props(a + b);
    assert(flip_seq(a + b) =~= flip_seq(a) + flip_seq(b));
}

/// A key strictly below the head of a sorted entry list is not found.
proof fn lemma_sorted_key_below(e: Seq<(Seq<char>, ValueModel)>, k: Seq<char>)
    requires
        e.len() > 0,
        str_cmp(k, e[0].0) < 0,
        forall|a: int, b: int| 0 <= a < b < e.len()
            ==> str_cmp((#[trigger] e[a]).0, (#[trigger] e[b]).0) < 0,
    ensures
        lookup(e, k) is None,
{
    assert forall|j: int| 0 <= j < e.len() implies (#[trigger] e[j]).0 != k by {
        if j == 0 {
            if e[0].0 == k {
                lemma_str_cmp_refl(k);
            }
        } else {
            lemma_str_cmp_trans(k, e[0].0, e[j].0);
            if e[j].0 == k {
                lemma_str_cmp_refl(k);
            }
        }
    }
    lemma_lookup_absent(e, k);
}

/// The first pass from index `i` on equals the pass over the shortened
/// list from `i - 1` on.
proof fn lemma_pass1_shift(
    cfg: DeepDiff,
    x: Seq<(Seq<char>, ValueModel)>,
    y: Seq<(Seq<char>, ValueModel)>,
    path: Seq<char>,
    i: int,
)
    requires
        1 <= i,
        x.len() >= 1,
    ensures
        diff_dict_pass1(cfg, x, y, path, i) == diff_dict_pass1(cfg,
            x.subrange(1, x.len() as int), y, path, i - 1),
    decreases x.len() - i,
{
    let tail = x.subrange(1, x.len() as int);
    if i < x.len() {
        lemma_pass1_shift(cfg, x, y, path, i + 1);
        assert(tail[i - 1] == x[i]);
        let head = match lookup(y, x[i].0) {
            Some(w) => diff_value(cfg, x[i].1, w, key_path(path, x[i].0)),
            None => seq![DiffModel::Removed(key_path(path, x[i].0), x[i].1)],
        };
        assert(diff_dict_pass1(cfg, x, y, path, i) == head + diff_dict_pass1(cfg, x, y, path,
            i + 1));
        assert(diff_dict_pass1(cfg, tail, y, path, i - 1) == head + diff_dict_pass1(cfg, tail,
            y, path, i));
    } else {
        assert(diff_dict_pass1(cfg, x, y, path, i) == Seq::<DiffModel>::empty());
        assert(diff_dict_pass1(cfg, tail, y, path, i - 1) == Seq::<DiffModel>::empty());
    }
}

/// The second pass from index `i` on equals the pass over the shortened
/// walk list from `i - 1` on.
proof fn lemma_added_shift(
    x: Seq<(Seq<char>, ValueModel)>,
    y: Seq<(Seq<char>, ValueModel)>,
    path: Seq<char>,
    i: int,
)
    requires
        1 <= i,
        y.len() >= 1,
    ensures
        diff_dict_added(x, y, path, i) == diff_dict_added(x, y.subrange(1, y.len() as int),
            path, i - 1),
    decreases y.len() - i,
{
    let tail = y.subrange(1, y.len() as int);
    if i < y.len() {
        lemma_added_shift(x, y, path, i + 1);
        assert(tail[i - 1] == y[i]);
        let head: Seq<DiffModel> = if lookup(x, y[i].0) is None {
            seq![DiffModel::Added(key_path(path, y[i].0), y[i].1)]
        } else {
            Seq::empty()
        };
        assert(diff_dict_added(x, y, path, i) == head + diff_dict_added(x, y, path, i + 1));
        assert(diff_dict_added(x, tail, path, i - 1) == head + diff_dict_added(x, tail, path,
            i));
    } else {
        assert(diff_dict_added(x, y, path, i) == Seq::<DiffModel>::empty());
        assert(diff_dict_added(x, tail, path, i - 1) == Seq::<DiffModel>::empty());
    }
}

/// Two lookup targets that agree on every walked key give the same first
/// pass.
proof fn lemma_pass1_congruent(
    cfg: DeepDiff,
    x: Seq<(Seq<char>, ValueModel)>,
    y: Seq<(Seq<char>, ValueModel)>,
    y2: Seq<(Seq<char>, ValueModel)>,
    path: Seq<char>,
    i: int,
)
    requires
        forall|j: int| 0 <= j < x.len()
            ==> lookup(y, (#[trigger] x[j]).0) == lookup(y2, x[j].0),
    ensures
        diff_dict_pass1(cfg, x, y, path, i) == diff_dict_pass1(cfg, x, y2, path, i),
    decreases x.len() - i,
{
    if 0 <= i < x.len() {
        lemma_pass1_congruent(cfg, x, y, y2, path, i + 1);
    }
}

/// Two lookup targets that agree on every walked key give the same second
/// pass.
proof fn lemma_added_congruent(
    x: Seq<(Seq<char>, ValueModel)>,
    x2: Seq<(Seq<char>, ValueModel)>,
    y: Seq<(Seq<char>, ValueModel)>,
    path: Seq<char>,
    i: int,
)
    requires
        forall|j: int| 0 <= j < y.len()
            ==> lookup(x, (#[trigger] y[j]).0) == lookup(x2, y[j].0),
    ensures
        diff_dict_added(x, y, path, i) == diff_dict_added(x2, y, path, i),
    decreases y.len() - i,
{
    if 0 <= i < y.len() {
        lemma_added_congruent(x, x2, y, path, i + 1);
    }
}

/// Against an empty other side, the first pass is the mirror of the
/// second pass with the sides exchanged: removals of everything.
proof fn lemma_pass1_empty_other(
    cfg: DeepDiff,
    y: Seq<(Seq<char>, ValueModel)>,
    path: Seq<char>,
    i: int,
)
    ensures
        diff_dict_pass1(cfg, y, Seq::empty(), path, i)
            == flip_seq(diff_dict_added(Seq::empty(), y, path, i)),
    decreases y.len() - i,
{
    if 0 <= i < y.len() {
        lemma_pass1_empty_other(cfg, y, path, i + 1);
        let head = seq![DiffModel::Added(key_path(path, y[i].0), y[i].1)];
        let rest = diff_dict_added(Seq::<(Seq<char>, ValueModel)>::empty(), y, path, i + 1);
        lemma_flip_seq_concat(head, rest);
        lemma_flip_seq_props(head);
        assert(flip_seq(head) =~= seq![DiffModel::Removed(key_path(path, y[i].0), y[i].1)]);
    } else {
        assert(flip_seq(Seq::<DiffModel>::empty()) =~= Seq::<DiffModel>::empty());
    }
}

/// Mirroring twice gives the list back.
proof fn lemma_flip_seq_involution(s: Seq<DiffModel>)
    ensures
        flip_seq(flip_seq(s)) == s,
{
    lemma_flip_seq_props(s);
    lemma_flip_seq_props(flip_seq(s));
    assert(flip_seq(flip_seq(s)) =~= s);
}

/// Multiset duality for the positional array walk.
proof fn lemma_arr_flip_multiset(
    cfg: DeepDiff,
    x: Seq<ValueModel>,
    y: Seq<ValueModel>,
    path: Seq<char>,
    i: int,
)
    requires
        0 <= i,
        forall|k: int| 0 <= k < x.len() ==> wf(#[trigger] x[k]),
        forall|k: int| 0 <= k < y.len() ==> wf(#[trigger] y[k]),
    ensures
        diff_arrays(cfg, y, x, path, i).to_multiset()
            == flip_seq(diff_arrays(cfg, x, y, path, i)).to_multiset(),
    decreases 2 + seq_h(x) + seq_h(y), 0int, (if x.len() > y.len() { x.len() as int } else {
        y.len() as int
    }) - i,
{
    broadcast use vstd::multiset::group_multiset_axioms;

    let n = if x.len() > y.len() {
        x.len() as int
    } else {
        y.len() as int
    };
    if i >= n {
        assert(flip_seq(Seq::<DiffModel>::empty()) =~= Seq::<DiffModel>::empty());
    } else {
        let p = if cfg.ignore_order {
            path
        } else {
            index_path(path, i as nat)
        };
        let head_xy = if i < x.len() && i < y.len() {
            diff_value(cfg, x[i], y[i], p)
        } else if i < x.len() {
            seq![DiffModel::Removed(p, x[i])]
        } else {
            seq![DiffModel::Added(p, y[i])]
        };
        let head_yx = if i < x.len() && i < y.len() {
            diff_value(cfg, y[i], x[i], p)
        } else if i < y.len() {
            seq![DiffModel::Removed(p, y[i])]
        } else {
            seq![DiffModel::Added(p, x[i])]
        };
        assert(diff_arrays(cfg, x, y, path, i) == head_xy + diff_arrays(cfg, x, y, path,
            i + 1));
        assert(diff_arrays(cfg, y, x, path, i) == head_yx + diff_arrays(cfg, y, x, path,
            i + 1));
        if i < x.len() && i < y.len() {
            lemma_seq_h_index(x, i);
            lemma_seq_h_index(y, i);
            lemma_flip_multiset(cfg, x[i], y[i], p);
        } else {
            lemma_flip_seq_props(head_xy);
            assert(flip_seq(head_xy) =~= head_yx);
        }
        lemma_arr_flip_multiset(cfg, x, y, path, i + 1);
        lemma_flip_seq_concat(head_xy, diff_arrays(cfg, x, y, path, i + 1));
        vstd::seq_lib::lemma_multiset_commutative(head_yx, diff_arrays(cfg, y, x, path, i + 1));
        vstd::seq_lib::lemma_multiset_commutative(flip_seq(head_xy),
            flip_seq(diff_arrays(cfg, x, y, path, i + 1)));
        assert(diff_arrays(cfg, y, x, path, i).to_multiset()
            =~= flip_seq(diff_arrays(cfg, x, y, path, i)).to_multiset());
    }
}

/// Exchanging the two halves of a concatenation keeps the multiset.
proof fn lemma_ms_swap(a: Seq<DiffModel>, b: Seq<DiffModel>)
    ensures
        (a + b).to_multiset() == (b + a).to_multiset(),
{
    broadcast use vstd::multiset::group_multiset_axioms;

    vstd::seq_lib::lemma_multiset_commutative(a, b);
    vstd::seq_lib::lemma_multiset_commutative(b, a);
    assert(a.to_multiset().add(b.to_multiset()) =~= b.to_multiset().add(a.to_multiset()));
}

/// Concatenations of multiset-equal halves have equal multisets.
proof fn lemma_ms_parts(h1: Seq<DiffModel>, r1: Seq<DiffModel>, h2: Seq<DiffModel>,
    r2: Seq<DiffModel>)
    requires
        h1.to_multiset() == h2.to_multiset(),
        r1.to_multiset() == r2.to_multiset(),
    ensures
        (h1 + r1).to_multiset() == (h2 + r2).to_multiset(),
{
    vstd::seq_lib::lemma_multiset_commutative(h1, r1);
    vstd::seq_lib::lemma_multiset_commutative(h2, r2);
}

/// Multiset duality at one dict level, by a merge over the two sorted
/// key lists.
proof fn lemma_dict_flip_multiset(
    cfg: DeepDiff,
    x: Seq<(Seq<char>, ValueModel)>,
    y: Seq<(Seq<char>, ValueModel)>,
    path: Seq<char>,
)
    requires
        forall|a: int, b: int| 0 <= a < b < x.len()
            ==> str_cmp((#[trigger] x[a]).0, (#[trigger] x[b]).0) < 0,
        forall|a: int, b: int| 0 <= a < b < y.len()
            ==> str_cmp((#[trigger] y[a]).0, (#[trigger] y[b]).0) < 0,
        forall|a: int| 0 <= a < x.len() ==> wf((#[trigger] x[a]).1),
        forall|a: int| 0 <= a < y.len() ==> wf((#[trigger] y[a]).1),
    ensures
        (diff_dict_pass1(cfg, y, x, path, 0) + diff_dict_added(y, x, path, 0)).to_multiset()
            == flip_seq(diff_dict_pass1(cfg, x, y, path, 0)
                + diff_dict_added(x, y, path, 0)).to_multiset(),
    decreases 2 + entries_h(x) + entries_h(y), 0int, x.len() + y.len(),
{
    let lhs = diff_dict_pass1(cfg, y, x, path, 0) + diff_dict_added(y, x, path, 0);
    let fwd = diff_dict_pass1(cfg, x, y, path, 0) + diff_dict_added(x, y, path, 0);
    if x.len() == 0 {
        assert(x =~= Seq::<(Seq<char>, ValueModel)>::empty());
        lemma_pass1_empty_other(cfg, y, path, 0);
        assert(diff_dict_added(y, x, path, 0) =~= Seq::<DiffModel>::empty());
        assert(diff_dict_pass1(cfg, x, y, path, 0) =~= Seq::<DiffModel>::empty());
        assert(lhs =~= diff_dict_pass1(cfg, y, Seq::empty(), path, 0));
        assert(fwd =~= diff_dict_added(Seq::empty(), y, path, 0));
    } else if y.len() == 0 {
        assert(y =~= Seq::<(Seq<char>, ValueModel)>::empty());
        lemma_pass1_empty_other(cfg, x, path, 0);
        lemma_flip_seq_involution(diff_dict_added(Seq::empty(), x, path, 0));
        assert(diff_dict_pass1(cfg, y, x, path, 0) =~= Seq::<DiffModel>::empty());
        assert(diff_dict_added(x, y, path, 0) =~= Seq::<DiffModel>::empty());
        assert(lhs =~= diff_dict_added(Seq::empty(), x, path, 0));
        assert(fwd =~= diff_dict_pass1(cfg, x, Seq::empty(), path, 0));
    } else {
        let k1 = x[0].0;
        let k2 = y[0].0;
        let xt = x.subrange(1, x.len() as int);
        let yt = y.subrange(1, y.len() as int);
        assert(forall|j: int| 0 <= j < xt.len() ==> #[trigger] xt[j] == x[j + 1]);
        assert(forall|j: int| 0 <= j < yt.len() ==> #[trigger] yt[j] == y[j + 1]);
        assert(entries_h(xt) <= entries_h(x));
        assert(entries_h(yt) <= entries_h(y));
        let c = str_cmp(k1, k2);
        if c == 0 {
            lemma_str_cmp_eq(k1, k2);
            assert(lookup(y, k1) == Some(y[0].1));
            assert(lookup(x, k2) == Some(x[0].1));
            assert forall|j: int| 0 <= j < xt.len()
                implies lookup(y, (#[trigger] xt[j]).0) == lookup(yt, xt[j].0) by {
                if xt[j].0 == k2 {
                    lemma_str_cmp_refl(k2);
                }
            }
            assert forall|j: int| 0 <= j < yt.len()
                implies lookup(x, (#[trigger] yt[j]).0) == lookup(xt, yt[j].0) by {
                if yt[j].0 == k1 {
                    lemma_str_cmp_refl(k1);
                }
            }
            let head_xy = diff_value(cfg, x[0].1, y[0].1, key_path(path, k1));
            let head_yx = diff_value(cfg, y[0].1, x[0].1, key_path(path, k1));
            let p1f = diff_dict_pass1(cfg, xt, yt, path, 0);
            let adf = diff_dict_added(xt, yt, path, 0);
            let p1r = diff_dict_pass1(cfg, yt, xt, path, 0);
            let adr = diff_dict_added(yt, xt, path, 0);
            assert(diff_dict_pass1(cfg, x, y, path, 0) == head_xy + diff_dict_pass1(cfg, x, y,
                path, 1));
            lemma_pass1_shift(cfg, x, y, path, 1);
            lemma_pass1_congruent(cfg, xt, y, yt, path, 0);
            assert(diff_dict_added(x, y, path, 0) == Seq::<DiffModel>::empty()
                + diff_dict_added(x, y, path, 1));
            assert(Seq::<DiffModel>::empty() + diff_dict_added(x, y, path, 1)
                =~= diff_dict_added(x, y, path, 1));
            lemma_added_shift(x, y, path, 1);
            lemma_added_congruent(x, xt, yt, path, 0);
            assert(diff_dict_pass1(cfg, y, x, path, 0) == head_yx + diff_dict_pass1(cfg, y, x,
                path, 1));
            lemma_pass1_shift(cfg, y, x, path, 1);
            lemma_pass1_congruent(cfg, yt, x, xt, path, 0);
            assert(diff_dict_added(y, x, path, 0) == Seq::<DiffModel>::empty()
                + diff_dict_added(y, x, path, 1));
            assert(Seq::<DiffModel>::empty() + diff_dict_added(y, x, path, 1)
                =~= diff_dict_added(y, x, path, 1));
            lemma_added_shift(y, x, path, 1);
            lemma_added_congruent(y, yt, xt, path, 0);
            lemma_entries_h_index(x, 0);
            lemma_entries_h_index(y, 0);
            lemma_flip_multiset(cfg, x[0].1, y[0].1, key_path(path, k1));
            lemma_dict_flip_multiset(cfg, xt, yt, path);
            assert(lhs =~= head_yx + (p1r + adr));
            assert(fwd =~= head_xy + (p1f + adf));
            lemma_flip_seq_concat(head_xy, p1f + adf);
            lemma_ms_parts(head_yx, p1r + adr, flip_seq(head_xy), flip_seq(p1f + adf));
            assert(flip_seq(fwd) == flip_seq(head_xy) + flip_seq(p1f + adf));
        } else if c < 0 {
            lemma_sorted_key_below(y, k1);
            assert forall|j: int| 0 <= j < y.len()
                implies lookup(x, (#[trigger] y[j]).0) == lookup(xt, y[j].0) by {
                if j == 0 {
                    if y[0].0 == k1 {
                        lemma_str_cmp_refl(k1);
                    }
                } else {
                    lemma_str_cmp_trans(k1, k2, y[j].0);
                    if y[j].0 == k1 {
                        lemma_str_cmp_refl(k1);
                    }
                }
            }
            let rem = seq![DiffModel::Removed(key_path(path, k1), x[0].1)];
            let add = seq![DiffModel::Added(key_path(path, k1), x[0].1)];
            let p1f = diff_dict_pass1(cfg, xt, y, path, 0);
            let adf = diff_dict_added(xt, y, path, 0);
            let p1r = diff_dict_pass1(cfg, y, xt, path, 0);
            let adr = diff_dict_added(y, xt, path, 0);
            assert(diff_dict_pass1(cfg, x, y, path, 0) == rem + diff_dict_pass1(cfg, x, y,
                path, 1));
            lemma_pass1_shift(cfg, x, y, path, 1);
            lemma_added_congruent(x, xt, y, path, 0);
            lemma_pass1_congruent(cfg, y, x, xt, path, 0);
            assert(diff_dict_added(y, x, path, 0) == add + diff_dict_added(y, x, path, 1));
            lemma_added_shift(y, x, path, 1);
            lemma_dict_flip_multiset(cfg, xt, y, path);
            lemma_flip_seq_props(rem);
            assert(flip_seq(rem) =~= add);
            // left side: bring the lone addition to the front
            assert(lhs =~= (p1r + add) + adr);
            lemma_ms_swap(p1r, add);
            lemma_ms_parts(p1r + add, adr, add + p1r, adr);
            assert((add + p1r) + adr =~= add + (p1r + adr));
            // right side: the mirrored removal leads, then the mirrored rest
            assert(fwd =~= rem + (p1f + adf));
            lemma_flip_seq_concat(rem, p1f + adf);
            assert(flip_seq(fwd) == flip_seq(rem) + flip_seq(p1f + adf));
            lemma_ms_parts(add, p1r + adr, flip_seq(rem), flip_seq(p1f + adf));
        } else {
            lemma_str_cmp_antisym(k1, k2);
            lemma_sorted_key_below(x, k2);
            assert forall|j: int| 0 <= j < x.len()
                implies lookup(y, (#[trigger] x[j]).0) == lookup(yt, x[j].0) by {
                if j == 0 {
                    if x[0].0 == k2 {
                        lemma_str_cmp_refl(k2);
                    }
                } else {
                    lemma_str_cmp_trans(k2, k1, x[j].0);
                    if x[j].0 == k2 {
                        lemma_str_cmp_refl(k2);
                    }
                }
            }
            let rem = seq![DiffModel::Removed(key_path(path, k2), y[0].1)];
            let add = seq![DiffModel::Added(key_path(path, k2), y[0].1)];
            let p1f = diff_dict_pass1(cfg, x, yt, path, 0);
            let adf = diff_dict_added(x, yt, path, 0);
            let p1r = diff_dict_pass1(cfg, yt, x, path, 0);
            let adr = diff_dict_added(yt, x, path, 0);
            lemma_pass1_congruent(cfg, x, y, yt, path, 0);
            assert(diff_dict_added(x, y, path, 0) == add + diff_dict_added(x, y, path, 1));
            lemma_added_shift(x, y, path, 1);
            assert(diff_dict_pass1(cfg, y, x, path, 0) == rem + diff_dict_pass1(cfg, y, x,
                path, 1));
            lemma_pass1_shift(cfg, y, x, path, 1);
            lemma_added_congruent(y, yt, x, path, 0);
            lemma_dict_flip_multiset(cfg, x, yt, path);
            lemma_flip_seq_props(add);
            assert(flip_seq(add) =~= rem);
            // left side: the removal already leads
            assert(lhs =~= rem + (p1r + adr));
            // right side: bring the mirrored addition to the front
            assert(fwd =~= p1f + (add + adf));
            lemma_flip_seq_concat(p1f, add + adf);
            lemma_flip_seq_concat(add, adf);
            assert(flip_seq(fwd) == flip_seq(p1f) + (flip_seq(add) + flip_seq(adf)));
            assert(flip_seq(p1f) + (flip_seq(add) + flip_seq(adf))
                =~= (flip_seq(p1f) + flip_seq(add)) + flip_seq(adf));
            lemma_ms_swap(flip_seq(p1f), flip_seq(add));
            lemma_ms_parts(flip_seq(p1f) + flip_seq(add), flip_seq(adf),
                flip_seq(add) + flip_seq(p1f), flip_seq(adf));
            assert((flip_seq(add) + flip_seq(p1f)) + flip_seq(adf)
                =~= flip_seq(add) + (flip_seq(p1f) + flip_seq(adf)));
            lemma_flip_seq_concat(p1f, adf);
            assert(flip_seq(p1f) + flip_seq(adf) == flip_seq(p1f + adf));
            lemma_ms_parts(rem, p1r + adr, flip_seq(add), flip_seq(p1f + adf));
        }
    }
}

/// Removed/Added duality with multiplicity: record for record, the diff
/// of `b` against `a` is a reordering of the mirrored diff of `a`
/// against `b`.
pub proof fn lemma_flip_multiset(cfg: DeepDiff, a: ValueModel, b: ValueModel, path: Seq<char>)
    requires
        wf(a),
        wf(b),
    ensures
        diff_value(cfg, b, a, path).to_multiset()
            == flip_seq(diff_value(cfg, a, b, path)).to_multiset(),
    decreases vh(a) + vh(b), 1int, 0int,
{
    broadcast use vstd::multiset::group_multiset_axioms;

    match (a, b) {
        (ValueModel::Dict(x), ValueModel::Dict(y)) => {
            lemma_dict_flip_multiset(cfg, x, y, path);
        },
        (ValueModel::Arr(x), ValueModel::Arr(y)) => {
            if cfg.ignore_order {
                lemma_sort_h(x);
                lemma_sort_h(y);
                let sx = sort_spec(x);
                let sy = sort_spec(y);
                assert forall|k: int| 0 <= k < sx.len() implies wf(#[trigger] sx[k]) by {
                    assert(sx.contains(sx[k]));
                    lemma_sort_contains(x, sx[k]);
                    let t = choose|t: int| 0 <= t < x.len() && x[t] == sx[k];
                    assert(wf(x[t]));
                }
                assert forall|k: int| 0 <= k < sy.len() implies wf(#[trigger] sy[k]) by {
                    assert(sy.contains(sy[k]));
                    lemma_sort_contains(y, sy[k]);
                    let t = choose|t: int| 0 <= t < y.len() && y[t] == sy[k];
                    assert(wf(y[t]));
                }
                lemma_arr_flip_multiset(cfg, sx, sy, path, 0);
            } else {
                lemma_arr_flip_multiset(cfg, x, y, path, 0);
            }
        },
        _ => {
            lemma_leaf_equal_sym(cfg, a, b);
            if leaf_equal(cfg, a, b) {
                assert(flip_seq(Seq::<DiffModel>::empty()) =~= Seq::<DiffModel>::empty());
            } else {
                lemma_flip_seq_props(seq![DiffModel::Changed(path, a, b)]);
                assert(flip_seq(seq![DiffModel::Changed(path, a, b)])
                    =~= seq![DiffModel::Changed(path, b, a)]);
            }
        },
    }
}

/// Permutation invariance of the sort: sorting keeps the multiset of
/// elements exactly, so order-insensitive comparison sees the same
/// collection whatever order the input arrived in.
pub proof fn lemma_sort_permutation(s: Seq<ValueModel>)
    ensures
        sort_spec(s).to_multiset() == s.to_multiset(),
    decreases s,
{
    broadcast use vstd::seq_lib::group_to_multiset_ensures;

    if s.len() > 0 {
        lemma_sort_permutation(s.drop_last());
        lemma_insert_sorted_multiset(s.last(), sort_spec(s.drop_last()));
        assert(s =~= s.drop_last().push(s.last()));
    }
}

} // verus!
