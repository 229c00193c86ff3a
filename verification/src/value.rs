//! The canonical tree value and its executable operations: deep clone,
//! the library's equality and its total order.

use vstd::prelude::*;
use crate::float_bits::{float_cmp_bits_exec, float_eq_bits_exec};
use crate::model::{
    entries_h, lookup, seq_h, sorted_entry_keys, str_cmp, variant_rank, vcmp, vcmp_entries,
    vcmp_seq, veq, vh, ValueModel, lemma_adjacent_sorted_pairwise, lemma_entries_h_index,
    lemma_lookup_absent, lemma_lookup_at, lemma_seq_h_index, lemma_str_cmp_eq,
    lemma_str_cmp_refl,
};

verus! {

/// Canonical in-memory tree value.
///
/// `Float` carries the IEEE-754 bit pattern of a 64-bit double, so the
/// library's float semantics are stated as exact bit logic.  `Dict`
/// carries its entries sorted by key in strictly ascending order; that
/// ordering makes diff output deterministic.
#[derive(Debug, Hash)]
pub enum Value {
    Int(i64),
    Float(u64),
    String(String),
    Bool(bool),
    Array(Vec<Value>),
    Dict(Vec<(String, Value)>),
}

/// Model of a value, defined by structural recursion.
pub open spec fn value_model(v: Value) -> ValueModel
    decreases v,
{
    match v {
        Value::Int(i) => ValueModel::Int(i as int),
        Value::Float(bits) => ValueModel::Float(bits),
        Value::String(s) => ValueModel::Str(s@),
        Value::Bool(b) => ValueModel::Bool(b),
        Value::Array(items) => ValueModel::Arr(arr_model_rec(items@)),
        Value::Dict(entries) => ValueModel::Dict(entries_model_rec(entries@)),
    }
}

impl View for Value {
    type V = ValueModel;

    open spec fn view(&self) -> ValueModel {
        value_model(*self)
    }
}

/// Model of a sequence of values, element by element from the front.
pub open spec fn arr_model_rec(s: Seq<Value>) -> Seq<ValueModel>
    decreases s,
{
    if s.len() == 0 {
        Seq::empty()
    } else {
        seq![value_model(s[0])] + arr_model_rec(s.subrange(1, s.len() as int))
    }
}

/// Model of a dict entry list, entry by entry from the front.
pub open spec fn entries_model_rec(s: Seq<(String, Value)>) -> Seq<(Seq<char>, ValueModel)>
    decreases s,
{
    if s.len() == 0 {
        Seq::empty()
    } else {
        seq![(s[0].0@, value_model(s[0].1))] + entries_model_rec(s.subrange(1, s.len() as int))
    }
}

/// Model of a sequence of values, element-wise.
pub open spec fn arr_model(s: Seq<Value>) -> Seq<ValueModel> {
    Seq::new(s.len(), |i: int| s[i]@)
}

/// Model of a dict entry list, entry-wise.
pub open spec fn entries_model(s: Seq<(String, Value)>) -> Seq<(Seq<char>, ValueModel)> {
    Seq::new(s.len(), |i: int| (s[i].0@, s[i].1@))
}

/// The element-by-element model is the element-wise one.
pub proof fn lemma_arr_model_rec(s: Seq<Value>)
    ensures
        arr_model_rec(s) == arr_model(s),
    decreases s,
{
    if s.len() == 0 {
        assert(arr_model_rec(s) =~= arr_model(s));
    } else {
        let tail = s.subrange(1, s.len() as int);
        lemma_arr_model_rec(tail);
        assert(arr_model_rec(s).len() == s.len());
        assert forall|i: int| 0 <= i < s.len() implies arr_model_rec(s)[i] == s[i]@ by {
            if i > 0 {
                assert(arr_model_rec(s)[i] == arr_model(tail)[i - 1]);
                assert(tail[i - 1] == s[i]);
            }
        }
        assert(arr_model_rec(s) =~= arr_model(s));
    }
}

/// The entry-by-entry model is the entry-wise one.
pub proof fn lemma_entries_model_rec(s: Seq<(String, Value)>)
    ensures
        entries_model_rec(s) == entries_model(s),
    decreases s,
{
    if s.len() == 0 {
        assert(entries_model_rec(s) =~= entries_model(s));
    } else {
        let tail = s.subrange(1, s.len() as int);
        lemma_entries_model_rec(tail);
        assert(entries_model_rec(s).len() == s.len());
        assert forall|i: int| 0 <= i < s.len() implies entries_model_rec(s)[i]
            == (s[i].0@, s[i].1@) by {
            if i > 0 {
                assert(entries_model_rec(s)[i] == entries_model(tail)[i - 1]);
                assert(tail[i - 1] == s[i]);
            }
        }
        assert(entries_model_rec(s) =~= entries_model(s));
    }
}

/// The view of an array value is the model of its element vector.
pub proof fn lemma_array_view(items: Vec<Value>)
    ensures
        Value::Array(items)@ == ValueModel::Arr(arr_model(items@)),
{
    lemma_arr_model_rec(items@);
}

/// The view of a dict value is the model of its entry vector.
pub proof fn lemma_dict_view(entries: Vec<(String, Value)>)
    ensures
        Value::Dict(entries)@ == ValueModel::Dict(entries_model(entries@)),
{
    lemma_entries_model_rec(entries@);
}

/// Deep copy with an unchanged model.
pub fn clone_value(v: &Value) -> (r: Value)
    ensures
        r@ == v@,
    decreases vh(v@),
{
    match v {
        Value::Int(i) => Value::Int(*i),
        Value::Float(bits) => Value::Float(*bits),
        Value::String(s) => Value::String(s.clone()),
        Value::Bool(b) => Value::Bool(*b),
        Value::Array(items) => {
            let ghost m = arr_model(items@);
            proof {
                lemma_array_view(*items);
            }
            let mut out: Vec<Value> = Vec::new();
            let mut i: usize = 0;
            while i < items.len()
                invariant
                    i <= items.len(),
                    out@.len() == i as int,
                    forall|j: int| 0 <= j < i as int ==> out@[j]@ == m[j],
                    m == arr_model(items@),
                    v@ == ValueModel::Arr(m),
                decreases items.len() - i,
            {
                proof {
                    lemma_seq_h_index(m, i as int);
                }
                out.push(clone_value(&items[i]));
                i += 1;
            }
            proof {
                lemma_array_view(out);
                assert(arr_model(out@) =~= m);
            }
            Value::Array(out)
        },
        Value::Dict(entries) => {
            let ghost m = entries_model(entries@);
            proof {
                lemma_dict_view(*entries);
            }
            let mut out: Vec<(String, Value)> = Vec::new();
            let mut i: usize = 0;
            while i < entries.len()
                invariant
                    i <= entries.len(),
                    out@.len() == i as int,
                    forall|j: int| 0 <= j < i as int
                        ==> (#[trigger] out@[j]).0@ == m[j].0 && out@[j].1@ == m[j].1,
                    m == entries_model(entries@),
                    v@ == ValueModel::Dict(m),
                decreases entries.len() - i,
            {
                proof {
                    lemma_entries_h_index(m, i as int);
                }
                let key = entries[i].0.clone();
                let val = clone_value(&entries[i].1);
                out.push((key, val));
                i += 1;
            }
            proof {
                lemma_dict_view(out);
                assert(entries_model(out@) =~= m);
            }
            Value::Dict(out)
        },
    }
}

impl Clone for Value {
    /// Cloning keeps the model.
    fn clone(&self) -> (r: Value)
        ensures
            r@ == self@,
    {
        clone_value(self)
    }
}

/// The library's value equality (`veq` on the models): structural, with
/// NaN equal to NaN on floats.
pub fn value_eq(a: &Value, b: &Value) -> (r: bool)
    ensures
        r == veq(a@, b@),
    decreases vh(a@),
{
    match (a, b) {
        (Value::Int(x), Value::Int(y)) => *x == *y,
        (Value::Float(x), Value::Float(y)) => float_eq_bits_exec(*x, *y),
        (Value::String(x), Value::String(y)) => *x == *y,
        (Value::Bool(x), Value::Bool(y)) => *x == *y,
        (Value::Array(x), Value::Array(y)) => {
            let ghost mx = arr_model(x@);
            let ghost my = arr_model(y@);
            proof {
                lemma_array_view(*x);
                lemma_array_view(*y);
            }
            if x.len() != y.len() {
                return false;
            }
            let mut i: usize = 0;
            while i < x.len()
                invariant
                    i <= x.len(),
                    x@.len() == y@.len(),
                    forall|j: int| 0 <= j < i as int ==> veq(#[trigger] mx[j], my[j]),
                    mx == arr_model(x@),
                    my == arr_model(y@),
                    a@ == ValueModel::Arr(mx),
                    b@ == ValueModel::Arr(my),
                decreases x.len() - i,
            {
                proof {
                    lemma_seq_h_index(mx, i as int);
                }
                if !value_eq(&x[i], &y[i]) {
                    return false;
                }
                i += 1;
            }
            true
        },
        (Value::Dict(x), Value::Dict(y)) => {
            let ghost mx = entries_model(x@);
            let ghost my = entries_model(y@);
            proof {
                lemma_dict_view(*x);
                lemma_dict_view(*y);
            }
            if x.len() != y.len() {
                return false;
            }
            let mut i: usize = 0;
            while i < x.len()
                invariant
                    i <= x.len(),
                    x@.len() == y@.len(),
                    forall|j: int| 0 <= j < i as int
                        ==> (#[trigger] mx[j]).0 == my[j].0 && veq(mx[j].1, my[j].1),
                    mx == entries_model(x@),
                    my == entries_model(y@),
                    a@ == ValueModel::Dict(mx),
                    b@ == ValueModel::Dict(my),
                decreases x.len() - i,
            {
                proof {
                    lemma_entries_h_index(mx, i as int);
                }
                if !(x[i].0 == y[i].0) {
                    return false;
                }
                if !value_eq(&x[i].1, &y[i].1) {
                    return false;
                }
                i += 1;
            }
            true
        },
        _ => false,
    }
}

impl PartialEq for Value {
    fn eq(&self, other: &Value) -> (r: bool) {
        value_eq(self, other)
    }
}

impl Eq for Value {

}

impl vstd::std_specs::cmp::PartialEqSpecImpl for Value {
    open spec fn obeys_eq_spec() -> bool {
        true
    }

    open spec fn eq_spec(&self, other: &Value) -> bool {
        veq(self@, other@)
    }
}

/// The library's total order over values (`vcmp` on the models), as
/// -1, 0 or 1.  Order-insensitive array comparison sorts with it.
pub fn value_cmp(a: &Value, b: &Value) -> (r: i8)
    ensures
        r as int == vcmp(a@, b@),
    decreases vh(a@),
{
    match (a, b) {
        (Value::Int(x), Value::Int(y)) => {
            if *x < *y {
                -1
            } else if *x > *y {
                1
            } else {
                0
            }
        },
        (Value::Float(x), Value::Float(y)) => float_cmp_bits_exec(*x, *y),
        (Value::String(x), Value::String(y)) => str_cmp_exec(x.as_str(), y.as_str()),
        (Value::Bool(x), Value::Bool(y)) => {
            if !*x && *y {
                -1
            } else if *x && !*y {
                1
            } else {
                0
            }
        },
        (Value::Array(x), Value::Array(y)) => {
            let ghost mx = arr_model(x@);
            let ghost my = arr_model(y@);
            proof {
                lemma_array_view(*x);
                lemma_array_view(*y);
                assert(mx.subrange(0, mx.len() as int) =~= mx);
                assert(my.subrange(0, my.len() as int) =~= my);
            }
            let mut i: usize = 0;
            loop
                invariant
                    i <= x.len(),
                    i <= y.len(),
                    mx == arr_model(x@),
                    my == arr_model(y@),
                    a@ == ValueModel::Arr(mx),
                    b@ == ValueModel::Arr(my),
                    vcmp_seq(mx, my) == vcmp_seq(mx.subrange(i as int, mx.len() as int),
                        my.subrange(i as int, my.len() as int)),
                decreases x.len() - i,
            {
                let ghost sx = mx.subrange(i as int, mx.len() as int);
                let ghost sy = my.subrange(i as int, my.len() as int);
                if i >= x.len() || i >= y.len() {
                    let r: i8 = if i < y.len() {
                        -1
                    } else if i < x.len() {
                        1
                    } else {
                        0
                    };
                    assert(r as int == vcmp_seq(sx, sy));
                    return r;
                }
                proof {
                    lemma_seq_h_index(mx, i as int);
                    assert(sx[0] == mx[i as int]);
                    assert(sy[0] == my[i as int]);
                }
                let c = value_cmp(&x[i], &y[i]);
                if c != 0 {
                    return c;
                }
                proof {
                    assert(sx.subrange(1, sx.len() as int)
                        =~= mx.subrange(i + 1, mx.len() as int));
                    assert(sy.subrange(1, sy.len() as int)
                        =~= my.subrange(i + 1, my.len() as int));
                }
                i += 1;
            }
        },
        (Value::Dict(x), Value::Dict(y)) => {
            let ghost mx = entries_model(x@);
            let ghost my = entries_model(y@);
            proof {
                lemma_dict_view(*x);
                lemma_dict_view(*y);
                assert(mx.subrange(0, mx.len() as int) =~= mx);
                assert(my.subrange(0, my.len() as int) =~= my);
            }
            let mut i: usize = 0;
            loop
                invariant
                    i <= x.len(),
                    i <= y.len(),
                    mx == entries_model(x@),
                    my == entries_model(y@),
                    a@ == ValueModel::Dict(mx),
                    b@ == ValueModel::Dict(my),
                    vcmp_entries(mx, my) == vcmp_entries(mx.subrange(i as int, mx.len() as int),
                        my.subrange(i as int, my.len() as int)),
                decreases x.len() - i,
            {
                let ghost sx = mx.subrange(i as int, mx.len() as int);
                let ghost sy = my.subrange(i as int, my.len() as int);
                if i >= x.len() || i >= y.len() {
                    let r: i8 = if i < y.len() {
                        -1
                    } else if i < x.len() {
                        1
                    } else {
                        0
                    };
                    assert(r as int == vcmp_entries(sx, sy));
                    return r;
                }
                proof {
                    lemma_entries_h_index(mx, i as int);
                    assert(sx[0] == mx[i as int]);
                    assert(sy[0] == my[i as int]);
                }
                let ck = str_cmp_exec(x[i].0.as_str(), y[i].0.as_str());
                if ck != 0 {
                    return ck;
                }
                let cv = value_cmp(&x[i].1, &y[i].1);
                if cv != 0 {
                    return cv;
                }
                proof {
                    assert(sx.subrange(1, sx.len() as int)
                        =~= mx.subrange(i + 1, mx.len() as int));
                    assert(sy.subrange(1, sy.len() as int)
                        =~= my.subrange(i + 1, my.len() as int));
                }
                i += 1;
            }
        },
        _ => {
            let ra = variant_rank_exec(a);
            let rb = variant_rank_exec(b);
            if ra < rb {
                -1
            } else {
                1
            }
        },
    }
}

/// Executable variant rank.
fn variant_rank_exec(v: &Value) -> (r: u8)
    ensures
        r as int == variant_rank(v@),
{
    match v {
        Value::Int(_) => 1,
        Value::Float(_) => 2,
        Value::String(_) => 3,
        Value::Bool(_) => 4,
        Value::Array(_) => 5,
        Value::Dict(_) => 6,
    }
}

/// Executable lexicographic text comparison (`str_cmp` on the views):
/// byte-indexed where both sides are ASCII, character-decoded otherwise.
pub fn str_cmp_exec(a: &str, b: &str) -> (r: i8)
    ensures
        r as int == str_cmp(a@, b@),
{
    if a.is_ascii() && b.is_ascii() {
        str_cmp_ascii(a, b)
    } else {
        str_cmp_chars(a, b)
    }
}

/// ASCII comparison with constant-time byte access at each position;
/// below 128 the byte order is the character order.
fn str_cmp_ascii(a: &str, b: &str) -> (r: i8)
    requires
        a.is_ascii(),
        b.is_ascii(),
    ensures
        r as int == str_cmp(a@, b@),
{
    let a_len = a.unicode_len();
    let b_len = b.unicode_len();
    proof {
        assert(a@.subrange(0, a@.len() as int) =~= a@);
        assert(b@.subrange(0, b@.len() as int) =~= b@);
    }
    let mut i: usize = 0;
    loop
        invariant
            i <= a_len,
            i <= b_len,
            a.is_ascii(),
            b.is_ascii(),
            a_len == a@.len(),
            b_len == b@.len(),
            str_cmp(a@, b@) == str_cmp(a@.subrange(i as int, a@.len() as int),
                b@.subrange(i as int, b@.len() as int)),
        decreases a_len - i,
    {
        let ghost sa = a@.subrange(i as int, a@.len() as int);
        let ghost sb = b@.subrange(i as int, b@.len() as int);
        if i >= a_len || i >= b_len {
            let r: i8 = if i < b_len {
                -1
            } else if i < a_len {
                1
            } else {
                0
            };
            assert(r as int == str_cmp(sa, sb));
            return r;
        }
        let ca = a.get_ascii(i);
        let cb = b.get_ascii(i);
        proof {
            assert(sa[0] == a@[i as int]);
            assert(sb[0] == b@[i as int]);
            assert('\0' <= a@[i as int] <= '\u{7f}');
            assert('\0' <= b@[i as int] <= '\u{7f}');
            assert(ca == a@[i as int] as u8);
            assert(cb == b@[i as int] as u8);
            assert((ca < cb) == ((a@[i as int] as u32) < (b@[i as int] as u32)));
            assert((cb < ca) == ((b@[i as int] as u32) < (a@[i as int] as u32)));
        }
        if ca < cb {
            return -1;
        }
        if cb < ca {
            return 1;
        }
        proof {
            assert(sa.subrange(1, sa.len() as int) =~= a@.subrange(i + 1, a@.len() as int));
            assert(sb.subrange(1, sb.len() as int) =~= b@.subrange(i + 1, b@.len() as int));
        }
        i += 1;
    }
}

/// General comparison, decoding one character at a time.
fn str_cmp_chars(a: &str, b: &str) -> (r: i8)
    ensures
        r as int == str_cmp(a@, b@),
{
    let a_len = a.unicode_len();
    let b_len = b.unicode_len();
    proof {
        assert(a@.subrange(0, a@.len() as int) =~= a@);
        assert(b@.subrange(0, b@.len() as int) =~= b@);
    }
    let mut i: usize = 0;
    loop
        invariant
            i <= a_len,
            i <= b_len,
            a_len == a@.len(),
            b_len == b@.len(),
            str_cmp(a@, b@) == str_cmp(a@.subrange(i as int, a@.len() as int),
                b@.subrange(i as int, b@.len() as int)),
        decreases a_len - i,
    {
        let ghost sa = a@.subrange(i as int, a@.len() as int);
        let ghost sb = b@.subrange(i as int, b@.len() as int);
        if i >= a_len || i >= b_len {
            let r: i8 = if i < b_len {
                -1
            } else if i < a_len {
                1
            } else {
                0
            };
            assert(r as int == str_cmp(sa, sb));
            return r;
        }
        let ca = a.get_char(i);
        let cb = b.get_char(i);
        proof {
            assert(sa[0] == a@[i as int]);
            assert(sb[0] == b@[i as int]);
        }
        if (ca as u32) < (cb as u32) {
            return -1;
        }
        if (cb as u32) < (ca as u32) {
            return 1;
        }
        proof {
            assert(sa.subrange(1, sa.len() as int) =~= a@.subrange(i + 1, a@.len() as int));
            assert(sb.subrange(1, sb.len() as int) =~= b@.subrange(i + 1, b@.len() as int));
        }
        i += 1;
    }
}

/// First value stored under key `k`, scanning the entries left to right.
pub fn dict_get<'a>(entries: &'a Vec<(String, Value)>, k: &String) -> (r: Option<&'a Value>)
    ensures
        match r {
            Some(w) => lookup(entries_model(entries@), k@) == Some(w@),
            None => lookup(entries_model(entries@), k@) is None,
        },
{
    let ghost m = entries_model(entries@);
    proof {
        assert(m.subrange(0, m.len() as int) =~= m);
    }
    let mut i: usize = 0;
    loop
        invariant
            i <= entries.len(),
            m == entries_model(entries@),
            lookup(m, k@) == lookup(m.subrange(i as int, m.len() as int), k@),
        decreases entries.len() - i,
    {
        let ghost s = m.subrange(i as int, m.len() as int);
        if i >= entries.len() {
            return None;
        }
        proof {
            assert(s[0] == m[i as int]);
        }
        if entries[i].0 == *k {
            return Some(&entries[i].1);
        }
        proof {
            assert(s.subrange(1, s.len() as int) =~= m.subrange(i + 1, m.len() as int));
        }
        i += 1;
    }
}


/// Whether the entry keys are in strictly ascending order, checked
/// neighbour by neighbour.
pub fn entries_sorted(entries: &Vec<(String, Value)>) -> (r: bool)
    ensures
        r == sorted_entry_keys(entries_model(entries@)),
{
    let ghost m = entries_model(entries@);
    if entries.len() < 2 {
        return true;
    }
    let mut i: usize = 0;
    while i < entries.len() - 1
        invariant
            entries.len() >= 2,
            i <= entries.len() - 1,
            m == entries_model(entries@),
            forall|j: int| 0 <= j < i as int
                ==> str_cmp((#[trigger] m[j]).0, m[j + 1].0) < 0,
        decreases entries.len() - i,
    {
        let c = str_cmp_exec(entries[i].0.as_str(), entries[i + 1].0.as_str());
        if c >= 0 {
            proof {
                assert(str_cmp(m[i as int].0, m[i as int + 1].0) >= 0);
            }
            return false;
        }
        i += 1;
    }
    proof {
        lemma_adjacent_sorted_pairwise(m);
    }
    true
}

/// The value stored under key `k`, found by binary search over an entry
/// list with ascending keys; agrees with the left-to-right `lookup`.
pub fn dict_get_sorted<'a>(entries: &'a Vec<(String, Value)>, k: &String) -> (r: Option<
    &'a Value,
>)
    requires
        sorted_entry_keys(entries_model(entries@)),
    ensures
        match r {
            Some(w) => lookup(entries_model(entries@), k@) == Some(w@),
            None => lookup(entries_model(entries@), k@) is None,
        },
{
    let ghost m = entries_model(entries@);
    let mut lo: usize = 0;
    let mut hi: usize = entries.len();
    while lo < hi
        invariant
            lo <= hi <= entries.len(),
            m == entries_model(entries@),
            sorted_entry_keys(m),
            forall|j: int| 0 <= j < lo as int ==> str_cmp((#[trigger] m[j]).0, k@) < 0,
            forall|j: int| hi as int <= j < m.len() ==> str_cmp(k@, (#[trigger] m[j]).0) < 0,
        decreases hi - lo,
    {
        let mid = lo + (hi - lo) / 2;
        let c = str_cmp_exec(entries[mid].0.as_str(), k.as_str());
        if c == 0 {
            proof {
                lemma_str_cmp_eq(m[mid as int].0, k@);
                assert forall|j: int| 0 <= j < mid as int
                    implies (#[trigger] m[j]).0 != m[mid as int].0 by {
                    if m[j].0 == m[mid as int].0 {
                        lemma_str_cmp_refl(m[mid as int].0);
                    }
                }
                lemma_lookup_at(m, mid as int);
            }
            return Some(&entries[mid].1);
        } else if c < 0 {
            proof {
                assert forall|j: int| 0 <= j < mid as int + 1
                    implies str_cmp((#[trigger] m[j]).0, k@) < 0 by {
                    if j < mid as int {
                        crate::model::lemma_str_cmp_trans(m[j].0, m[mid as int].0, k@);
                    }
                }
            }
            lo = mid + 1;
        } else {
            proof {
                crate::model::lemma_str_cmp_antisym(m[mid as int].0, k@);
                assert forall|j: int| mid as int <= j < m.len()
                    implies str_cmp(k@, (#[trigger] m[j]).0) < 0 by {
                    if j > mid as int {
                        crate::model::lemma_str_cmp_trans(k@, m[mid as int].0, m[j].0);
                    }
                }
            }
            hi = mid;
        }
    }
    proof {
        assert forall|j: int| 0 <= j < m.len() implies (#[trigger] m[j]).0 != k@ by {
            if m[j].0 == k@ {
                lemma_str_cmp_refl(k@);
            }
        }
        lemma_lookup_absent(m, k@);
    }
    None
}

} // verus!
