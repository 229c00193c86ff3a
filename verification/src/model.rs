//! Mathematical model of the value trees and the functions the contracts
//! speak of: equality, total order, well-formedness, heights, sorted
//! insertion, key lookup and path text.

use vstd::prelude::*;
use crate::float_bits::{float_eq_bits, float_cmp_bits};

verus! {

/// Model of a tree value: text as `Seq<char>`, collections as `Seq`,
/// floats as their IEEE-754 bit patterns.
pub enum ValueModel {
    Int(int),
    Float(u64),
    Str(Seq<char>),
    Bool(bool),
    Arr(Seq<ValueModel>),
    Dict(Seq<(Seq<char>, ValueModel)>),
}

/// Rank that orders values of different variants.
pub open spec fn variant_rank(v: ValueModel) -> int {
    match v {
        ValueModel::Int(_) => 1,
        ValueModel::Float(_) => 2,
        ValueModel::Str(_) => 3,
        ValueModel::Bool(_) => 4,
        ValueModel::Arr(_) => 5,
        ValueModel::Dict(_) => 6,
    }
}

/// The library's value equality: structural, with `float_eq_bits` on
/// floats (so NaN equals NaN) and entry-wise agreement on dicts.
pub open spec fn veq(a: ValueModel, b: ValueModel) -> bool
    decreases a,
{
    match (a, b) {
        (ValueModel::Int(x), ValueModel::Int(y)) => x == y,
        (ValueModel::Float(x), ValueModel::Float(y)) => float_eq_bits(x, y),
        (ValueModel::Str(x), ValueModel::Str(y)) => x == y,
        (ValueModel::Bool(x), ValueModel::Bool(y)) => x == y,
        (ValueModel::Arr(x), ValueModel::Arr(y)) => x.len() == y.len() && (forall|i: int|
            0 <= i < x.len() ==> veq(#[trigger] x[i], y[i])),
        (ValueModel::Dict(x), ValueModel::Dict(y)) => x.len() == y.len() && (forall|i: int|
            0 <= i < x.len() ==> (#[trigger] x[i]).0 == y[i].0 && veq(x[i].1, y[i].1)),
        _ => false,
    }
}

/// Lexicographic comparison of text, by Unicode scalar value; the shorter
/// prefix orders first.
pub open spec fn str_cmp(a: Seq<char>, b: Seq<char>) -> int
    decreases a.len(),
{
    if a.len() == 0 && b.len() == 0 {
        0
    } else if a.len() == 0 {
        -1
    } else if b.len() == 0 {
        1
    } else if (a[0] as u32) < (b[0] as u32) {
        -1
    } else if (b[0] as u32) < (a[0] as u32) {
        1
    } else {
        str_cmp(a.subrange(1, a.len() as int), b.subrange(1, b.len() as int))
    }
}

/// The library's total order over values (-1, 0 or 1): natural order
/// within a variant, the variant rank across variants, incomparable
/// floats counting as equal.
pub open spec fn vcmp(a: ValueModel, b: ValueModel) -> int
    decreases a,
{
    match (a, b) {
        (ValueModel::Int(x), ValueModel::Int(y)) => if x < y {
            -1
        } else if x > y {
            1
        } else {
            0
        },
        (ValueModel::Float(x), ValueModel::Float(y)) => float_cmp_bits(x, y),
        (ValueModel::Str(x), ValueModel::Str(y)) => str_cmp(x, y),
        (ValueModel::Bool(x), ValueModel::Bool(y)) => if !x && y {
            -1
        } else if x && !y {
            1
        } else {
            0
        },
        (ValueModel::Arr(x), ValueModel::Arr(y)) => vcmp_seq(x, y),
        (ValueModel::Dict(x), ValueModel::Dict(y)) => vcmp_entries(x, y),
        _ => if variant_rank(a) < variant_rank(b) {
            -1
        } else {
            1
        },
    }
}

/// Lexicographic, element-wise comparison of two sequences of values.
pub open spec fn vcmp_seq(x: Seq<ValueModel>, y: Seq<ValueModel>) -> int
    decreases x,
{
    if x.len() == 0 && y.len() == 0 {
        0
    } else if x.len() == 0 {
        -1
    } else if y.len() == 0 {
        1
    } else {
        let c = vcmp(x[0], y[0]);
        if c != 0 {
            c
        } else {
            vcmp_seq(x.subrange(1, x.len() as int), y.subrange(1, y.len() as int))
        }
    }
}

/// Lexicographic comparison of two entry lists: key first, then value.
pub open spec fn vcmp_entries(
    x: Seq<(Seq<char>, ValueModel)>,
    y: Seq<(Seq<char>, ValueModel)>,
) -> int
    decreases x,
{
    if x.len() == 0 && y.len() == 0 {
        0
    } else if x.len() == 0 {
        -1
    } else if y.len() == 0 {
        1
    } else {
        let ck = str_cmp(x[0].0, y[0].0);
        if ck != 0 {
            ck
        } else {
            let cv = vcmp(x[0].1, y[0].1);
            if cv != 0 {
                cv
            } else {
                vcmp_entries(x.subrange(1, x.len() as int), y.subrange(1, y.len() as int))
            }
        }
    }
}

/// Well-formed value: every dict level keeps its keys in strictly
/// ascending order (which makes them unique), recursively.
pub open spec fn wf(v: ValueModel) -> bool
    decreases v,
{
    match v {
        ValueModel::Arr(x) => forall|i: int| 0 <= i < x.len() ==> wf(#[trigger] x[i]),
        ValueModel::Dict(e) => (forall|i: int, j: int|
            0 <= i < j < e.len() ==> str_cmp(#[trigger] e[i].0, #[trigger] e[j].0) < 0)
            && (forall|i: int| 0 <= i < e.len() ==> wf((#[trigger] e[i]).1)),
        _ => true,
    }
}

/// Height of a value: 0 for leaves, one more than the tallest child for
/// collections.  The diff recursion decreases on it.
pub open spec fn vh(v: ValueModel) -> nat
    decreases v,
{
    match v {
        ValueModel::Arr(x) => 1 + seq_h(x),
        ValueModel::Dict(e) => 1 + entries_h(e),
        _ => 0,
    }
}

/// Greatest height among the values of a sequence.
pub open spec fn seq_h(x: Seq<ValueModel>) -> nat
    decreases x,
{
    if x.len() == 0 {
        0
    } else {
        let h0 = vh(x[0]);
        let hr = seq_h(x.subrange(1, x.len() as int));
        if h0 > hr {
            h0
        } else {
            hr
        }
    }
}

/// Greatest height among the values of an entry list.
pub open spec fn entries_h(e: Seq<(Seq<char>, ValueModel)>) -> nat
    decreases e,
{
    if e.len() == 0 {
        0
    } else {
        let h0 = vh(e[0].1);
        let hr = entries_h(e.subrange(1, e.len() as int));
        if h0 > hr {
            h0
        } else {
            hr
        }
    }
}

/// First value stored under key `k`, scanning left to right.
pub open spec fn lookup(e: Seq<(Seq<char>, ValueModel)>, k: Seq<char>) -> Option<ValueModel>
    decreases e,
{
    if e.len() == 0 {
        None
    } else if e[0].0 == k {
        Some(e[0].1)
    } else {
        lookup(e.subrange(1, e.len() as int), k)
    }
}

/// `v` inserted into `s` before the first element strictly greater than
/// it, so equal elements keep their old positions first (a stable insert).
pub open spec fn insert_sorted(v: ValueModel, s: Seq<ValueModel>) -> Seq<ValueModel>
    decreases s,
{
    if s.len() == 0 {
        seq![v]
    } else if vcmp(v, s[0]) < 0 {
        seq![v] + s
    } else {
        seq![s[0]] + insert_sorted(v, s.subrange(1, s.len() as int))
    }
}

/// Stable insertion sort of a sequence under the library's value order:
/// what order-insensitive array comparison sorts each side with.
pub open spec fn sort_spec(s: Seq<ValueModel>) -> Seq<ValueModel>
    decreases s,
{
    if s.len() == 0 {
        Seq::empty()
    } else {
        insert_sorted(s.last(), sort_spec(s.drop_last()))
    }
}

/// Decimal digit as a character.
pub open spec fn digit_char(d: int) -> char {
    if d == 0 {
        '0'
    } else if d == 1 {
        '1'
    } else if d == 2 {
        '2'
    } else if d == 3 {
        '3'
    } else if d == 4 {
        '4'
    } else if d == 5 {
        '5'
    } else if d == 6 {
        '6'
    } else if d == 7 {
        '7'
    } else if d == 8 {
        '8'
    } else {
        '9'
    }
}

/// Decimal text of `n`, most significant digit first, no leading zeros.
pub open spec fn dec_digits(n: nat) -> Seq<char>
    decreases n,
{
    if n < 10 {
        seq![digit_char(n as int)]
    } else {
        dec_digits(n / 10) + seq![digit_char((n % 10) as int)]
    }
}

/// Path of the entry under key `k` below the node at `p`: dot-joined,
/// with no leading dot at the root.
pub open spec fn key_path(p: Seq<char>, k: Seq<char>) -> Seq<char> {
    if p.len() == 0 {
        k
    } else {
        p + seq!['.'] + k
    }
}

/// Path of the element at index `i` below the node at `p`.
pub open spec fn index_path(p: Seq<char>, i: nat) -> Seq<char> {
    p + seq!['['] + dec_digits(i) + seq![']']
}

/// A value no taller than some element of `x` is bounded by `seq_h(x)`.
pub proof fn lemma_seq_h_index(x: Seq<ValueModel>, i: int)
    requires
        0 <= i < x.len(),
    ensures
        vh(x[i]) <= seq_h(x),
    decreases i,
{
    if i == 0 {
    } else {
        lemma_seq_h_index(x.subrange(1, x.len() as int), i - 1);
        assert(x.subrange(1, x.len() as int)[i - 1] == x[i]);
    }
}

/// The value of every entry is bounded by `entries_h`.
pub proof fn lemma_entries_h_index(e: Seq<(Seq<char>, ValueModel)>, i: int)
    requires
        0 <= i < e.len(),
    ensures
        vh(e[i].1) <= entries_h(e),
    decreases i,
{
    if i == 0 {
    } else {
        lemma_entries_h_index(e.subrange(1, e.len() as int), i - 1);
        assert(e.subrange(1, e.len() as int)[i - 1] == e[i]);
    }
}

/// A value found by `lookup` is bounded by `entries_h`.
pub proof fn lemma_lookup_h(e: Seq<(Seq<char>, ValueModel)>, k: Seq<char>)
    requires
        lookup(e, k) is Some,
    ensures
        vh(lookup(e, k)->0) <= entries_h(e),
    decreases e,
{
    if e.len() == 0 {
    } else if e[0].0 == k {
    } else {
        lemma_lookup_h(e.subrange(1, e.len() as int), k);
    }
}

/// Inserting keeps exactly the old elements plus the new one.
pub proof fn lemma_insert_sorted_contains(v: ValueModel, s: Seq<ValueModel>, w: ValueModel)
    ensures
        insert_sorted(v, s).contains(w) <==> (w == v || s.contains(w)),
    decreases s,
{
    if s.len() == 0 {
        assert(insert_sorted(v, s) == seq![v]);
        assert(insert_sorted(v, s)[0] == v);
    } else if vcmp(v, s[0]) < 0 {
        assert(insert_sorted(v, s) == seq![v] + s);
        if s.contains(w) {
            let i = choose|i: int| 0 <= i < s.len() && s[i] == w;
            assert((seq![v] + s)[i + 1] == w);
        }
        if insert_sorted(v, s).contains(w) {
            let i = choose|i: int| 0 <= i < insert_sorted(v, s).len()
                && insert_sorted(v, s)[i] == w;
            if i > 0 {
                assert(s[i - 1] == w);
            }
        }
    } else {
        let tail = s.subrange(1, s.len() as int);
        lemma_insert_sorted_contains(v, tail, w);
        let rest = insert_sorted(v, tail);
        assert(insert_sorted(v, s) == seq![s[0]] + rest);
        if insert_sorted(v, s).contains(w) {
            let i = choose|i: int| 0 <= i < insert_sorted(v, s).len()
                && insert_sorted(v, s)[i] == w;
            if i == 0 {
                assert(s[0] == w);
            } else {
                assert(rest[i - 1] == w);
                assert(rest.contains(w));
                if tail.contains(w) {
                    let j = choose|j: int| 0 <= j < tail.len() && tail[j] == w;
                    assert(s[j + 1] == w);
                }
            }
        }
        if w == v || s.contains(w) {
            if w == s[0] {
                assert(insert_sorted(v, s)[0] == w);
            } else {
                if s.contains(w) {
                    let i = choose|i: int| 0 <= i < s.len() && s[i] == w;
                    assert(i > 0);
                    assert(tail[i - 1] == w);
                    assert(tail.contains(w));
                }
                assert(rest.contains(w));
                let j = choose|j: int| 0 <= j < rest.len() && rest[j] == w;
                assert(insert_sorted(v, s)[j + 1] == w);
            }
        }
    }
}

/// Sorting keeps only elements of the input.
pub proof fn lemma_sort_contains(s: Seq<ValueModel>, w: ValueModel)
    requires
        sort_spec(s).contains(w),
    ensures
        s.contains(w),
    decreases s,
{
    if s.len() == 0 {
    } else {
        lemma_insert_sorted_contains(s.last(), sort_spec(s.drop_last()), w);
        if w == s.last() {
            assert(s[s.len() - 1] == w);
        } else {
            lemma_sort_contains(s.drop_last(), w);
            let i = choose|i: int| 0 <= i < s.drop_last().len() && s.drop_last()[i] == w;
            assert(s[i] == w);
        }
    }
}

/// Inserting a value makes the tallest element the taller of the two sides.
pub proof fn lemma_insert_sorted_h(v: ValueModel, s: Seq<ValueModel>)
    ensures
        seq_h(insert_sorted(v, s)) == if vh(v) > seq_h(s) { vh(v) } else { seq_h(s) },
    decreases s,
{
    if s.len() == 0 {
        let r = seq![v];
        reveal_with_fuel(seq_h, 2);
        assert(insert_sorted(v, s) == r);
        assert(r[0] == v);
        assert(r.subrange(1, 1) =~= Seq::<ValueModel>::empty());
        assert(seq_h(r) == vh(v));
    } else if vcmp(v, s[0]) < 0 {
        let r = seq![v] + s;
        assert(r[0] == v);
        assert(r.subrange(1, r.len() as int) =~= s);
        assert(seq_h(r) == if vh(v) > seq_h(s) { vh(v) } else { seq_h(s) });
    } else {
        let tail = s.subrange(1, s.len() as int);
        lemma_insert_sorted_h(v, tail);
        let rest = insert_sorted(v, tail);
        let r = seq![s[0]] + rest;
        assert(insert_sorted(v, s) == r);
        assert(r.subrange(1, r.len() as int) =~= rest);
        assert(r[0] == s[0]);
        assert(seq_h(s) == if vh(s[0]) > seq_h(tail) { vh(s[0]) } else { seq_h(tail) });
        assert(seq_h(r) == if vh(s[0]) > seq_h(rest) { vh(s[0]) } else { seq_h(rest) });
    }
}

/// The tallest element, taken off the back.
pub proof fn lemma_seq_h_unsnoc(s: Seq<ValueModel>)
    requires
        s.len() > 0,
    ensures
        seq_h(s) == if vh(s.last()) > seq_h(s.drop_last()) { vh(s.last()) } else {
            seq_h(s.drop_last())
        },
    decreases s,
{
    if s.len() == 1 {
        assert(s.drop_last() =~= Seq::<ValueModel>::empty());
        assert(s.subrange(1, s.len() as int) =~= Seq::<ValueModel>::empty());
    } else {
        let tail = s.subrange(1, s.len() as int);
        lemma_seq_h_unsnoc(tail);
        assert(tail.last() == s.last());
        assert(tail.drop_last() =~= s.drop_last().subrange(1, s.drop_last().len() as int));
        assert(s.drop_last()[0] == s[0]);
    }
}

/// Sorting never changes the tallest element.
pub proof fn lemma_sort_h(s: Seq<ValueModel>)
    ensures
        seq_h(sort_spec(s)) == seq_h(s),
    decreases s,
{
    if s.len() == 0 {
    } else {
        lemma_sort_h(s.drop_last());
        lemma_insert_sorted_h(s.last(), sort_spec(s.drop_last()));
        lemma_seq_h_unsnoc(s);
    }
}

/// Inserting lands at the first position whose element is strictly
/// greater than the inserted value.
pub proof fn lemma_insert_sorted_at(v: ValueModel, s: Seq<ValueModel>, p: int)
    requires
        0 <= p <= s.len(),
        forall|j: int| 0 <= j < p ==> vcmp(v, #[trigger] s[j]) >= 0,
        p < s.len() ==> vcmp(v, s[p]) < 0,
    ensures
        insert_sorted(v, s) == s.subrange(0, p) + seq![v] + s.subrange(p, s.len() as int),
    decreases s,
{
    if s.len() == 0 {
        assert(insert_sorted(v, s) =~= s.subrange(0, p) + seq![v] + s.subrange(p, 0));
    } else if vcmp(v, s[0]) < 0 {
        assert(p == 0);
        assert(insert_sorted(v, s) =~= s.subrange(0, 0) + seq![v] + s.subrange(0, s.len() as int));
    } else {
        assert(p >= 1);
        let tail = s.subrange(1, s.len() as int);
        assert(forall|j: int| 0 <= j < p - 1 ==> vcmp(v, #[trigger] tail[j]) >= 0) by {
            assert(forall|j: int| 0 <= j < p - 1 ==> #[trigger] tail[j] == s[j + 1]);
        }
        lemma_insert_sorted_at(v, tail, p - 1);
        assert(seq![s[0]] + (tail.subrange(0, p - 1) + seq![v] + tail.subrange(p - 1,
            tail.len() as int)) =~= s.subrange(0, p) + seq![v] + s.subrange(p, s.len() as int));
    }
}

/// Comparing text with itself gives 0.
pub proof fn lemma_str_cmp_refl(a: Seq<char>)
    ensures
        str_cmp(a, a) == 0,
    decreases a.len(),
{
    if a.len() > 0 {
        lemma_str_cmp_refl(a.subrange(1, a.len() as int));
    }
}

/// An entry whose key does not occur earlier is what `lookup` finds.
pub proof fn lemma_lookup_at(e: Seq<(Seq<char>, ValueModel)>, i: int)
    requires
        0 <= i < e.len(),
        forall|j: int| 0 <= j < i ==> (#[trigger] e[j]).0 != e[i].0,
    ensures
        lookup(e, e[i].0) == Some(e[i].1),
    decreases i,
{
    if i > 0 {
        let tail = e.subrange(1, e.len() as int);
        assert(forall|j: int| 0 <= j < i - 1 ==> (#[trigger] tail[j]).0 != tail[i - 1].0) by {
            assert(forall|j: int| 0 <= j < i - 1 ==> #[trigger] tail[j] == e[j + 1]);
        }
        lemma_lookup_at(tail, i - 1);
        assert(tail[i - 1] == e[i]);
    }
}

/// A key that occurs anywhere is found by `lookup`.
pub proof fn lemma_lookup_present(e: Seq<(Seq<char>, ValueModel)>, i: int)
    requires
        0 <= i < e.len(),
    ensures
        lookup(e, e[i].0) is Some,
    decreases i,
{
    if e[0].0 != e[i].0 {
        let tail = e.subrange(1, e.len() as int);
        lemma_lookup_present(tail, i - 1);
        assert(tail[i - 1] == e[i]);
    }
}

/// Comparing equal text gives 0 only for equal text.
pub proof fn lemma_str_cmp_eq(a: Seq<char>, b: Seq<char>)
    requires
        str_cmp(a, b) == 0,
    ensures
        a == b,
    decreases a.len(),
{
    if a.len() > 0 {
        vstd::utf8::char_u32_cast(a[0], a[0] as u32);
        vstd::utf8::char_u32_cast(b[0], b[0] as u32);
        assert(a[0] == b[0]);
        let ta = a.subrange(1, a.len() as int);
        let tb = b.subrange(1, b.len() as int);
        lemma_str_cmp_eq(ta, tb);
        assert forall|i: int| 0 <= i < a.len() implies a[i] == b[i] by {
            if i > 0 {
                assert(ta[i - 1] == a[i]);
                assert(tb[i - 1] == b[i]);
            }
        }
        assert(a =~= b);
    } else {
        assert(a =~= b);
    }
}

/// The text order is transitive.
pub proof fn lemma_str_cmp_trans(a: Seq<char>, b: Seq<char>, c: Seq<char>)
    requires
        str_cmp(a, b) < 0,
        str_cmp(b, c) < 0,
    ensures
        str_cmp(a, c) < 0,
    decreases a.len(),
{
    if a.len() == 0 {
    } else {
        if (a[0] as u32) == (b[0] as u32) && (b[0] as u32) == (c[0] as u32) {
            lemma_str_cmp_trans(a.subrange(1, a.len() as int), b.subrange(1, b.len() as int),
                c.subrange(1, c.len() as int));
        }
    }
}

/// The text order reverses with its arguments.
pub proof fn lemma_str_cmp_antisym(a: Seq<char>, b: Seq<char>)
    ensures
        str_cmp(a, b) == -str_cmp(b, a),
    decreases a.len(),
{
    if a.len() > 0 && b.len() > 0 {
        if (a[0] as u32) == (b[0] as u32) {
            lemma_str_cmp_antisym(a.subrange(1, a.len() as int), b.subrange(1, b.len() as int));
        }
    }
}

/// A key absent from every entry is not found.
pub proof fn lemma_lookup_absent(e: Seq<(Seq<char>, ValueModel)>, k: Seq<char>)
    requires
        forall|j: int| 0 <= j < e.len() ==> (#[trigger] e[j]).0 != k,
    ensures
        lookup(e, k) is None,
    decreases e,
{
    if e.len() > 0 {
        let tail = e.subrange(1, e.len() as int);
        assert(forall|j: int| 0 <= j < tail.len() ==> (#[trigger] tail[j]).0 != k) by {
            assert(forall|j: int| 0 <= j < tail.len() ==> #[trigger] tail[j] == e[j + 1]);
        }
        lemma_lookup_absent(tail, k);
    }
}

/// The keys of an entry list are in strictly ascending order.
pub open spec fn sorted_entry_keys(e: Seq<(Seq<char>, ValueModel)>) -> bool {
    forall|i: int, j: int| 0 <= i < j < e.len()
        ==> str_cmp((#[trigger] e[i]).0, (#[trigger] e[j]).0) < 0
}

/// A chain of ascending neighbours orders its two ends.
pub proof fn lemma_str_cmp_chain(e: Seq<(Seq<char>, ValueModel)>, a: int, b: int)
    requires
        forall|j: int| 0 <= j < e.len() - 1
            ==> str_cmp((#[trigger] e[j]).0, e[j + 1].0) < 0,
        0 <= a < b < e.len(),
    ensures
        str_cmp(e[a].0, e[b].0) < 0,
    decreases b - a,
{
    if b > a + 1 {
        lemma_str_cmp_chain(e, a, b - 1);
        lemma_str_cmp_trans(e[a].0, e[b - 1].0, e[b].0);
    }
}

/// Neighbour-wise ascending keys are pairwise ascending.
pub proof fn lemma_adjacent_sorted_pairwise(e: Seq<(Seq<char>, ValueModel)>)
    requires
        forall|j: int| 0 <= j < e.len() - 1
            ==> str_cmp((#[trigger] e[j]).0, e[j + 1].0) < 0,
    ensures
        sorted_entry_keys(e),
{
    assert forall|a: int, b: int| 0 <= a < b < e.len()
        implies str_cmp((#[trigger] e[a]).0, (#[trigger] e[b]).0) < 0 by {
        lemma_str_cmp_chain(e, a, b);
    }
}



/// Inserting into a sequence adds exactly the inserted element to its
/// multiset.
pub proof fn lemma_insert_sorted_multiset(v: ValueModel, s: Seq<ValueModel>)
    ensures
        insert_sorted(v, s).to_multiset() == s.to_multiset().insert(v),
    decreases s,
{
    broadcast use vstd::multiset::group_multiset_axioms;
    broadcast use vstd::seq_lib::group_to_multiset_ensures;

    if s.len() == 0 {
        assert(insert_sorted(v, s) =~= Seq::<ValueModel>::empty().push(v));
        assert(s.to_multiset().insert(v) =~= Seq::<ValueModel>::empty().push(v).to_multiset());
    } else if vcmp(v, s[0]) < 0 {
        vstd::seq_lib::lemma_multiset_commutative(seq![v], s);
        assert(seq![v] =~= Seq::<ValueModel>::empty().push(v));
        assert((seq![v] + s).to_multiset() =~= s.to_multiset().insert(v));
    } else {
        let tail = s.subrange(1, s.len() as int);
        lemma_insert_sorted_multiset(v, tail);
        vstd::seq_lib::lemma_multiset_commutative(seq![s[0]], insert_sorted(v, tail));
        vstd::seq_lib::lemma_multiset_commutative(seq![s[0]], tail);
        assert(seq![s[0]] =~= Seq::<ValueModel>::empty().push(s[0]));
        assert(s =~= seq![s[0]] + tail);
        assert((seq![s[0]] + insert_sorted(v, tail)).to_multiset()
            =~= s.to_multiset().insert(v));
    }
}

} // verus!
