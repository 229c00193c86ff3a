//! Boundary between parsed JSON and the value model.
//!
//! A parsed `serde_json::Value` is first mirrored structurally into the
//! library's own `Json` tree (the one trusted step), and the mirror is
//! then normalized into a `Value` by verified code: null becomes the
//! marker string "null", numbers keep serde_json's integer/float
//! classification, and objects become sorted dicts.

use vstd::prelude::*;
use vstd::string::StringExecFns;
use serde_json::Value as JsonDocument;
use crate::engine::{diff_value, diffs_model, DeepDiff, Diff};
use crate::model::{seq_h, str_cmp, vh, wf, ValueModel, lemma_seq_h_index, lemma_entries_h_index};
use crate::value::{arr_model, entries_model, value_model, lemma_array_view, lemma_dict_view};

verus! {

#[verifier::external_type_specification]
#[verifier::external_body]
pub struct ExJsonValue(JsonDocument);

/// Structural mirror of a parsed JSON document; floats carried as their
/// IEEE-754 bit patterns.
pub enum Json {
    Null,
    Bool(bool),
    Int(i64),
    Float(u64),
    Str(String),
    Arr(Vec<Json>),
    Obj(Vec<(String, Json)>),
}

/// Every object level of the mirror keeps its keys strictly ascending.
pub open spec fn json_wf(j: Json) -> bool
    decreases j,
{
    match j {
        Json::Arr(items) => json_seq_wf(items@),
        Json::Obj(entries) => (forall|i: int, j: int|
            0 <= i < j < entries@.len()
                ==> str_cmp((#[trigger] entries@[i]).0@, (#[trigger] entries@[j]).0@) < 0)
            && json_obj_vals_wf(entries@),
        _ => true,
    }
}

/// Every element of the sequence is well-formed.
pub open spec fn json_seq_wf(s: Seq<Json>) -> bool
    decreases s,
{
    if s.len() == 0 {
        true
    } else {
        json_wf(s[0]) && json_seq_wf(s.subrange(1, s.len() as int))
    }
}

/// Every entry value of the list is well-formed.
pub open spec fn json_obj_vals_wf(s: Seq<(String, Json)>) -> bool
    decreases s,
{
    if s.len() == 0 {
        true
    } else {
        json_wf(s[0].1) && json_obj_vals_wf(s.subrange(1, s.len() as int))
    }
}

/// The value tree a parsed document mirrors and normalizes to.  It is a
/// function of the document alone: serde_json's map iterates in a fixed
/// ascending order and its integer/float classification is fixed, so the
/// same document always mirrors to the same tree.
pub uninterp spec fn mirror_of(j: JsonDocument) -> ValueModel;

/// Relies on serde_json::Value: the six variants are told apart one arm
/// each; a number becomes an integer exactly when serde_json holds it as
/// one (`as_i64`), and its bit pattern otherwise; an object hands its
/// entries out in serde_json's map order, which is ascending by key with
/// unique keys (a B-tree map keyed by `String`, whose byte-wise order
/// agrees with the library's character order on UTF-8 text).  The result
/// depends on the document alone, so its normalized value carries the
/// name `mirror_of`.
#[verifier::external_body]
fn json_tree(j: &JsonDocument) -> (r: Json)
    ensures
        json_wf(r),
        json_model(r) == mirror_of(*j),
{
    match j {
        JsonDocument::Null => Json::Null,
        JsonDocument::Bool(b) => Json::Bool(*b),
        JsonDocument::Number(n) => match n.as_i64() {
            Some(i) => Json::Int(i),
            None => Json::Float(n.as_f64().unwrap().to_bits()),
        },
        JsonDocument::String(s) => Json::Str(s.clone()),
        JsonDocument::Array(a) => Json::Arr(a.iter().map(json_tree).collect()),
        JsonDocument::Object(o) => Json::Obj(
            o.iter().map(|(k, v)| (k.clone(), json_tree(v))).collect(),
        ),
    }
}

/// The value a mirror tree normalizes to: null becomes the marker string
/// "null", everything else maps variant to variant.
pub open spec fn json_model(j: Json) -> ValueModel
    decreases j,
{
    match j {
        Json::Null => ValueModel::Str(seq!['n', 'u', 'l', 'l']),
        Json::Bool(b) => ValueModel::Bool(b),
        Json::Int(i) => ValueModel::Int(i as int),
        Json::Float(bits) => ValueModel::Float(bits),
        Json::Str(s) => ValueModel::Str(s@),
        Json::Arr(items) => ValueModel::Arr(json_arr_model(items@)),
        Json::Obj(entries) => ValueModel::Dict(json_obj_model(entries@)),
    }
}

/// Models of a mirror sequence, element by element.
pub open spec fn json_arr_model(s: Seq<Json>) -> Seq<ValueModel>
    decreases s,
{
    if s.len() == 0 {
        Seq::empty()
    } else {
        seq![json_model(s[0])] + json_arr_model(s.subrange(1, s.len() as int))
    }
}

/// Models of a mirror entry list, entry by entry.
pub open spec fn json_obj_model(s: Seq<(String, Json)>) -> Seq<(Seq<char>, ValueModel)>
    decreases s,
{
    if s.len() == 0 {
        Seq::empty()
    } else {
        seq![(s[0].0@, json_model(s[0].1))] + json_obj_model(s.subrange(1, s.len() as int))
    }
}

/// Length and elements of `json_arr_model`.
pub proof fn lemma_json_arr_model(s: Seq<Json>)
    ensures
        json_arr_model(s).len() == s.len(),
        forall|i: int| 0 <= i < s.len()
            ==> #[trigger] json_arr_model(s)[i] == json_model(s[i]),
    decreases s,
{
    if s.len() > 0 {
        let tail = s.subrange(1, s.len() as int);
        lemma_json_arr_model(tail);
        assert forall|i: int| 0 <= i < s.len() implies #[trigger] json_arr_model(s)[i]
            == json_model(s[i]) by {
            if i > 0 {
                assert(json_arr_model(s)[i] == json_arr_model(tail)[i - 1]);
                assert(tail[i - 1] == s[i]);
            }
        }
    }
}

/// Length and entries of `json_obj_model`.
pub proof fn lemma_json_obj_model(s: Seq<(String, Json)>)
    ensures
        json_obj_model(s).len() == s.len(),
        forall|i: int| 0 <= i < s.len()
            ==> #[trigger] json_obj_model(s)[i] == (s[i].0@, json_model(s[i].1)),
    decreases s,
{
    if s.len() > 0 {
        let tail = s.subrange(1, s.len() as int);
        lemma_json_obj_model(tail);
        assert forall|i: int| 0 <= i < s.len() implies #[trigger] json_obj_model(s)[i]
            == (s[i].0@, json_model(s[i].1)) by {
            if i > 0 {
                assert(json_obj_model(s)[i] == json_obj_model(tail)[i - 1]);
                assert(tail[i - 1] == s[i]);
            }
        }
    }
}

/// A well-formed mirror normalizes to a well-formed value.
pub proof fn lemma_json_model_wf(j: Json)
    requires
        json_wf(j),
    ensures
        wf(json_model(j)),
    decreases j,
{
    match j {
        Json::Arr(items) => {
            lemma_json_arr_model(items@);
            lemma_json_seq_model_wf(items@);
        },
        Json::Obj(entries) => {
            lemma_json_obj_model(entries@);
            lemma_json_obj_vals_model_wf(entries@);
        },
        _ => {},
    }
}

/// Element-wise form of `lemma_json_model_wf` for sequences.
proof fn lemma_json_seq_model_wf(s: Seq<Json>)
    requires
        json_seq_wf(s),
    ensures
        forall|i: int| 0 <= i < s.len() ==> wf(json_model(#[trigger] s[i])),
    decreases s,
{
    if s.len() > 0 {
        let tail = s.subrange(1, s.len() as int);
        lemma_json_seq_model_wf(tail);
        lemma_json_model_wf(s[0]);
        assert forall|i: int| 0 <= i < s.len() implies wf(json_model(#[trigger] s[i])) by {
            if i > 0 {
                assert(tail[i - 1] == s[i]);
            }
        }
    }
}

/// Entry-wise form of `lemma_json_model_wf` for entry lists.
proof fn lemma_json_obj_vals_model_wf(s: Seq<(String, Json)>)
    requires
        json_obj_vals_wf(s),
    ensures
        forall|i: int| 0 <= i < s.len() ==> wf(json_model((#[trigger] s[i]).1)),
    decreases s,
{
    if s.len() > 0 {
        let tail = s.subrange(1, s.len() as int);
        lemma_json_obj_vals_model_wf(tail);
        lemma_json_model_wf(s[0].1);
        assert forall|i: int| 0 <= i < s.len() implies wf(json_model((#[trigger] s[i]).1)) by {
            if i > 0 {
                assert(tail[i - 1] == s[i]);
            }
        }
    }
}

/// Height of the normalized value of an element is bounded by the height
/// of the whole sequence's models.
proof fn lemma_json_arr_h(s: Seq<Json>, i: int)
    requires
        0 <= i < s.len(),
    ensures
        vh(json_model(s[i])) <= seq_h(json_arr_model(s)),
{
    lemma_json_arr_model(s);
    lemma_seq_h_index(json_arr_model(s), i);
}

/// Normalize a mirror tree into a value (`json_model` on the views).
pub fn value_of_json(j: &Json) -> (v: crate::value::Value)
    ensures
        v@ == json_model(*j),
    decreases vh(json_model(*j)),
{
    match j {
        Json::Null => {
            proof {
                reveal_strlit("null");
            }
            let s = String::from_str("null");
            proof {
                assert(s@ =~= seq!['n', 'u', 'l', 'l']);
            }
            crate::value::Value::String(s)
        },
        Json::Bool(b) => crate::value::Value::Bool(*b),
        Json::Int(i) => crate::value::Value::Int(*i),
        Json::Float(bits) => crate::value::Value::Float(*bits),
        Json::Str(s) => crate::value::Value::String(s.clone()),
        Json::Arr(items) => {
            let ghost m = json_arr_model(items@);
            proof {
                lemma_json_arr_model(items@);
            }
            let mut out: Vec<crate::value::Value> = Vec::new();
            let mut i: usize = 0;
            while i < items.len()
                invariant
                    i <= items.len(),
                    out@.len() == i as int,
                    m == json_arr_model(items@),
                    json_model(*j) == ValueModel::Arr(m),
                    m.len() == items@.len(),
                    forall|k: int| 0 <= k < items@.len()
                        ==> #[trigger] m[k] == json_model(items@[k]),
                    forall|k: int| 0 <= k < i as int ==> value_model(#[trigger] out@[k]) == m[k],
                decreases items.len() - i,
            {
                proof {
                    lemma_json_arr_h(items@, i as int);
                }
                out.push(value_of_json(&items[i]));
                i += 1;
            }
            proof {
                lemma_array_view(out);
                assert(arr_model(out@) =~= m);
            }
            crate::value::Value::Array(out)
        },
        Json::Obj(entries) => {
            let ghost m = json_obj_model(entries@);
            proof {
                lemma_json_obj_model(entries@);
            }
            let mut out: Vec<(String, crate::value::Value)> = Vec::new();
            let mut i: usize = 0;
            while i < entries.len()
                invariant
                    i <= entries.len(),
                    out@.len() == i as int,
                    m == json_obj_model(entries@),
                    json_model(*j) == ValueModel::Dict(m),
                    m.len() == entries@.len(),
                    forall|k: int| 0 <= k < entries@.len()
                        ==> #[trigger] m[k] == (entries@[k].0@, json_model(entries@[k].1)),
                    forall|k: int| 0 <= k < i as int
                        ==> (#[trigger] out@[k]).0@ == m[k].0
                            && value_model(out@[k].1) == m[k].1,
                decreases entries.len() - i,
            {
                proof {
                    lemma_entries_h_index(m, i as int);
                }
                let key = entries[i].0.clone();
                let val = value_of_json(&entries[i].1);
                out.push((key, val));
                i += 1;
            }
            proof {
                lemma_dict_view(out);
                assert(entries_model(out@) =~= m);
            }
            crate::value::Value::Dict(out)
        },
    }
}

impl DeepDiff {
    /// Diff two parsed JSON documents: each is mirrored, normalized into
    /// a well-formed value tree, and the two trees are compared.  The
    /// result is pinned to the diff of the two documents' own normalized
    /// trees under this configuration.
    pub fn compare_json(
        &self,
        json1: &JsonDocument,
        json2: &JsonDocument,
    ) -> (r: Vec<Diff>)
        ensures
            wf(mirror_of(*json1)),
            wf(mirror_of(*json2)),
            diffs_model(r@) == diff_value(*self, mirror_of(*json1), mirror_of(*json2),
                Seq::empty()),
    {
        let t1 = json_tree(json1);
        let t2 = json_tree(json2);
        let v1 = value_of_json(&t1);
        let v2 = value_of_json(&t2);
        proof {
            lemma_json_model_wf(t1);
            lemma_json_model_wf(t2);
        }
        self.compare(&v1, &v2)
    }
}

} // verus!
