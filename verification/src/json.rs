//! JSON-like values and the lossless conversion from msgpack values,
//! which rejects binary and extension payloads with a named error.

use vstd::prelude::*;

use crate::error::NeovimError;
use crate::text::{bytes_to_string, utf8_decode};
use crate::value::{vm, vm_items, vm_pairs, Value, ValueModel};

verus! {

broadcast use vstd::std_specs::vec::axiom_vec_index_decreases, vstd::seq::axiom_seq_index_decreases;

/// A JSON value.  Floats are carried as their IEEE 754 bit patterns; NaN
/// and infinities are rejected at conversion, as JSON cannot hold them.
pub enum JsonValue {
    Null,
    Bool(bool),
    Int(i64),
    UInt(u64),
    /// A finite 32-bit float, as its bit pattern.
    F32(u32),
    /// A finite 64-bit float, as its bit pattern.
    F64(u64),
    Str(String),
    Array(Vec<JsonValue>),
    Object(Vec<(String, JsonValue)>),
}

/// The mathematical model of a [`JsonValue`].
pub enum JsonModel {
    Null,
    Bool(bool),
    Int(int),
    UInt(int),
    F32(int),
    F64(int),
    Str(Seq<char>),
    Array(Seq<JsonModel>),
    Object(Seq<(Seq<char>, JsonModel)>),
}

/// The model of a [`JsonValue`].
pub open spec fn jm(j: JsonValue) -> JsonModel
    decreases j, 0int,
{
    match j {
        JsonValue::Null => JsonModel::Null,
        JsonValue::Bool(b) => JsonModel::Bool(b),
        JsonValue::Int(i) => JsonModel::Int(i as int),
        JsonValue::UInt(u) => JsonModel::UInt(u as int),
        JsonValue::F32(bits) => JsonModel::F32(bits as int),
        JsonValue::F64(bits) => JsonModel::F64(bits as int),
        JsonValue::Str(s) => JsonModel::Str(s@),
        JsonValue::Array(items) => JsonModel::Array(jm_items(items, items.len() as int)),
        JsonValue::Object(members) => JsonModel::Object(
            jm_members(members, members.len() as int),
        ),
    }
}

/// The models of the first `n` elements of `items`.
pub open spec fn jm_items(items: Vec<JsonValue>, n: int) -> Seq<JsonModel>
    decreases items, n,
{
    if 0 < n && n <= items.len() {
        jm_items(items, n - 1).push(jm(items[n - 1]))
    } else {
        Seq::empty()
    }
}

/// The models of the first `n` members of `members`.
pub open spec fn jm_members(members: Vec<(String, JsonValue)>, n: int) -> Seq<
    (Seq<char>, JsonModel),
>
    decreases members, n,
{
    if 0 < n && n <= members.len() {
        jm_members(members, n - 1).push(
            (members[n - 1].0@, jm(members[n - 1].1)),
        )
    } else {
        Seq::empty()
    }
}

/// Each prefix model has the expected length and elements.
pub proof fn lemma_jm_items(items: Vec<JsonValue>, n: int)
    requires
        0 <= n <= items.len(),
    ensures
        jm_items(items, n).len() == n,
        forall|i: int| 0 <= i < n ==> #[trigger] jm_items(items, n)[i] == jm(items[i]),
    decreases n,
{
    if 0 < n {
        lemma_jm_items(items, n - 1);
    }
}

/// Each prefix member model has the expected length and elements.
pub proof fn lemma_jm_members(members: Vec<(String, JsonValue)>, n: int)
    requires
        0 <= n <= members.len(),
    ensures
        jm_members(members, n).len() == n,
        forall|i: int| 0 <= i < n ==> #[trigger] jm_members(members, n)[i]
            == (members[i].0@, jm(members[i].1)),
    decreases n,
{
    if 0 < n {
        lemma_jm_members(members, n - 1);
    }
}

/// The 32-bit float with these bits is NaN or an infinity.
pub open spec fn f32_non_finite(bits: int) -> bool {
    (bits as u32) >> 23u32 & 0xff == 0xff
}

/// The 64-bit float with these bits is NaN or an infinity.
pub open spec fn f64_non_finite(bits: int) -> bool {
    (bits as u64) >> 52u64 & 0x7ff == 0x7ff
}

/// What converting a msgpack value to JSON yields: `None` where the value
/// cannot be represented — a binary or extension payload, a non-finite
/// float, a non-UTF-8 string, or a map key that is not a UTF-8 string.
pub open spec fn json_of(v: ValueModel) -> Option<JsonModel>
    decreases v, 1int,
{
    match v {
        ValueModel::Nil => Some(JsonModel::Null),
        ValueModel::Bool(b) => Some(JsonModel::Bool(b)),
        ValueModel::Int(i) => Some(JsonModel::Int(i)),
        ValueModel::UInt(u) => Some(JsonModel::UInt(u)),
        ValueModel::F32(bits) => if f32_non_finite(bits) {
            None
        } else {
            Some(JsonModel::F32(bits))
        },
        ValueModel::F64(bits) => if f64_non_finite(bits) {
            None
        } else {
            Some(JsonModel::F64(bits))
        },
        ValueModel::Str(bytes) => match utf8_decode(bytes) {
            Some(chars) => Some(JsonModel::Str(chars)),
            None => None,
        },
        ValueModel::Bin(_) => None,
        ValueModel::Array(items) => match json_of_list(items, items.len() as int) {
            Some(js) => Some(JsonModel::Array(js)),
            None => None,
        },
        ValueModel::Dict(pairs) => match json_of_members(pairs, pairs.len() as int) {
            Some(ms) => Some(JsonModel::Object(ms)),
            None => None,
        },
        ValueModel::Ext(_, _) => None,
    }
}

/// Converts the first `n` elements, failing if any fails.
pub open spec fn json_of_list(items: Seq<ValueModel>, n: int) -> Option<Seq<JsonModel>>
    decreases items, n, 0int,
{
    if n <= 0 || n > items.len() {
        Some(Seq::empty())
    } else {
        match (json_of_list(items, n - 1), json_of(items[n - 1])) {
            (Some(js), Some(j)) => Some(js.push(j)),
            _ => None,
        }
    }
}

/// Converts the first `n` pairs to object members: every key must be a
/// UTF-8 string, and every value representable.
pub open spec fn json_of_members(pairs: Seq<(ValueModel, ValueModel)>, n: int) -> Option<
    Seq<(Seq<char>, JsonModel)>,
>
    decreases pairs, n, 0int,
{
    if n <= 0 || n > pairs.len() {
        Some(Seq::empty())
    } else {
        match json_of_members(pairs, n - 1) {
            None => None,
            Some(ms) => match pairs[n - 1].0 {
                ValueModel::Str(key_bytes) => match (
                    utf8_decode(key_bytes),
                    json_of(pairs[n - 1].1),
                ) {
                    (Some(key), Some(j)) => Some(ms.push((key, j))),
                    _ => None,
                },
                _ => None,
            },
        }
    }
}

/// Converts a msgpack value into the JSON value it denotes.  Fails with
/// `Api` exactly on values JSON cannot hold: binary payloads, extension
/// payloads, NaN or infinite floats, non-UTF-8 strings, and map keys that
/// are not UTF-8 strings.
pub fn convert_nvim_value_to_json(v: &Value) -> (r: Result<JsonValue, NeovimError>)
    ensures
        (r matches Ok(j) ==> json_of(vm(*v)) == Some(jm(j))),
        (r matches Err(e) ==> json_of(vm(*v)) is None && e is Api),
    decreases *v, 1int,
{
    match v {
        Value::Nil => Ok(JsonValue::Null),
        Value::Bool(b) => Ok(JsonValue::Bool(*b)),
        Value::Int(i) => Ok(JsonValue::Int(*i)),
        Value::UInt(u) => Ok(JsonValue::UInt(*u)),
        Value::F32(bits) => {
            if (*bits >> 23u32) & 0xff == 0xff {
                Err(api_note("Invalid float value"))
            } else {
                Ok(JsonValue::F32(*bits))
            }
        },
        Value::F64(bits) => {
            if (*bits >> 52u64) & 0x7ff == 0x7ff {
                Err(api_note("Invalid float value"))
            } else {
                Ok(JsonValue::F64(*bits))
            }
        },
        Value::Str(bytes) => {
            let copied = copy_bytes(bytes);
            match bytes_to_string(copied) {
                Some(s) => Ok(JsonValue::Str(s)),
                None => Err(api_note("Invalid UTF-8 string")),
            }
        },
        Value::Bin(_) => Err(api_note("Binary values not supported")),
        Value::Array(items) => {
            proof {
                crate::value::lemma_vm_items(*items, items.len() as int);
            }
            match convert_list(items, items.len()) {
                Ok(out) => Ok(JsonValue::Array(out)),
                Err(e) => Err(e),
            }
        },
        Value::Dict(pairs) => {
            proof {
                crate::value::lemma_vm_pairs(*pairs, pairs.len() as int);
            }
            match convert_members(pairs, pairs.len()) {
                Ok(out) => Ok(JsonValue::Object(out)),
                Err(e) => Err(e),
            }
        },
        Value::Ext(_, _) => Err(api_note("Extension values not supported")),
    }
}

/// Converts the first `n` elements of a msgpack array.
fn convert_list(items: &Vec<Value>, n: usize) -> (r: Result<Vec<JsonValue>, NeovimError>)
    requires
        n <= items.len(),
    ensures
        (r matches Ok(out) ==> {
            let models = vm_items(*items, items.len() as int);
            json_of_list(models, n as int) == Some(jm_items(out, out.len() as int))
                && out.len() == n
        }),
        (r matches Err(e) ==> {
            let models = vm_items(*items, items.len() as int);
            json_of_list(models, n as int) is None && e is Api
        }),
    decreases *items, n, 1int,
{
    proof {
        crate::value::lemma_vm_items(*items, items.len() as int);
    }
    if n == 0 {
        let out: Vec<JsonValue> = Vec::new();
        proof {
            assert(jm_items(out, 0) =~= Seq::<JsonModel>::empty());
            let models = vm_items(*items, items.len() as int);
            assert(json_of_list(models, 0) == Some(Seq::<JsonModel>::empty()));
        }
        Ok(out)
    } else {
        let mut out = match convert_list(items, n - 1) {
            Ok(out) => out,
            Err(e) => {
                return Err(e);
            },
        };
        let j = match convert_nvim_value_to_json(&items[n - 1]) {
            Ok(j) => j,
            Err(e) => {
                return Err(e);
            },
        };
        let ghost j_snap = j;
        let ghost out_snap = out;
        out.push(j);
        proof {
            lemma_jm_items(out, out.len() as int);
            lemma_jm_items(out_snap, out_snap.len() as int);
            assert(jm_items(out, out.len() as int)
                =~= jm_items(out_snap, out_snap.len() as int).push(jm(j_snap)));
        }
        Ok(out)
    }
}

/// Converts the first `n` pairs of a msgpack map to object members.
fn convert_members(pairs: &Vec<(Value, Value)>, n: usize) -> (r: Result<
    Vec<(String, JsonValue)>,
    NeovimError,
>)
    requires
        n <= pairs.len(),
    ensures
        (r matches Ok(out) ==> {
            let models = vm_pairs(*pairs, pairs.len() as int);
            json_of_members(models, n as int) == Some(jm_members(out, out.len() as int))
                && out.len() == n
        }),
        (r matches Err(e) ==> {
            let models = vm_pairs(*pairs, pairs.len() as int);
            json_of_members(models, n as int) is None && e is Api
        }),
    decreases *pairs, n, 1int,
{
    proof {
        crate::value::lemma_vm_pairs(*pairs, pairs.len() as int);
    }
    if n == 0 {
        let out: Vec<(String, JsonValue)> = Vec::new();
        proof {
            assert(jm_members(out, 0) =~= Seq::<(Seq<char>, JsonModel)>::empty());
            let models = vm_pairs(*pairs, pairs.len() as int);
            assert(json_of_members(models, 0) == Some(Seq::<(Seq<char>, JsonModel)>::empty()));
        }
        Ok(out)
    } else {
        let mut out = match convert_members(pairs, n - 1) {
            Ok(out) => out,
            Err(e) => {
                return Err(e);
            },
        };
        let key = match &pairs[n - 1].0 {
            Value::Str(key_bytes) => {
                let copied = copy_bytes(key_bytes);
                match bytes_to_string(copied) {
                    Some(s) => s,
                    None => {
                        return Err(api_note("Invalid UTF-8 key"));
                    },
                }
            },
            _ => {
                return Err(api_note("Map keys must be strings"));
            },
        };
        let j = match convert_nvim_value_to_json(&pairs[n - 1].1) {
            Ok(j) => j,
            Err(e) => {
                return Err(e);
            },
        };
        let ghost key_snap = key;
        let ghost j_snap = j;
        let ghost out_snap = out;
        out.push((key, j));
        proof {
            lemma_jm_members(out, out.len() as int);
            lemma_jm_members(out_snap, out_snap.len() as int);
            assert(jm_members(out, out.len() as int)
                =~= jm_members(out_snap, out_snap.len() as int).push(
                (key_snap@, jm(j_snap)),
            ));
        }
        Ok(out)
    }
}


/// Copies a JSON value, preserving its model.
pub fn clone_json(j: &JsonValue) -> (r: JsonValue)
    ensures
        jm(r) == jm(*j),
    decreases *j, 1int,
{
    match j {
        JsonValue::Null => JsonValue::Null,
        JsonValue::Bool(b) => JsonValue::Bool(*b),
        JsonValue::Int(i) => JsonValue::Int(*i),
        JsonValue::UInt(u) => JsonValue::UInt(*u),
        JsonValue::F32(bits) => JsonValue::F32(*bits),
        JsonValue::F64(bits) => JsonValue::F64(*bits),
        JsonValue::Str(s) => JsonValue::Str(s.clone()),
        JsonValue::Array(items) => {
            let out = clone_json_list(items, items.len());
            proof {
                lemma_jm_items(*items, items.len() as int);
                lemma_jm_items(out, out.len() as int);
                assert(jm_items(out, out.len() as int)
                    =~= jm_items(*items, items.len() as int));
            }
            JsonValue::Array(out)
        },
        JsonValue::Object(members) => {
            let out = clone_json_members(members, members.len());
            proof {
                lemma_jm_members(*members, members.len() as int);
                lemma_jm_members(out, out.len() as int);
                assert(jm_members(out, out.len() as int)
                    =~= jm_members(*members, members.len() as int));
            }
            JsonValue::Object(out)
        },
    }
}

/// Copies the first `n` elements of a JSON array.
fn clone_json_list(items: &Vec<JsonValue>, n: usize) -> (r: Vec<JsonValue>)
    requires
        n <= items.len(),
    ensures
        r@.len() == n,
        forall|i: int| 0 <= i < n ==> jm(#[trigger] r@[i]) == jm(items@[i]),
    decreases *items, n, 0int,
{
    if n == 0 {
        Vec::new()
    } else {
        let mut out = clone_json_list(items, n - 1);
        out.push(clone_json(&items[n - 1]));
        out
    }
}

/// Copies the first `n` members of a JSON object.
fn clone_json_members(members: &Vec<(String, JsonValue)>, n: usize) -> (r: Vec<
    (String, JsonValue),
>)
    requires
        n <= members.len(),
    ensures
        r@.len() == n,
        forall|i: int| 0 <= i < n ==> (#[trigger] r@[i]).0@ == members@[i].0@
            && jm(r@[i].1) == jm(members@[i].1),
    decreases *members, n, 0int,
{
    if n == 0 {
        Vec::new()
    } else {
        let mut out = clone_json_members(members, n - 1);
        out.push((members[n - 1].0.clone(), clone_json(&members[n - 1].1)));
        out
    }
}

/// Copies a byte vector.
pub fn copy_bytes(bytes: &Vec<u8>) -> (r: Vec<u8>)
    ensures
        r@ == bytes@,
{
    let n = bytes.len();
    let mut out: Vec<u8> = Vec::new();
    let mut i: usize = 0;
    while i < n
        invariant
            n == bytes.len(),
            i <= n,
            out@ == bytes@.subrange(0, i as int),
        decreases n - i,
    {
        out.push(bytes[i]);
        proof {
            assert(out@ =~= bytes@.subrange(0, i + 1));
        }
        i = i + 1;
    }
    proof {
        assert(out@ =~= bytes@);
    }
    out
}

/// An `Api` error with the given note.
fn api_note(note: &str) -> (r: NeovimError)
    ensures
        r is Api,
{
    NeovimError::Api(note.to_owned())
}

} // verus!
