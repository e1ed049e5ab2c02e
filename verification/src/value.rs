//! The msgpack value model: the data that travels over the RPC link.
//!
//! Floating-point payloads are carried as their IEEE 754 bit patterns, so
//! the codec is exact for every representable value.

use vstd::prelude::*;

verus! {

broadcast use vstd::std_specs::vec::axiom_vec_index_decreases, vstd::seq::axiom_seq_index_decreases;

/// A msgpack value as it appears on the wire.
pub enum Value {
    Nil,
    Bool(bool),
    /// A value written with a signed integer format.
    Int(i64),
    /// A value written with an unsigned integer format.
    UInt(u64),
    /// A 32-bit float, held as its bit pattern.
    F32(u32),
    /// A 64-bit float, held as its bit pattern.
    F64(u64),
    /// A string payload, held as its raw bytes.
    Str(Vec<u8>),
    /// A binary payload.
    Bin(Vec<u8>),
    Array(Vec<Value>),
    /// A map as an ordered list of key/value pairs, as msgpack frames it.
    Dict(Vec<(Value, Value)>),
    /// An extension value: a type tag and its payload.
    Ext(i8, Vec<u8>),
}

/// The mathematical model of a [`Value`].
pub enum ValueModel {
    Nil,
    Bool(bool),
    Int(int),
    UInt(int),
    F32(int),
    F64(int),
    Str(Seq<u8>),
    Bin(Seq<u8>),
    Array(Seq<ValueModel>),
    Dict(Seq<(ValueModel, ValueModel)>),
    Ext(int, Seq<u8>),
}

/// The model of a [`Value`].
pub open spec fn vm(v: Value) -> ValueModel
    decreases v, 0int,
{
    match v {
        Value::Nil => ValueModel::Nil,
        Value::Bool(b) => ValueModel::Bool(b),
        Value::Int(i) => ValueModel::Int(i as int),
        Value::UInt(u) => ValueModel::UInt(u as int),
        Value::F32(bits) => ValueModel::F32(bits as int),
        Value::F64(bits) => ValueModel::F64(bits as int),
        Value::Str(bytes) => ValueModel::Str(bytes@),
        Value::Bin(bytes) => ValueModel::Bin(bytes@),
        Value::Array(items) => ValueModel::Array(vm_items(items, items.len() as int)),
        Value::Dict(pairs) => ValueModel::Dict(vm_pairs(pairs, pairs.len() as int)),
        Value::Ext(tag, bytes) => ValueModel::Ext(tag as int, bytes@),
    }
}

/// The models of the first `n` elements of `items`.
pub open spec fn vm_items(items: Vec<Value>, n: int) -> Seq<ValueModel>
    decreases items, n,
{
    if 0 < n && n <= items.len() {
        vm_items(items, n - 1).push(vm(items[n - 1]))
    } else {
        Seq::empty()
    }
}

/// The models of the first `n` pairs of `pairs`.
pub open spec fn vm_pairs(pairs: Vec<(Value, Value)>, n: int) -> Seq<(ValueModel, ValueModel)>
    decreases pairs, n,
{
    if 0 < n && n <= pairs.len() {
        vm_pairs(pairs, n - 1).push((vm(pairs[n - 1].0), vm(pairs[n - 1].1)))
    } else {
        Seq::empty()
    }
}

impl DeepView for Value {
    type V = ValueModel;

    open spec fn deep_view(&self) -> ValueModel {
        vm(*self)
    }
}

/// Each prefix model has the expected length and elements.
pub proof fn lemma_vm_items(items: Vec<Value>, n: int)
    requires
        0 <= n <= items.len(),
    ensures
        vm_items(items, n).len() == n,
        forall|i: int| 0 <= i < n ==> #[trigger] vm_items(items, n)[i] == vm(items[i]),
    decreases n,
{
    if 0 < n {
        lemma_vm_items(items, n - 1);
    }
}

/// Each prefix pair model has the expected length and elements.
pub proof fn lemma_vm_pairs(pairs: Vec<(Value, Value)>, n: int)
    requires
        0 <= n <= pairs.len(),
    ensures
        vm_pairs(pairs, n).len() == n,
        forall|i: int| 0 <= i < n ==> #[trigger] vm_pairs(pairs, n)[i]
            == (vm(pairs[i].0), vm(pairs[i].1)),
    decreases n,
{
    if 0 < n {
        lemma_vm_pairs(pairs, n - 1);
    }
}

impl ValueModel {
    /// The model is within the size limits that the wire format can frame.
    pub open spec fn wf(self) -> bool
        decreases self, 0int,
    {
        match self {
            ValueModel::Nil => true,
            ValueModel::Bool(_) => true,
            ValueModel::Int(i) => i64::MIN <= i <= i64::MAX,
            ValueModel::UInt(u) => 0 <= u <= u64::MAX,
            ValueModel::F32(bits) => 0 <= bits <= u32::MAX,
            ValueModel::F64(bits) => 0 <= bits <= u64::MAX,
            ValueModel::Str(bytes) => bytes.len() <= u32::MAX,
            ValueModel::Bin(bytes) => bytes.len() <= u32::MAX,
            ValueModel::Array(items) => items.len() <= u32::MAX && wf_list(items),
            ValueModel::Dict(pairs) => pairs.len() <= u32::MAX && wf_pairs(pairs),
            ValueModel::Ext(tag, bytes) => i8::MIN <= tag <= i8::MAX && bytes.len() <= u32::MAX,
        }
    }
}

/// Every element of the sequence is well-formed.
pub open spec fn wf_list(items: Seq<ValueModel>) -> bool
    decreases items, 0int,
{
    if items.len() == 0 {
        true
    } else {
        items[0].wf() && wf_list(items.drop_first())
    }
}

/// Every key and value of the pair sequence is well-formed.
pub open spec fn wf_pairs(pairs: Seq<(ValueModel, ValueModel)>) -> bool
    decreases pairs, 0int,
{
    if pairs.len() == 0 {
        true
    } else {
        pairs[0].0.wf() && pairs[0].1.wf() && wf_pairs(pairs.drop_first())
    }
}

/// A well-formed list has well-formed elements.
pub proof fn lemma_wf_list_elem(items: Seq<ValueModel>, j: int)
    requires
        wf_list(items),
        0 <= j < items.len(),
    ensures
        items[j].wf(),
    decreases j,
{
    if j > 0 {
        lemma_wf_list_elem(items.drop_first(), j - 1);
        assert(items.drop_first()[j - 1] == items[j]);
    }
}

/// A well-formed pair list has well-formed keys and values.
pub proof fn lemma_wf_pairs_elem(pairs: Seq<(ValueModel, ValueModel)>, j: int)
    requires
        wf_pairs(pairs),
        0 <= j < pairs.len(),
    ensures
        pairs[j].0.wf(),
        pairs[j].1.wf(),
    decreases j,
{
    if j > 0 {
        lemma_wf_pairs_elem(pairs.drop_first(), j - 1);
        assert(pairs.drop_first()[j - 1] == pairs[j]);
    }
}

/// Well-formedness of a list follows from its elements.
pub proof fn lemma_wf_list_intro(items: Seq<ValueModel>)
    requires
        forall|j: int| 0 <= j < items.len() ==> (#[trigger] items[j]).wf(),
    ensures
        wf_list(items),
    decreases items.len(),
{
    if items.len() > 0 {
        assert(items[0].wf());
        assert(forall|j: int| 0 <= j < items.drop_first().len()
            ==> (#[trigger] items.drop_first()[j]) == items[j + 1]);
        lemma_wf_list_intro(items.drop_first());
    }
}

} // verus!
