//! The msgpack wire codec.
//!
//! The encoder always emits the widest format of each family (`uint64`,
//! `int64`, `str32`, `bin32`, `array32`, `map32`, `ext32`), which every
//! msgpack peer accepts; the decoder accepts every standard format, so
//! frames from an unmodified remote peer are decoded exactly.

use vstd::prelude::*;

use crate::value::{vm, vm_items, vm_pairs, wf_list, wf_pairs, lemma_wf_list_elem, lemma_wf_pairs_elem, Value, ValueModel};

verus! {

broadcast use vstd::std_specs::vec::axiom_vec_index_decreases, vstd::seq::axiom_seq_index_decreases;

/// 256 to the power `w`.
pub open spec fn pow256(w: int) -> int
    decreases w,
{
    if w <= 0 {
        1
    } else {
        256 * pow256(w - 1)
    }
}

/// The big-endian bytes of `n`, `w` bytes wide.
pub open spec fn be_bytes(n: int, w: int) -> Seq<u8>
    decreases w,
{
    if w <= 0 {
        Seq::empty()
    } else {
        be_bytes(n / 256, w - 1).push((n % 256) as u8)
    }
}

/// The integer read back from big-endian bytes.
pub open spec fn be_int(s: Seq<u8>) -> int
    decreases s.len(),
{
    if s.len() == 0 {
        0
    } else {
        be_int(s.drop_last()) * 256 + s.last()
    }
}

pub proof fn lemma_be_bytes_len(n: int, w: int)
    requires
        0 <= w,
    ensures
        be_bytes(n, w).len() == w,
    decreases w,
{
    if 0 < w {
        lemma_be_bytes_len(n / 256, w - 1);
    }
}

/// Reading back the big-endian bytes of `n` yields `n`.
pub proof fn lemma_be_round_trip(n: int, w: int)
    requires
        0 <= w,
        0 <= n < pow256(w),
    ensures
        be_bytes(n, w).len() == w,
        be_int(be_bytes(n, w)) == n,
    decreases w,
{
    lemma_be_bytes_len(n, w);
    if 0 < w {
        assert(0 <= n / 256 < pow256(w - 1)) by (nonlinear_arith)
            requires 0 <= n < 256 * pow256(w - 1);
        lemma_be_round_trip(n / 256, w - 1);
        assert(be_bytes(n, w).drop_last() =~= be_bytes(n / 256, w - 1));
        assert(n == (n / 256) * 256 + n % 256) by (nonlinear_arith);
    }
}

/// `be_int` is bounded by the width of its input.
pub proof fn lemma_be_int_bound(s: Seq<u8>)
    ensures
        0 <= be_int(s) < pow256(s.len() as int),
    decreases s.len(),
{
    if s.len() > 0 {
        lemma_be_int_bound(s.drop_last());
        assert(be_int(s.drop_last()) * 256 + s.last() < pow256(s.len() as int))
            by (nonlinear_arith)
            requires
                0 <= be_int(s.drop_last()) < pow256(s.len() - 1),
                0 <= s.last() < 256,
                pow256(s.len() as int) == 256 * pow256(s.len() - 1);
    }
}

/// Useful concrete powers of 256.
pub proof fn lemma_pow256_values()
    ensures
        pow256(1) == 0x100,
        pow256(2) == 0x1_0000,
        pow256(4) == 0x1_0000_0000,
        pow256(8) == 0x1_0000_0000_0000_0000,
{
    assert(pow256(0) == 1);
    assert(pow256(1) == 0x100);
    assert(pow256(2) == 0x1_0000);
    assert(pow256(3) == 0x100_0000);
    assert(pow256(4) == 0x1_0000_0000);
    assert(pow256(5) == 0x100_0000_0000);
    assert(pow256(6) == 0x1_0000_0000_0000);
    assert(pow256(7) == 0x100_0000_0000_0000);
    assert(pow256(8) == 0x1_0000_0000_0000_0000);
}

/// Appends the `w`-byte big-endian form of `n`.
pub fn write_be(out: &mut Vec<u8>, n: u64, w: usize)
    requires
        w <= 8,
        (n as int) < pow256(w as int),
    ensures
        final(out)@ == old(out)@ + be_bytes(n as int, w as int),
    decreases w,
{
    if w == 0 {
        assert(out@ =~= old(out)@ + be_bytes(n as int, 0));
    } else {
        proof {
            assert((n as int) / 256 == (n / 256) as int) by (nonlinear_arith);
            assert(((n / 256) as int) < pow256(w - 1)) by (nonlinear_arith)
                requires (n as int) < pow256(w as int), pow256(w as int) == 256 * pow256(w - 1);
        }
        write_be(out, n / 256, w - 1);
        out.push((n % 256) as u8);
        assert(out@ =~= old(out)@ + be_bytes(n as int, w as int));
    }
}

/// The wire encoding of a value.
pub open spec fn enc(v: ValueModel) -> Seq<u8>
    decreases v, 0int,
{
    match v {
        ValueModel::Nil => seq![0xc0u8],
        ValueModel::Bool(b) => if b {
            seq![0xc3u8]
        } else {
            seq![0xc2u8]
        },
        ValueModel::Int(i) => seq![0xd3u8] + be_bytes(((i as i64) as u64) as int, 8),
        ValueModel::UInt(u) => seq![0xcfu8] + be_bytes((u as u64) as int, 8),
        ValueModel::F32(bits) => seq![0xcau8] + be_bytes((bits as u32) as int, 4),
        ValueModel::F64(bits) => seq![0xcbu8] + be_bytes((bits as u64) as int, 8),
        ValueModel::Str(bytes) => seq![0xdbu8] + be_bytes(bytes.len() as int, 4) + bytes,
        ValueModel::Bin(bytes) => seq![0xc6u8] + be_bytes(bytes.len() as int, 4) + bytes,
        ValueModel::Array(items) => seq![0xddu8] + be_bytes(items.len() as int, 4)
            + enc_list(items),
        ValueModel::Dict(pairs) => seq![0xdfu8] + be_bytes(pairs.len() as int, 4)
            + enc_pairs(pairs),
        ValueModel::Ext(tag, bytes) => seq![0xc9u8] + be_bytes(bytes.len() as int, 4)
            + seq![((tag as i8) as u8)] + bytes,
    }
}

/// The concatenated encodings of a sequence of values.
pub open spec fn enc_list(items: Seq<ValueModel>) -> Seq<u8>
    decreases items, 0int,
{
    if items.len() == 0 {
        Seq::empty()
    } else {
        enc(items[0]) + enc_list(items.drop_first())
    }
}

/// The concatenated encodings of a sequence of key/value pairs.
pub open spec fn enc_pairs(pairs: Seq<(ValueModel, ValueModel)>) -> Seq<u8>
    decreases pairs, 0int,
{
    if pairs.len() == 0 {
        Seq::empty()
    } else {
        enc(pairs[0].0) + enc(pairs[0].1) + enc_pairs(pairs.drop_first())
    }
}

/// Unfolding `enc_list` at the back.
pub proof fn lemma_enc_list_push(items: Seq<ValueModel>, v: ValueModel)
    ensures
        enc_list(items.push(v)) == enc_list(items) + enc(v),
    decreases items.len(),
{
    let s = items.push(v);
    if items.len() == 0 {
        assert(s[0] == v);
        assert(s.drop_first() =~= Seq::<ValueModel>::empty());
        assert(enc_list(s.drop_first()) == Seq::<u8>::empty());
        assert(enc_list(s) =~= enc_list(items) + enc(v));
    } else {
        assert(s[0] == items[0]);
        assert(s.drop_first() =~= items.drop_first().push(v));
        lemma_enc_list_push(items.drop_first(), v);
        assert(enc_list(s) =~= enc_list(items) + enc(v));
    }
}

/// Unfolding `enc_pairs` at the back.
pub proof fn lemma_enc_pairs_push(pairs: Seq<(ValueModel, ValueModel)>, p: (ValueModel, ValueModel))
    ensures
        enc_pairs(pairs.push(p)) == enc_pairs(pairs) + enc(p.0) + enc(p.1),
    decreases pairs.len(),
{
    let s = pairs.push(p);
    if pairs.len() == 0 {
        assert(s[0] == p);
        assert(s.drop_first() =~= Seq::<(ValueModel, ValueModel)>::empty());
        assert(enc_pairs(s.drop_first()) == Seq::<u8>::empty());
        assert(enc_pairs(s) =~= enc_pairs(pairs) + enc(p.0) + enc(p.1));
    } else {
        assert(s[0] == pairs[0]);
        assert(s.drop_first() =~= pairs.drop_first().push(p));
        lemma_enc_pairs_push(pairs.drop_first(), p);
        assert(enc_pairs(s) =~= enc_pairs(pairs) + enc(p.0) + enc(p.1));
    }
}

/// Appends the wire encoding of `v`.
pub fn encode_into(v: &Value, out: &mut Vec<u8>)
    requires
        vm(*v).wf(),
    ensures
        final(out)@ == old(out)@ + enc(vm(*v)),
    decreases *v,
{
    proof {
        lemma_pow256_values();
    }
    match v {
        Value::Nil => {
            out.push(0xc0);
            assert(out@ =~= old(out)@ + enc(vm(*v)));
        },
        Value::Bool(b) => {
            out.push(if *b { 0xc3 } else { 0xc2 });
            assert(out@ =~= old(out)@ + enc(vm(*v)));
        },
        Value::Int(i) => {
            out.push(0xd3);
            write_be(out, *i as u64, 8);
            assert(out@ =~= old(out)@ + enc(vm(*v)));
        },
        Value::UInt(u) => {
            out.push(0xcf);
            write_be(out, *u, 8);
            assert(out@ =~= old(out)@ + enc(vm(*v)));
        },
        Value::F32(bits) => {
            out.push(0xca);
            write_be(out, *bits as u64, 4);
            assert(out@ =~= old(out)@ + enc(vm(*v)));
        },
        Value::F64(bits) => {
            out.push(0xcb);
            write_be(out, *bits, 8);
            assert(out@ =~= old(out)@ + enc(vm(*v)));
        },
        Value::Str(bytes) => {
            out.push(0xdb);
            write_be(out, bytes.len() as u64, 4);
            append_bytes(out, bytes);
            assert(out@ =~= old(out)@ + enc(vm(*v)));
        },
        Value::Bin(bytes) => {
            out.push(0xc6);
            write_be(out, bytes.len() as u64, 4);
            append_bytes(out, bytes);
            assert(out@ =~= old(out)@ + enc(vm(*v)));
        },
        Value::Array(items) => {
            let ghost models = vm_items(*items, items.len() as int);
            proof {
                crate::value::lemma_vm_items(*items, items.len() as int);
            }
            proof {
                assert(vm(*v) == ValueModel::Array(models));
                assert(wf_list(models));
            }
            out.push(0xdd);
            write_be(out, items.len() as u64, 4);
            let n = items.len();
            let mut i: usize = 0;
            while i < n
                invariant
                    n == items.len(),
                    i <= n,
                    *v == Value::Array(*items),
                    models == vm_items(*items, n as int),
                    models.len() == n,
                    wf_list(models),
                    forall|j: int| 0 <= j < n ==> models[j] == vm(#[trigger] items[j]),
                    out@ == old(out)@ + seq![0xddu8] + be_bytes(n as int, 4)
                        + enc_list(models.subrange(0, i as int)),
                decreases n - i,
            {
                proof {
                    lemma_wf_list_elem(models, i as int);
                    assert(decreases_to!(*v => v->Array_0));
                    assert(v->Array_0 == *items);
                    assert(decreases_to!(v->Array_0 => v->Array_0@));
                    assert(decreases_to!(v->Array_0@ => v->Array_0@[i as int]));
                    assert(decreases_to!(*v => items@[i as int]));
                }
                encode_into(&items[i], out);
                proof {
                    assert(models.subrange(0, i as int).push(models[i as int])
                        =~= models.subrange(0, i + 1));
                    lemma_enc_list_push(models.subrange(0, i as int), models[i as int]);
                }
                i = i + 1;
            }
            proof {
                assert(models.subrange(0, n as int) =~= models);
                assert(out@ =~= old(out)@ + enc(vm(*v)));
            }
        },
        Value::Dict(pairs) => {
            let ghost models = vm_pairs(*pairs, pairs.len() as int);
            proof {
                crate::value::lemma_vm_pairs(*pairs, pairs.len() as int);
            }
            proof {
                assert(vm(*v) == ValueModel::Dict(models));
                assert(wf_pairs(models));
            }
            out.push(0xdf);
            write_be(out, pairs.len() as u64, 4);
            let n = pairs.len();
            let mut i: usize = 0;
            while i < n
                invariant
                    n == pairs.len(),
                    i <= n,
                    *v == Value::Dict(*pairs),
                    models == vm_pairs(*pairs, n as int),
                    models.len() == n,
                    wf_pairs(models),
                    forall|j: int| 0 <= j < n ==> models[j]
                        == (vm((#[trigger] pairs[j]).0), vm(pairs[j].1)),
                    out@ == old(out)@ + seq![0xdfu8] + be_bytes(n as int, 4)
                        + enc_pairs(models.subrange(0, i as int)),
                decreases n - i,
            {
                proof {
                    lemma_wf_pairs_elem(models, i as int);
                    assert(decreases_to!(*v => v->Dict_0));
                    assert(v->Dict_0 == *pairs);
                    assert(decreases_to!(v->Dict_0 => v->Dict_0@));
                    assert(decreases_to!(v->Dict_0@ => v->Dict_0@[i as int]));
                    assert(decreases_to!(v->Dict_0@[i as int] => v->Dict_0@[i as int].0));
                    assert(decreases_to!(v->Dict_0@[i as int] => v->Dict_0@[i as int].1));
                    assert(decreases_to!(*v => pairs@[i as int].0));
                    assert(decreases_to!(*v => pairs@[i as int].1));
                }
                encode_into(&pairs[i].0, out);
                encode_into(&pairs[i].1, out);
                proof {
                    assert(models.subrange(0, i as int).push(models[i as int])
                        =~= models.subrange(0, i + 1));
                    lemma_enc_pairs_push(models.subrange(0, i as int), models[i as int]);
                }
                i = i + 1;
            }
            proof {
                assert(models.subrange(0, n as int) =~= models);
                assert(out@ =~= old(out)@ + enc(vm(*v)));
            }
        },
        Value::Ext(tag, bytes) => {
            out.push(0xc9);
            write_be(out, bytes.len() as u64, 4);
            out.push(#[verifier::truncate] (*tag as u8));
            append_bytes(out, bytes);
            assert(out@ =~= old(out)@ + enc(vm(*v)));
        },
    }
}

/// Appends all of `bytes`.
fn append_bytes(out: &mut Vec<u8>, bytes: &Vec<u8>)
    ensures
        final(out)@ == old(out)@ + bytes@,
{
    let n = bytes.len();
    let mut i: usize = 0;
    while i < n
        invariant
            n == bytes.len(),
            i <= n,
            out@ == old(out)@ + bytes@.subrange(0, i as int),
        decreases n - i,
    {
        out.push(bytes[i]);
        proof {
            assert(out@ =~= old(out)@ + bytes@.subrange(0, i + 1));
        }
        i = i + 1;
    }
    proof {
        assert(bytes@.subrange(0, n as int) =~= bytes@);
    }
}

/// The wire encoding of `v` as a fresh buffer.
pub fn encode_value(v: &Value) -> (out: Vec<u8>)
    requires
        vm(*v).wf(),
    ensures
        out@ == enc(vm(*v)),
{
    let mut out: Vec<u8> = Vec::new();
    encode_into(v, &mut out);
    assert(out@ =~= enc(vm(*v)));
    out
}


/// The outcome of parsing a prefix of a byte sequence.
pub enum Parsed<T> {
    /// A complete value and the number of bytes it occupies.
    Found(T, int),
    /// The bytes end before the value does.
    Incomplete,
    /// The bytes cannot begin a value.
    Invalid,
}

/// Parses one msgpack value from the front of `s`, in any standard format.
pub open spec fn parse(s: Seq<u8>) -> Parsed<ValueModel>
    decreases s.len(), 0int,
{
    if s.len() < 1 {
        Parsed::Incomplete
    } else {
        let t = s[0];
        if t < 0x80 {
            Parsed::Found(ValueModel::UInt(t as int), 1)
        } else if t < 0x90 {
            parse_dict_body(s, 1, (t - 0x80) as int)
        } else if t < 0xa0 {
            parse_array_body(s, 1, (t - 0x90) as int)
        } else if t < 0xc0 {
            parse_raw(s, 1, (t - 0xa0) as int, false)
        } else if t == 0xc0 {
            Parsed::Found(ValueModel::Nil, 1)
        } else if t == 0xc1 {
            Parsed::Invalid
        } else if t == 0xc2 {
            Parsed::Found(ValueModel::Bool(false), 1)
        } else if t == 0xc3 {
            Parsed::Found(ValueModel::Bool(true), 1)
        } else if t == 0xc4 {
            if s.len() < 2 { Parsed::Incomplete } else { parse_raw(s, 2, s[1] as int, true) }
        } else if t == 0xc5 {
            if s.len() < 3 { Parsed::Incomplete } else {
                parse_raw(s, 3, be_int(s.subrange(1, 3)), true)
            }
        } else if t == 0xc6 {
            if s.len() < 5 { Parsed::Incomplete } else {
                parse_raw(s, 5, be_int(s.subrange(1, 5)), true)
            }
        } else if t == 0xc7 {
            if s.len() < 3 { Parsed::Incomplete } else {
                parse_ext(s, 3, s[1] as int, ((s[2] as i8) as int))
            }
        } else if t == 0xc8 {
            if s.len() < 4 { Parsed::Incomplete } else {
                parse_ext(s, 4, be_int(s.subrange(1, 3)), ((s[3] as i8) as int))
            }
        } else if t == 0xc9 {
            if s.len() < 6 { Parsed::Incomplete } else {
                parse_ext(s, 6, be_int(s.subrange(1, 5)), ((s[5] as i8) as int))
            }
        } else if t == 0xca {
            if s.len() < 5 { Parsed::Incomplete } else {
                Parsed::Found(ValueModel::F32(be_int(s.subrange(1, 5))), 5)
            }
        } else if t == 0xcb {
            if s.len() < 9 { Parsed::Incomplete } else {
                Parsed::Found(ValueModel::F64(be_int(s.subrange(1, 9))), 9)
            }
        } else if t == 0xcc {
            if s.len() < 2 { Parsed::Incomplete } else {
                Parsed::Found(ValueModel::UInt(s[1] as int), 2)
            }
        } else if t == 0xcd {
            if s.len() < 3 { Parsed::Incomplete } else {
                Parsed::Found(ValueModel::UInt(be_int(s.subrange(1, 3))), 3)
            }
        } else if t == 0xce {
            if s.len() < 5 { Parsed::Incomplete } else {
                Parsed::Found(ValueModel::UInt(be_int(s.subrange(1, 5))), 5)
            }
        } else if t == 0xcf {
            if s.len() < 9 { Parsed::Incomplete } else {
                Parsed::Found(ValueModel::UInt(be_int(s.subrange(1, 9))), 9)
            }
        } else if t == 0xd0 {
            if s.len() < 2 { Parsed::Incomplete } else {
                Parsed::Found(ValueModel::Int(((s[1] as i8) as int)), 2)
            }
        } else if t == 0xd1 {
            if s.len() < 3 { Parsed::Incomplete } else {
                Parsed::Found(
                    ValueModel::Int((((be_int(s.subrange(1, 3)) as u16) as i16) as int)),
                    3,
                )
            }
        } else if t == 0xd2 {
            if s.len() < 5 { Parsed::Incomplete } else {
                Parsed::Found(
                    ValueModel::Int((((be_int(s.subrange(1, 5)) as u32) as i32) as int)),
                    5,
                )
            }
        } else if t == 0xd3 {
            if s.len() < 9 { Parsed::Incomplete } else {
                Parsed::Found(
                    ValueModel::Int((((be_int(s.subrange(1, 9)) as u64) as i64) as int)),
                    9,
                )
            }
        } else if t == 0xd4 {
            parse_ext_fix(s, 1)
        } else if t == 0xd5 {
            parse_ext_fix(s, 2)
        } else if t == 0xd6 {
            parse_ext_fix(s, 4)
        } else if t == 0xd7 {
            parse_ext_fix(s, 8)
        } else if t == 0xd8 {
            parse_ext_fix(s, 16)
        } else if t == 0xd9 {
            if s.len() < 2 { Parsed::Incomplete } else { parse_raw(s, 2, s[1] as int, false) }
        } else if t == 0xda {
            if s.len() < 3 { Parsed::Incomplete } else {
                parse_raw(s, 3, be_int(s.subrange(1, 3)), false)
            }
        } else if t == 0xdb {
            if s.len() < 5 { Parsed::Incomplete } else {
                parse_raw(s, 5, be_int(s.subrange(1, 5)), false)
            }
        } else if t == 0xdc {
            if s.len() < 3 { Parsed::Incomplete } else {
                parse_array_body(s, 3, be_int(s.subrange(1, 3)))
            }
        } else if t == 0xdd {
            if s.len() < 5 { Parsed::Incomplete } else {
                parse_array_body(s, 5, be_int(s.subrange(1, 5)))
            }
        } else if t == 0xde {
            if s.len() < 3 { Parsed::Incomplete } else {
                parse_dict_body(s, 3, be_int(s.subrange(1, 3)))
            }
        } else if t == 0xdf {
            if s.len() < 5 { Parsed::Incomplete } else {
                parse_dict_body(s, 5, be_int(s.subrange(1, 5)))
            }
        } else {
            Parsed::Found(ValueModel::Int(((t as i8) as int)), 1)
        }
    }
}

/// A string or binary payload of `len` bytes starting at `hdr`.
pub open spec fn parse_raw(s: Seq<u8>, hdr: int, len: int, bin: bool) -> Parsed<ValueModel> {
    if s.len() < hdr + len {
        Parsed::Incomplete
    } else if bin {
        Parsed::Found(ValueModel::Bin(s.subrange(hdr, hdr + len)), hdr + len)
    } else {
        Parsed::Found(ValueModel::Str(s.subrange(hdr, hdr + len)), hdr + len)
    }
}

/// An extension payload of `len` bytes starting at `hdr`, with type `tag`.
pub open spec fn parse_ext(s: Seq<u8>, hdr: int, len: int, tag: int) -> Parsed<ValueModel> {
    if s.len() < hdr + len {
        Parsed::Incomplete
    } else {
        Parsed::Found(ValueModel::Ext(tag, s.subrange(hdr, hdr + len)), hdr + len)
    }
}

/// A fixext value: one type byte then exactly `len` payload bytes.
pub open spec fn parse_ext_fix(s: Seq<u8>, len: int) -> Parsed<ValueModel> {
    if s.len() < 2 + len {
        Parsed::Incomplete
    } else {
        Parsed::Found(ValueModel::Ext(((s[1] as i8) as int), s.subrange(2, 2 + len)), 2 + len)
    }
}

/// An array of `n` elements whose encodings start at `hdr`.
pub open spec fn parse_array_body(s: Seq<u8>, hdr: int, n: int) -> Parsed<ValueModel>
    decreases s.len(), 0int, 1int,
{
    if hdr < 1 || s.len() < hdr {
        Parsed::Invalid
    } else {
        match parse_list(s.skip(hdr), n) {
            Parsed::Found(items, c) => Parsed::Found(ValueModel::Array(items), hdr + c),
            Parsed::Incomplete => Parsed::Incomplete,
            Parsed::Invalid => Parsed::Invalid,
        }
    }
}

/// A map of `n` key/value pairs whose encodings start at `hdr`.
pub open spec fn parse_dict_body(s: Seq<u8>, hdr: int, n: int) -> Parsed<ValueModel>
    decreases s.len(), 0int, 1int,
{
    if hdr < 1 || s.len() < hdr {
        Parsed::Invalid
    } else {
        match parse_pairs(s.skip(hdr), n) {
            Parsed::Found(pairs, c) => Parsed::Found(ValueModel::Dict(pairs), hdr + c),
            Parsed::Incomplete => Parsed::Incomplete,
            Parsed::Invalid => Parsed::Invalid,
        }
    }
}

/// `n` consecutive values from the front of `s`.
pub open spec fn parse_list(s: Seq<u8>, n: int) -> Parsed<Seq<ValueModel>>
    decreases s.len(), n, 2int,
{
    if n <= 0 {
        Parsed::Found(Seq::empty(), 0)
    } else {
        match parse(s) {
            Parsed::Found(v, c) => if 1 <= c <= s.len() {
                match parse_list(s.skip(c), n - 1) {
                    Parsed::Found(vs, c2) => Parsed::Found(seq![v] + vs, c + c2),
                    Parsed::Incomplete => Parsed::Incomplete,
                    Parsed::Invalid => Parsed::Invalid,
                }
            } else {
                Parsed::Invalid
            },
            Parsed::Incomplete => Parsed::Incomplete,
            Parsed::Invalid => Parsed::Invalid,
        }
    }
}

/// `n` consecutive key/value pairs from the front of `s`.
pub open spec fn parse_pairs(s: Seq<u8>, n: int) -> Parsed<Seq<(ValueModel, ValueModel)>>
    decreases s.len(), n, 2int,
{
    if n <= 0 {
        Parsed::Found(Seq::empty(), 0)
    } else {
        match parse(s) {
            Parsed::Found(k, c1) => if 1 <= c1 <= s.len() {
                match parse(s.skip(c1)) {
                    Parsed::Found(v, c2) => if 1 <= c2 <= s.len() - c1 {
                        match parse_pairs(s.skip(c1 + c2), n - 1) {
                            Parsed::Found(ps, c3) => Parsed::Found(
                                seq![(k, v)] + ps,
                                c1 + c2 + c3,
                            ),
                            Parsed::Incomplete => Parsed::Incomplete,
                            Parsed::Invalid => Parsed::Invalid,
                        }
                    } else {
                        Parsed::Invalid
                    },
                    Parsed::Incomplete => Parsed::Incomplete,
                    Parsed::Invalid => Parsed::Invalid,
                }
            } else {
                Parsed::Invalid
            },
            Parsed::Incomplete => Parsed::Incomplete,
            Parsed::Invalid => Parsed::Invalid,
        }
    }
}


/// Every encoding is at least one byte (its format tag).
pub proof fn lemma_enc_len(v: ValueModel)
    ensures
        enc(v).len() >= 1,
{
}

/// Casting an `i64` to `u64` and back is the identity.
proof fn lemma_i64_cast(x: i64)
    ensures
        ((x as u64) as i64) == x,
{
    assert(((x as u64) as i64) == x) by (bit_vector);
}

/// Casting an `i8` to `u8` and back is the identity.
proof fn lemma_i8_cast(x: i8)
    ensures
        ((x as u8) as i8) == x,
{
    assert(((x as u8) as i8) == x) by (bit_vector);
}

/// Decoding an encoded value finds exactly that value, whatever follows it.
pub proof fn lemma_parse_enc(v: ValueModel, rest: Seq<u8>)
    requires
        v.wf(),
    ensures
        parse(enc(v) + rest) == Parsed::Found(v, enc(v).len() as int),
    decreases v, 1int,
{
    lemma_pow256_values();
    let s = enc(v) + rest;
    match v {
        ValueModel::Nil => {
            assert(s[0] == 0xc0);
        },
        ValueModel::Bool(b) => {
            assert(s[0] == if b { 0xc3u8 } else { 0xc2u8 });
        },
        ValueModel::Int(i) => {
            let x = i as i64;
            let u = x as u64;
            lemma_be_round_trip(u as int, 8);
            assert(s[0] == 0xd3);
            assert(s.len() >= 9);
            assert(s.subrange(1, 9) =~= be_bytes(u as int, 8));
            lemma_i64_cast(x);
            assert((((be_int(s.subrange(1, 9)) as u64) as i64) as int) == i);
        },
        ValueModel::UInt(u) => {
            lemma_be_round_trip((u as u64) as int, 8);
            assert(s[0] == 0xcf);
            assert(s.len() >= 9);
            assert(s.subrange(1, 9) =~= be_bytes((u as u64) as int, 8));
            assert(be_int(s.subrange(1, 9)) == u);
        },
        ValueModel::F32(bits) => {
            lemma_be_round_trip((bits as u32) as int, 4);
            assert(s[0] == 0xca);
            assert(s.len() >= 5);
            assert(s.subrange(1, 5) =~= be_bytes((bits as u32) as int, 4));
            assert(be_int(s.subrange(1, 5)) == bits);
        },
        ValueModel::F64(bits) => {
            lemma_be_round_trip((bits as u64) as int, 8);
            assert(s[0] == 0xcb);
            assert(s.len() >= 9);
            assert(s.subrange(1, 9) =~= be_bytes((bits as u64) as int, 8));
            assert(be_int(s.subrange(1, 9)) == bits);
        },
        ValueModel::Str(bytes) => {
            let len = bytes.len() as int;
            lemma_be_round_trip(len, 4);
            assert(s[0] == 0xdb);
            assert(s.len() >= 5);
            assert(s.subrange(1, 5) =~= be_bytes(len, 4));
            assert(be_int(s.subrange(1, 5)) == len);
            assert(s.len() >= 5 + len);
            assert(s.subrange(5, 5 + len) =~= bytes);
        },
        ValueModel::Bin(bytes) => {
            let len = bytes.len() as int;
            lemma_be_round_trip(len, 4);
            assert(s[0] == 0xc6);
            assert(s.len() >= 5);
            assert(s.subrange(1, 5) =~= be_bytes(len, 4));
            assert(be_int(s.subrange(1, 5)) == len);
            assert(s.len() >= 5 + len);
            assert(s.subrange(5, 5 + len) =~= bytes);
        },
        ValueModel::Ext(tag, bytes) => {
            let len = bytes.len() as int;
            let tb = (tag as i8) as u8;
            lemma_be_round_trip(len, 4);
            assert(s[0] == 0xc9);
            assert(s.len() >= 6);
            assert(s.subrange(1, 5) =~= be_bytes(len, 4));
            assert(be_int(s.subrange(1, 5)) == len);
            assert(s[5] == tb);
            lemma_i8_cast(tag as i8);
            assert(((tb as i8) as int) == tag);
            assert(s.len() >= 6 + len);
            assert(s.subrange(6, 6 + len) =~= bytes);
        },
        ValueModel::Array(items) => {
            let n = items.len() as int;
            lemma_be_round_trip(n, 4);
            assert(s[0] == 0xdd);
            assert(s.len() >= 5);
            assert(s.subrange(1, 5) =~= be_bytes(n, 4));
            assert(be_int(s.subrange(1, 5)) == n);
            assert(s.skip(5) =~= enc_list(items) + rest);
            lemma_parse_enc_list(items, rest);
            assert(parse_list(s.skip(5), n)
                == Parsed::Found(items, enc_list(items).len() as int));
        },
        ValueModel::Dict(pairs) => {
            let n = pairs.len() as int;
            lemma_be_round_trip(n, 4);
            assert(s[0] == 0xdf);
            assert(s.len() >= 5);
            assert(s.subrange(1, 5) =~= be_bytes(n, 4));
            assert(be_int(s.subrange(1, 5)) == n);
            assert(s.skip(5) =~= enc_pairs(pairs) + rest);
            lemma_parse_enc_pairs(pairs, rest);
            assert(parse_pairs(s.skip(5), n)
                == Parsed::Found(pairs, enc_pairs(pairs).len() as int));
        },
    }
}

/// Decoding an encoded list of values finds exactly those values.
pub proof fn lemma_parse_enc_list(items: Seq<ValueModel>, rest: Seq<u8>)
    requires
        wf_list(items),
    ensures
        parse_list(enc_list(items) + rest, items.len() as int)
            == Parsed::Found(items, enc_list(items).len() as int),
    decreases items, 0int,
{
    let s = enc_list(items) + rest;
    if items.len() == 0 {
        assert(s =~= rest);
        assert(items =~= Seq::<ValueModel>::empty());
        assert(enc_list(items).len() == 0);
    } else {
        let head = items[0];
        let tail = items.drop_first();
        assert(s =~= enc(head) + (enc_list(tail) + rest));
        lemma_parse_enc(head, enc_list(tail) + rest);
        let c = enc(head).len() as int;
        lemma_enc_len(head);
        assert(parse(s) == Parsed::Found(head, c));
        assert(1 <= c <= s.len());
        assert(s.skip(c) =~= enc_list(tail) + rest);
        lemma_parse_enc_list(tail, rest);
        let c2 = enc_list(tail).len() as int;
        assert(parse_list(s.skip(c), items.len() - 1) == Parsed::Found(tail, c2));
        assert(seq![head] + tail =~= items);
        assert(enc_list(items).len() == c + c2);
        assert(parse_list(s, items.len() as int) == Parsed::Found(items, c + c2));
    }
}

/// Decoding an encoded list of pairs finds exactly those pairs.
pub proof fn lemma_parse_enc_pairs(pairs: Seq<(ValueModel, ValueModel)>, rest: Seq<u8>)
    requires
        wf_pairs(pairs),
    ensures
        parse_pairs(enc_pairs(pairs) + rest, pairs.len() as int)
            == Parsed::Found(pairs, enc_pairs(pairs).len() as int),
    decreases pairs, 0int,
{
    let s = enc_pairs(pairs) + rest;
    if pairs.len() == 0 {
        assert(s =~= rest);
        assert(pairs =~= Seq::<(ValueModel, ValueModel)>::empty());
        assert(enc_pairs(pairs).len() == 0);
    } else {
        let k = pairs[0].0;
        let v = pairs[0].1;
        let tail = pairs.drop_first();
        assert(s =~= enc(k) + (enc(v) + (enc_pairs(tail) + rest)));
        lemma_parse_enc(k, enc(v) + (enc_pairs(tail) + rest));
        let c1 = enc(k).len() as int;
        lemma_enc_len(k);
        assert(parse(s) == Parsed::Found(k, c1));
        assert(1 <= c1 <= s.len());
        assert(s.skip(c1) =~= enc(v) + (enc_pairs(tail) + rest));
        lemma_parse_enc(v, enc_pairs(tail) + rest);
        let c2 = enc(v).len() as int;
        lemma_enc_len(v);
        assert(parse(s.skip(c1)) == Parsed::Found(v, c2));
        assert(1 <= c2 <= s.len() - c1);
        assert(s.skip(c1 + c2) =~= enc_pairs(tail) + rest);
        lemma_parse_enc_pairs(tail, rest);
        let c3 = enc_pairs(tail).len() as int;
        assert(parse_pairs(s.skip(c1 + c2), pairs.len() - 1) == Parsed::Found(tail, c3));
        assert(seq![(k, v)] + tail =~= pairs);
        assert(enc_pairs(pairs).len() == c1 + c2 + c3);
        assert(parse_pairs(s, pairs.len() as int) == Parsed::Found(pairs, c1 + c2 + c3));
    }
}

/// The codec round trip: decoding an encoding yields the identical value.
pub proof fn lemma_round_trip(v: ValueModel)
    requires
        v.wf(),
    ensures
        parse(enc(v)) == Parsed::Found(v, enc(v).len() as int),
{
    lemma_parse_enc(v, Seq::empty());
    assert(enc(v) + Seq::<u8>::empty() =~= enc(v));
}


/// A successful parse consumes between one byte and the whole input, and
/// yields a well-formed value.
pub proof fn lemma_parse_bounds(s: Seq<u8>)
    ensures
        parse(s) matches Parsed::Found(m, c) ==> 1 <= c <= s.len() && m.wf(),
    decreases s.len(), 0int, 3int,
{
    lemma_pow256_values();
    if s.len() >= 1 {
        let t = s[0];
        if t < 0x80 {
        } else if t < 0x90 {
            lemma_parse_dict_body_bounds(s, 1, (t - 0x80) as int);
        } else if t < 0xa0 {
            lemma_parse_array_body_bounds(s, 1, (t - 0x90) as int);
        } else if t < 0xc0 {
        } else if t == 0xc5 && s.len() >= 3 {
            lemma_be_int_bound(s.subrange(1, 3));
        } else if t == 0xc6 && s.len() >= 5 {
            lemma_be_int_bound(s.subrange(1, 5));
        } else if t == 0xc8 && s.len() >= 4 {
            lemma_be_int_bound(s.subrange(1, 3));
        } else if t == 0xc9 && s.len() >= 6 {
            lemma_be_int_bound(s.subrange(1, 5));
        } else if t == 0xca && s.len() >= 5 {
            lemma_be_int_bound(s.subrange(1, 5));
        } else if t == 0xcb && s.len() >= 9 {
            lemma_be_int_bound(s.subrange(1, 9));
        } else if t == 0xcd && s.len() >= 3 {
            lemma_be_int_bound(s.subrange(1, 3));
        } else if t == 0xce && s.len() >= 5 {
            lemma_be_int_bound(s.subrange(1, 5));
        } else if t == 0xcf && s.len() >= 9 {
            lemma_be_int_bound(s.subrange(1, 9));
        } else if t == 0xd1 && s.len() >= 3 {
            lemma_be_int_bound(s.subrange(1, 3));
        } else if t == 0xd2 && s.len() >= 5 {
            lemma_be_int_bound(s.subrange(1, 5));
        } else if t == 0xd3 && s.len() >= 9 {
            lemma_be_int_bound(s.subrange(1, 9));
        } else if t == 0xda && s.len() >= 3 {
            lemma_be_int_bound(s.subrange(1, 3));
        } else if t == 0xdb && s.len() >= 5 {
            lemma_be_int_bound(s.subrange(1, 5));
        } else if t == 0xdc && s.len() >= 3 {
            lemma_be_int_bound(s.subrange(1, 3));
            lemma_parse_array_body_bounds(s, 3, be_int(s.subrange(1, 3)));
        } else if t == 0xdd && s.len() >= 5 {
            lemma_be_int_bound(s.subrange(1, 5));
            lemma_parse_array_body_bounds(s, 5, be_int(s.subrange(1, 5)));
        } else if t == 0xde && s.len() >= 3 {
            lemma_be_int_bound(s.subrange(1, 3));
            lemma_parse_dict_body_bounds(s, 3, be_int(s.subrange(1, 3)));
        } else if t == 0xdf && s.len() >= 5 {
            lemma_be_int_bound(s.subrange(1, 5));
            lemma_parse_dict_body_bounds(s, 5, be_int(s.subrange(1, 5)));
        }
    }
}

proof fn lemma_parse_array_body_bounds(s: Seq<u8>, hdr: int, n: int)
    requires
        0 <= n <= u32::MAX,
    ensures
        parse_array_body(s, hdr, n) matches Parsed::Found(m, c)
            ==> hdr <= c <= s.len() && m.wf(),
    decreases s.len(), 0int, 2int,
{
    if 1 <= hdr <= s.len() {
        lemma_parse_list_bounds(s.skip(hdr), n);
    }
}

proof fn lemma_parse_dict_body_bounds(s: Seq<u8>, hdr: int, n: int)
    requires
        0 <= n <= u32::MAX,
    ensures
        parse_dict_body(s, hdr, n) matches Parsed::Found(m, c)
            ==> hdr <= c <= s.len() && m.wf(),
    decreases s.len(), 0int, 2int,
{
    if 1 <= hdr <= s.len() {
        lemma_parse_pairs_bounds(s.skip(hdr), n);
    }
}

/// A successful list parse yields exactly `n` well-formed values,
/// consuming at least one byte per value.
pub proof fn lemma_parse_list_bounds(s: Seq<u8>, n: int)
    requires
        0 <= n,
    ensures
        parse_list(s, n) matches Parsed::Found(vs, c)
            ==> vs.len() == n && n <= c <= s.len() && wf_list(vs),
    decreases s.len(), n, 4int,
{
    if n > 0 {
        lemma_parse_bounds(s);
        if let Parsed::Found(v, c) = parse(s) {
            if 1 <= c <= s.len() {
                lemma_parse_list_bounds(s.skip(c), n - 1);
                if let Parsed::Found(vs, c2) = parse_list(s.skip(c), n - 1) {
                    assert((seq![v] + vs)[0] == v);
                    assert((seq![v] + vs).drop_first() =~= vs);
                }
            }
        }
    }
}

/// A successful pair parse yields exactly `n` well-formed pairs.
pub proof fn lemma_parse_pairs_bounds(s: Seq<u8>, n: int)
    requires
        0 <= n,
    ensures
        parse_pairs(s, n) matches Parsed::Found(ps, c)
            ==> ps.len() == n && n <= c <= s.len() && wf_pairs(ps),
    decreases s.len(), n, 4int,
{
    if n > 0 {
        lemma_parse_bounds(s);
        if let Parsed::Found(k, c1) = parse(s) {
            if 1 <= c1 <= s.len() {
                lemma_parse_bounds(s.skip(c1));
                if let Parsed::Found(v, c2) = parse(s.skip(c1)) {
                    if 1 <= c2 <= s.len() - c1 {
                        lemma_parse_pairs_bounds(s.skip(c1 + c2), n - 1);
                        if let Parsed::Found(ps, c3) = parse_pairs(s.skip(c1 + c2), n - 1) {
                            assert((seq![(k, v)] + ps)[0] == (k, v));
                            assert((seq![(k, v)] + ps).drop_first() =~= ps);
                        }
                    }
                }
            }
        }
    }
}


/// The result of decoding one value from a buffer position.
pub enum DecodeResult {
    /// The decoded value and the position just past it.
    Done(Value, usize),
    /// The buffer ends before the value does: read more bytes and retry.
    NeedMore,
    /// The buffer cannot hold a value at this position.
    Malformed,
}

/// The result of decoding a run of values.
pub enum DecodeListResult {
    Done(Vec<Value>, usize),
    NeedMore,
    Malformed,
}

/// The result of decoding a run of key/value pairs.
pub enum DecodePairsResult {
    Done(Vec<(Value, Value)>, usize),
    NeedMore,
    Malformed,
}

/// The decode result agrees with the parse of the bytes from `pos` on.
pub open spec fn decode_matches(
    r: DecodeResult,
    p: Parsed<ValueModel>,
    pos: int,
    buflen: int,
) -> bool {
    match r {
        DecodeResult::Done(v, end) => pos <= end <= buflen && vm(v).wf() && p
            == Parsed::Found(vm(v), end - pos),
        DecodeResult::NeedMore => p is Incomplete,
        DecodeResult::Malformed => p is Invalid,
    }
}

/// The list decode result agrees with the parse of the bytes from `pos` on.
pub open spec fn decode_list_matches(
    r: DecodeListResult,
    p: Parsed<Seq<ValueModel>>,
    pos: int,
    buflen: int,
) -> bool {
    match r {
        DecodeListResult::Done(vec, end) => pos <= end <= buflen && p
            == Parsed::Found(vm_items(vec, vec.len() as int), end - pos),
        DecodeListResult::NeedMore => p is Incomplete,
        DecodeListResult::Malformed => p is Invalid,
    }
}

/// The pair decode result agrees with the parse of the bytes from `pos` on.
pub open spec fn decode_pairs_matches(
    r: DecodePairsResult,
    p: Parsed<Seq<(ValueModel, ValueModel)>>,
    pos: int,
    buflen: int,
) -> bool {
    match r {
        DecodePairsResult::Done(vec, end) => pos <= end <= buflen && p
            == Parsed::Found(vm_pairs(vec, vec.len() as int), end - pos),
        DecodePairsResult::NeedMore => p is Incomplete,
        DecodePairsResult::Malformed => p is Invalid,
    }
}

/// Reads the `w`-byte big-endian integer at `at`.
fn read_be(buf: &Vec<u8>, at: usize, w: usize) -> (r: u64)
    requires
        at + w <= buf.len(),
        w <= 8,
    ensures
        r as int == be_int(buf@.subrange(at as int, at + w)),
        (r as int) < pow256(w as int),
{
    proof {
        lemma_pow256_values();
    }
    let mut acc: u64 = 0;
    let mut i: usize = 0;
    while i < w
        invariant
            at + w <= buf.len(),
            w <= 8,
            i <= w,
            acc as int == be_int(buf@.subrange(at as int, at + i)),
            (acc as int) < pow256(i as int),
        decreases w - i,
    {
        proof {
            assert(pow256(i as int) <= pow256(7)) by {
                lemma_pow256_monotone(i as int, 7);
            }
            lemma_pow256_values();
            assert(pow256(7) == 0x100_0000_0000_0000);
            assert(acc as int * 256 + 256 <= pow256(i + 1)) by (nonlinear_arith)
                requires
                    (acc as int) < pow256(i as int),
                    pow256(i + 1) == 256 * pow256(i as int),
            ;
            assert(pow256(i + 1) <= pow256(8)) by {
                lemma_pow256_monotone(i + 1, 8);
            }
        }
        let b = buf[at + i];
        let acc2: u64 = acc * 256 + (b as u64);
        proof {
            assert(buf@.subrange(at as int, at + i + 1).drop_last()
                =~= buf@.subrange(at as int, at + i));
            assert(buf@.subrange(at as int, at + i + 1).last() == b);
        }
        acc = acc2;
        i = i + 1;
    }
    acc
}

/// `pow256` is monotone.
pub proof fn lemma_pow256_monotone(a: int, b: int)
    requires
        a <= b,
    ensures
        pow256(a) <= pow256(b),
    decreases b - a,
{
    if a < b && b > 0 {
        lemma_pow256_monotone(a, b - 1);
        lemma_pow256_pos(b - 1);
        assert(pow256(b) == 256 * pow256(b - 1));
    }
}

/// `pow256` is positive.
pub proof fn lemma_pow256_pos(w: int)
    ensures
        pow256(w) >= 1,
    decreases w,
{
    if w > 0 {
        lemma_pow256_pos(w - 1);
    }
}

/// Copies `len` bytes starting at `from`.
fn take_bytes(buf: &Vec<u8>, from: usize, len: usize) -> (out: Vec<u8>)
    requires
        from + len <= buf.len(),
    ensures
        out@ == buf@.subrange(from as int, from + len),
{
    let mut out: Vec<u8> = Vec::new();
    let mut i: usize = 0;
    while i < len
        invariant
            from + len <= buf.len(),
            i <= len,
            out@ == buf@.subrange(from as int, from + i),
        decreases len - i,
    {
        out.push(buf[from + i]);
        proof {
            assert(out@ =~= buf@.subrange(from as int, from + i + 1));
        }
        i = i + 1;
    }
    proof {
        assert(out@ =~= buf@.subrange(from as int, from + len));
    }
    out
}


/// Decodes a string or binary payload of `len` bytes after an `hdr`-byte header.
fn d_raw(buf: &Vec<u8>, pos: usize, hdr: u64, len: u64, bin: bool) -> (r: DecodeResult)
    requires
        pos <= buf.len(),
        1 <= hdr <= 16,
        len <= u32::MAX,
    ensures
        decode_matches(
            r,
            parse_raw(buf@.skip(pos as int), hdr as int, len as int, bin),
            pos as int,
            buf.len() as int,
        ),
{
    let rem = buf.len() - pos;
    if (rem as u64) < hdr + len {
        DecodeResult::NeedMore
    } else {
        let hdr_us: usize = hdr as usize;
        let len_us: usize = len as usize;
        let bytes = take_bytes(buf, pos + hdr_us, len_us);
        let end = pos + hdr_us + len_us;
        proof {
            assert(buf@.skip(pos as int).subrange(hdr as int, hdr + len)
                =~= buf@.subrange(pos + hdr, pos + hdr + len));
        }
        if bin {
            DecodeResult::Done(Value::Bin(bytes), end)
        } else {
            DecodeResult::Done(Value::Str(bytes), end)
        }
    }
}

/// Decodes an extension payload of `len` bytes after an `hdr`-byte header.
fn d_ext(buf: &Vec<u8>, pos: usize, hdr: u64, len: u64, tag: i8) -> (r: DecodeResult)
    requires
        pos <= buf.len(),
        1 <= hdr <= 16,
        len <= u32::MAX,
    ensures
        decode_matches(
            r,
            parse_ext(buf@.skip(pos as int), hdr as int, len as int, tag as int),
            pos as int,
            buf.len() as int,
        ),
{
    let rem = buf.len() - pos;
    if (rem as u64) < hdr + len {
        DecodeResult::NeedMore
    } else {
        let hdr_us: usize = hdr as usize;
        let len_us: usize = len as usize;
        let bytes = take_bytes(buf, pos + hdr_us, len_us);
        let end = pos + hdr_us + len_us;
        proof {
            assert(buf@.skip(pos as int).subrange(hdr as int, hdr + len)
                =~= buf@.subrange(pos + hdr, pos + hdr + len));
        }
        DecodeResult::Done(Value::Ext(tag, bytes), end)
    }
}

/// Decodes the `n` elements of an array whose header is `hdr` bytes.
fn d_array(buf: &Vec<u8>, pos: usize, hdr: usize, n: u64) -> (r: DecodeResult)
    requires
        pos + hdr <= buf.len(),
        1 <= hdr,
        n <= u32::MAX,
    ensures
        decode_matches(
            r,
            parse_array_body(buf@.skip(pos as int), hdr as int, n as int),
            pos as int,
            buf.len() as int,
        ),
    decreases buf.len() - pos, 0int, 1int,
{
    let ghost s = buf@.skip(pos as int);
    proof {
        assert(s.skip(hdr as int) =~= buf@.skip((pos + hdr) as int));
        lemma_parse_list_bounds(s.skip(hdr as int), n as int);
    }
    match decode_list(buf, pos + hdr, n) {
        DecodeListResult::Done(vec, end) => {
            proof {
                crate::value::lemma_vm_items(vec, vec.len() as int);
            }
            DecodeResult::Done(Value::Array(vec), end)
        },
        DecodeListResult::NeedMore => DecodeResult::NeedMore,
        DecodeListResult::Malformed => DecodeResult::Malformed,
    }
}

/// Decodes the `n` key/value pairs of a map whose header is `hdr` bytes.
fn d_dict(buf: &Vec<u8>, pos: usize, hdr: usize, n: u64) -> (r: DecodeResult)
    requires
        pos + hdr <= buf.len(),
        1 <= hdr,
        n <= u32::MAX,
    ensures
        decode_matches(
            r,
            parse_dict_body(buf@.skip(pos as int), hdr as int, n as int),
            pos as int,
            buf.len() as int,
        ),
    decreases buf.len() - pos, 0int, 1int,
{
    let ghost s = buf@.skip(pos as int);
    proof {
        assert(s.skip(hdr as int) =~= buf@.skip((pos + hdr) as int));
        lemma_parse_pairs_bounds(s.skip(hdr as int), n as int);
    }
    match decode_pairs(buf, pos + hdr, n) {
        DecodePairsResult::Done(vec, end) => {
            proof {
                crate::value::lemma_vm_pairs(vec, vec.len() as int);
            }
            DecodeResult::Done(Value::Dict(vec), end)
        },
        DecodePairsResult::NeedMore => DecodeResult::NeedMore,
        DecodePairsResult::Malformed => DecodeResult::Malformed,
    }
}

/// Decodes `n` consecutive values starting at `pos`.
fn decode_list(buf: &Vec<u8>, pos: usize, n: u64) -> (r: DecodeListResult)
    requires
        pos <= buf.len(),
    ensures
        decode_list_matches(
            r,
            parse_list(buf@.skip(pos as int), n as int),
            pos as int,
            buf.len() as int,
        ),
    decreases buf.len() - pos, n, 0int,
{
    let ghost s = buf@.skip(pos as int);
    if n == 0 {
        let out: Vec<Value> = Vec::new();
        proof {
            assert(vm_items(out, 0) =~= Seq::<ValueModel>::empty());
        }
        DecodeListResult::Done(out, pos)
    } else {
        proof {
            lemma_parse_bounds(s);
        }
        match decode_at(buf, pos) {
            DecodeResult::Done(v, end) => {
                proof {
                    assert(s.skip(end - pos) =~= buf@.skip(end as int));
                }
                match decode_list(buf, end, n - 1) {
                    DecodeListResult::Done(rest, end2) => {
                        let ghost rest_snap = rest;
                        let ghost v_snap = v;
                        let mut out: Vec<Value> = Vec::new();
                        out.push(v);
                        let mut rest_mut = rest;
                        out.append(&mut rest_mut);
                        proof {
                            assert(out@ =~= seq![v_snap] + rest_snap@);
                            crate::value::lemma_vm_items(out, out.len() as int);
                            crate::value::lemma_vm_items(rest_snap, rest_snap.len() as int);
                            assert forall|i: int| 0 <= i < out.len()
                                implies vm_items(out, out.len() as int)[i]
                                    == (seq![vm(v_snap)]
                                        + vm_items(rest_snap, rest_snap.len() as int))[i] by {
                                if i > 0 {
                                    assert(out[i] == rest_snap[i - 1]);
                                }
                            }
                            assert(vm_items(out, out.len() as int)
                                =~= seq![vm(v_snap)] + vm_items(rest_snap, rest_snap.len() as int));
                        }
                        DecodeListResult::Done(out, end2)
                    },
                    DecodeListResult::NeedMore => DecodeListResult::NeedMore,
                    DecodeListResult::Malformed => DecodeListResult::Malformed,
                }
            },
            DecodeResult::NeedMore => DecodeListResult::NeedMore,
            DecodeResult::Malformed => DecodeListResult::Malformed,
        }
    }
}

/// Decodes `n` consecutive key/value pairs starting at `pos`.
fn decode_pairs(buf: &Vec<u8>, pos: usize, n: u64) -> (r: DecodePairsResult)
    requires
        pos <= buf.len(),
    ensures
        decode_pairs_matches(
            r,
            parse_pairs(buf@.skip(pos as int), n as int),
            pos as int,
            buf.len() as int,
        ),
    decreases buf.len() - pos, n, 0int,
{
    let ghost s = buf@.skip(pos as int);
    if n == 0 {
        let out: Vec<(Value, Value)> = Vec::new();
        proof {
            assert(vm_pairs(out, 0) =~= Seq::<(ValueModel, ValueModel)>::empty());
        }
        DecodePairsResult::Done(out, pos)
    } else {
        proof {
            lemma_parse_bounds(s);
        }
        match decode_at(buf, pos) {
            DecodeResult::Done(k, mid) => {
                proof {
                    assert(s.skip(mid - pos) =~= buf@.skip(mid as int));
                    lemma_parse_bounds(s.skip(mid - pos));
                }
                match decode_at(buf, mid) {
                    DecodeResult::Done(v, end) => {
                        proof {
                            assert(s.skip(end - pos) =~= buf@.skip(end as int));
                        }
                        match decode_pairs(buf, end, n - 1) {
                            DecodePairsResult::Done(rest, end2) => {
                                let ghost rest_snap = rest;
                                let ghost k_snap = k;
                                let ghost v_snap = v;
                                let mut out: Vec<(Value, Value)> = Vec::new();
                                out.push((k, v));
                                let mut rest_mut = rest;
                                out.append(&mut rest_mut);
                                proof {
                                    assert(out@ =~= seq![(k_snap, v_snap)] + rest_snap@);
                                    crate::value::lemma_vm_pairs(out, out.len() as int);
                                    crate::value::lemma_vm_pairs(rest_snap, rest_snap.len() as int);
                                    assert forall|i: int| 0 <= i < out.len()
                                        implies vm_pairs(out, out.len() as int)[i]
                                            == (seq![(vm(k_snap), vm(v_snap))]
                                                + vm_pairs(rest_snap, rest_snap.len() as int))[i] by {
                                        if i > 0 {
                                            assert(out[i] == rest_snap[i - 1]);
                                        }
                                    }
                                    assert(vm_pairs(out, out.len() as int)
                                        =~= seq![(vm(k_snap), vm(v_snap))]
                                            + vm_pairs(rest_snap, rest_snap.len() as int));
                                }
                                DecodePairsResult::Done(out, end2)
                            },
                            DecodePairsResult::NeedMore => DecodePairsResult::NeedMore,
                            DecodePairsResult::Malformed => DecodePairsResult::Malformed,
                        }
                    },
                    DecodeResult::NeedMore => DecodePairsResult::NeedMore,
                    DecodeResult::Malformed => DecodePairsResult::Malformed,
                }
            },
            DecodeResult::NeedMore => DecodePairsResult::NeedMore,
            DecodeResult::Malformed => DecodePairsResult::Malformed,
        }
    }
}


/// Decodes one msgpack value starting at `pos`, in any standard format.
#[verifier::rlimit(60)]
pub fn decode_at(buf: &Vec<u8>, pos: usize) -> (r: DecodeResult)
    requires
        pos <= buf.len(),
    ensures
        decode_matches(
            r,
            parse(buf@.skip(pos as int)),
            pos as int,
            buf.len() as int,
        ),
    decreases buf.len() - pos, 0int, 2int,
{
    let ghost s = buf@.skip(pos as int);
    let rem = buf.len() - pos;
    if rem == 0 {
        return DecodeResult::NeedMore;
    }
    let t = buf[pos];
    proof {
        assert(s[0] == t);
        assert(s.len() == rem);
        if rem >= 3 {
            assert(s.subrange(1, 3) =~= buf@.subrange(pos + 1, pos + 3));
        }
        if rem >= 5 {
            assert(s.subrange(1, 5) =~= buf@.subrange(pos + 1, pos + 5));
        }
        if rem >= 9 {
            assert(s.subrange(1, 9) =~= buf@.subrange(pos + 1, pos + 9));
        }
        lemma_pow256_values();
    }
    if t < 0x80 {
        DecodeResult::Done(Value::UInt(t as u64), pos + 1)
    } else if t < 0x90 {
        d_dict(buf, pos, 1, (t - 0x80) as u64)
    } else if t < 0xa0 {
        d_array(buf, pos, 1, (t - 0x90) as u64)
    } else if t < 0xc0 {
        d_raw(buf, pos, 1, (t - 0xa0) as u64, false)
    } else if t == 0xc0 {
        DecodeResult::Done(Value::Nil, pos + 1)
    } else if t == 0xc1 {
        DecodeResult::Malformed
    } else if t == 0xc2 {
        DecodeResult::Done(Value::Bool(false), pos + 1)
    } else if t == 0xc3 {
        DecodeResult::Done(Value::Bool(true), pos + 1)
    } else if t == 0xc4 {
        if rem < 2 {
            DecodeResult::NeedMore
        } else {
            d_raw(buf, pos, 2, buf[pos + 1] as u64, true)
        }
    } else if t == 0xc5 {
        if rem < 3 {
            DecodeResult::NeedMore
        } else {
            d_raw(buf, pos, 3, read_be(buf, pos + 1, 2), true)
        }
    } else if t == 0xc6 {
        if rem < 5 {
            DecodeResult::NeedMore
        } else {
            d_raw(buf, pos, 5, read_be(buf, pos + 1, 4), true)
        }
    } else if t == 0xc7 {
        if rem < 3 {
            DecodeResult::NeedMore
        } else {
            d_ext(buf, pos, 3, buf[pos + 1] as u64, buf[pos + 2] as i8)
        }
    } else if t == 0xc8 {
        if rem < 4 {
            DecodeResult::NeedMore
        } else {
            d_ext(buf, pos, 4, read_be(buf, pos + 1, 2), buf[pos + 3] as i8)
        }
    } else if t == 0xc9 {
        if rem < 6 {
            DecodeResult::NeedMore
        } else {
            d_ext(buf, pos, 6, read_be(buf, pos + 1, 4), buf[pos + 5] as i8)
        }
    } else if t == 0xca {
        if rem < 5 {
            DecodeResult::NeedMore
        } else {
            DecodeResult::Done(Value::F32(read_be(buf, pos + 1, 4) as u32), pos + 5)
        }
    } else if t == 0xcb {
        if rem < 9 {
            DecodeResult::NeedMore
        } else {
            DecodeResult::Done(Value::F64(read_be(buf, pos + 1, 8)), pos + 9)
        }
    } else if t == 0xcc {
        if rem < 2 {
            DecodeResult::NeedMore
        } else {
            DecodeResult::Done(Value::UInt(buf[pos + 1] as u64), pos + 2)
        }
    } else if t == 0xcd {
        if rem < 3 {
            DecodeResult::NeedMore
        } else {
            DecodeResult::Done(Value::UInt(read_be(buf, pos + 1, 2)), pos + 3)
        }
    } else if t == 0xce {
        if rem < 5 {
            DecodeResult::NeedMore
        } else {
            DecodeResult::Done(Value::UInt(read_be(buf, pos + 1, 4)), pos + 5)
        }
    } else if t == 0xcf {
        if rem < 9 {
            DecodeResult::NeedMore
        } else {
            DecodeResult::Done(Value::UInt(read_be(buf, pos + 1, 8)), pos + 9)
        }
    } else if t == 0xd0 {
        if rem < 2 {
            DecodeResult::NeedMore
        } else {
            DecodeResult::Done(Value::Int((buf[pos + 1] as i8) as i64), pos + 2)
        }
    } else if t == 0xd1 {
        if rem < 3 {
            DecodeResult::NeedMore
        } else {
            let u = read_be(buf, pos + 1, 2);
            DecodeResult::Done(Value::Int(((u as u16) as i16) as i64), pos + 3)
        }
    } else if t == 0xd2 {
        if rem < 5 {
            DecodeResult::NeedMore
        } else {
            let u = read_be(buf, pos + 1, 4);
            DecodeResult::Done(Value::Int(((u as u32) as i32) as i64), pos + 5)
        }
    } else if t == 0xd3 {
        if rem < 9 {
            DecodeResult::NeedMore
        } else {
            let u = read_be(buf, pos + 1, 8);
            DecodeResult::Done(Value::Int(u as i64), pos + 9)
        }
    } else if t == 0xd4 {
        d_fixext(buf, pos, 1)
    } else if t == 0xd5 {
        d_fixext(buf, pos, 2)
    } else if t == 0xd6 {
        d_fixext(buf, pos, 4)
    } else if t == 0xd7 {
        d_fixext(buf, pos, 8)
    } else if t == 0xd8 {
        d_fixext(buf, pos, 16)
    } else if t == 0xd9 {
        if rem < 2 {
            DecodeResult::NeedMore
        } else {
            d_raw(buf, pos, 2, buf[pos + 1] as u64, false)
        }
    } else if t == 0xda {
        if rem < 3 {
            DecodeResult::NeedMore
        } else {
            d_raw(buf, pos, 3, read_be(buf, pos + 1, 2), false)
        }
    } else if t == 0xdb {
        if rem < 5 {
            DecodeResult::NeedMore
        } else {
            d_raw(buf, pos, 5, read_be(buf, pos + 1, 4), false)
        }
    } else if t == 0xdc {
        if rem < 3 {
            DecodeResult::NeedMore
        } else {
            d_array(buf, pos, 3, read_be(buf, pos + 1, 2))
        }
    } else if t == 0xdd {
        if rem < 5 {
            DecodeResult::NeedMore
        } else {
            d_array(buf, pos, 5, read_be(buf, pos + 1, 4))
        }
    } else if t == 0xde {
        if rem < 3 {
            DecodeResult::NeedMore
        } else {
            d_dict(buf, pos, 3, read_be(buf, pos + 1, 2))
        }
    } else if t == 0xdf {
        if rem < 5 {
            DecodeResult::NeedMore
        } else {
            d_dict(buf, pos, 5, read_be(buf, pos + 1, 4))
        }
    } else {
        DecodeResult::Done(Value::Int((t as i8) as i64), pos + 1)
    }
}

/// Decodes a fixext value: a type byte and exactly `len` payload bytes.
fn d_fixext(buf: &Vec<u8>, pos: usize, len: u64) -> (r: DecodeResult)
    requires
        pos < buf.len(),
        1 <= len <= 16,
    ensures
        decode_matches(
            r,
            parse_ext_fix(buf@.skip(pos as int), len as int),
            pos as int,
            buf.len() as int,
        ),
{
    let ghost s = buf@.skip(pos as int);
    let rem = buf.len() - pos;
    if (rem as u64) < 2 + len {
        DecodeResult::NeedMore
    } else {
        let tag = buf[pos + 1] as i8;
        proof {
            assert(s[1] == buf@[pos + 1]);
            assert(parse_ext_fix(s, len as int) == parse_ext(s, 2, len as int, tag as int));
        }
        d_ext(buf, pos, 2, len, tag)
    }
}

/// Decodes the first value of `buf`.
pub fn decode_value(buf: &Vec<u8>) -> (r: DecodeResult)
    ensures
        decode_matches(r, parse(buf@), 0, buf.len() as int),
{
    proof {
        assert(buf@.skip(0) =~= buf@);
    }
    decode_at(buf, 0)
}

} // verus!






