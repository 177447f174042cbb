//! Properties that hold of the encoder for all inputs.
use crate::format::{byte_len, compact_bytes, le_bytes, pow256, twos_complement};
use crate::model::{
    enc_fields, enc_items, enc_seq, enc_value, fail, first_variant_named, int_width,
    is_signed, keys_ascending, normalize, number_of, prepend, seq_item, seq_len,
};
use crate::error::ErrorKindView;
use crate::registry::{acyclic, depth, lookup, lemma_depth_composite_field, lemma_depth_child, lemma_depth_tuple_member, Primitive, TypeDef, VariantDef};
use vstd::arithmetic::div_mod::{lemma_mod_breakdown, lemma_small_mod};
use vstd::utf8::{decode_utf8, encode_utf8, encode_utf8_decode_utf8};
use crate::value::{Composite, Value, Variant};
use vstd::prelude::*;

verus! {

/// Normalizing a type identifier twice gives the same identifier as
/// normalizing it once.
pub proof fn lemma_normalize_idempotent(types: Seq<TypeDef>, id: u32)
    requires
        acyclic(types),
    ensures
        normalize(types, normalize(types, id)) == normalize(types, id),
    decreases depth(types, id),
{
    match lookup(types, id) {
        Some(TypeDef::Tuple(ids)) => if ids@.len() == 1 {
            lemma_depth_tuple_member(types, id, 0);
            lemma_normalize_idempotent(types, ids@[0]);
        },
        Some(TypeDef::Composite(fs)) => if fs@.len() == 1 {
            lemma_depth_composite_field(types, id, 0);
            lemma_normalize_idempotent(types, fs@[0].id);
        },
        Some(TypeDef::Array(e, n)) => if n == 1 {
            lemma_depth_child(types, id, e);
            lemma_normalize_idempotent(types, e);
        },
        _ => {},
    }
}

/// A sequence value encodes into a sequence type as its compact length
/// followed by exactly the bytes it encodes to in an array type of the same
/// element type and of its length; into an array type of another length it
/// fails with the two lengths.
pub proof fn lemma_sequence_array_interchange(
    types: Seq<TypeDef>,
    v: Value,
    seq_id: u32,
    array_id: u32,
    elem: u32,
    len: u32,
)
    requires
        acyclic(types),
        v is Sequence,
        lookup(types, seq_id) == Some(TypeDef::Sequence(elem)),
        lookup(types, array_id) == Some(TypeDef::Array(elem, len)),
    ensures
        len == seq_len(v) ==> enc_value(types, v, seq_id) == prepend(
            compact_bytes(len as nat),
            enc_value(types, v, array_id),
        ),
        len != seq_len(v) ==> enc_value(types, v, array_id) == fail(
            ErrorKindView::WrongLength(seq_len(v), len as nat),
        ),
{
}

/// A variant is encoded by its name alone: the tag byte written is that of
/// the first target variant with the same name, whatever its position, and
/// the fields follow, matched against that variant's fields.
pub proof fn lemma_variant_by_name(
    types: Seq<TypeDef>,
    var: Variant,
    tid: u32,
    vs: Seq<VariantDef>,
    k: int,
)
    requires
        acyclic(types),
        lookup(types, normalize(types, tid)) matches Some(TypeDef::Variant(t)) && t@ == vs,
        0 <= k < vs.len(),
        vs[k].name@ == var.name@,
        forall|j: int| 0 <= j < k ==> (#[trigger] vs[j]).name@ != var.name@,
    ensures
        enc_value(types, Value::Variant(var), tid) == prepend(
            seq![vs[k].index],
            enc_fields(types, var.fields, vs[k].fields@),
        ),
{
    lemma_first_variant_from(vs, var.name@, 0, k);
}

proof fn lemma_first_variant_from(vs: Seq<VariantDef>, name: Seq<char>, i: int, k: int)
    requires
        0 <= i <= k < vs.len(),
        vs[k].name@ == name,
        forall|j: int| 0 <= j < k ==> (#[trigger] vs[j]).name@ != name,
    ensures
        first_variant_named(vs, name, i) == Some(k),
    decreases k - i,
{
    if i < k {
        lemma_first_variant_from(vs, name, i + 1, k);
    }
}

proof fn lemma_items_same(types: Seq<TypeDef>, a: Value, b: Value, e: u32, i: nat)
    requires
        acyclic(types),
        seq_len(a) == seq_len(b),
        forall|j: int| 0 <= j < seq_len(a) ==> seq_item(a, j) == seq_item(b, j),
    ensures
        enc_items(types, a, e, i) == enc_items(types, b, e, i),
    decreases seq_len(a) - i,
{
    if i < seq_len(a) {
        lemma_items_same(types, a, b, e, i + 1);
        assert(seq_item(a, i as int) == seq_item(b, i as int));
    }
}

proof fn lemma_seq_same(types: Seq<TypeDef>, a: Value, b: Value, tid: u32)
    requires
        acyclic(types),
        seq_len(a) == seq_len(b),
        forall|j: int| 0 <= j < seq_len(a) ==> seq_item(a, j) == seq_item(b, j),
    ensures
        enc_seq(types, a, tid) == enc_seq(types, b, tid),
    decreases depth(types, tid),
{
    match lookup(types, tid) {
        Some(TypeDef::Array(e, _)) => lemma_items_same(types, a, b, e, 0),
        Some(TypeDef::Sequence(e)) => lemma_items_same(types, a, b, e, 0),
        Some(TypeDef::Tuple(ids)) => if ids@.len() == 1 {
            lemma_depth_tuple_member(types, tid, 0);
            lemma_seq_same(types, a, b, ids@[0]);
        },
        Some(TypeDef::Composite(fs)) => if fs@.len() == 1 {
            lemma_depth_composite_field(types, tid, 0);
            lemma_seq_same(types, a, b, fs@[0].id);
        },
        _ => {},
    }
}

/// A string-keyed map, its entries in ascending key order, encodes into an
/// array or sequence type exactly as the sequence of its values in key order
/// does; into any other type it encodes exactly as a composite of its
/// entries, named by their keys.
pub proof fn lemma_map_as_sequence_or_composite(
    types: Seq<TypeDef>,
    c: Composite,
    items: Vec<Value>,
    tid: u32,
)
    requires
        acyclic(types),
        keys_ascending(c),
        items@.len() == c.vals@.len(),
        forall|j: int| 0 <= j < items@.len() ==> items@[j] == (#[trigger] c.vals@[j]).1.val,
    ensures
        lookup(types, tid) matches Some(d) && (d is Sequence || d is Array) ==> enc_value(
            types,
            Value::StringMap(c),
            tid,
        ) == enc_value(types, Value::Sequence(items), tid),
        !(lookup(types, tid) matches Some(d) && (d is Sequence || d is Array)) ==> enc_value(
            types,
            Value::StringMap(c),
            tid,
        ) == enc_value(types, Value::Composite(c), tid),
{
    let a = Value::StringMap(c);
    let b = Value::Sequence(items);
    assert forall|j: int| 0 <= j < seq_len(a) implies seq_item(a, j) == seq_item(b, j) by {
        assert(items@[j] == c.vals@[j].1.val);
    }
    lemma_seq_same(types, a, b, tid);
}

/// The number that little-endian bytes stand for.
pub open spec fn le_value(b: Seq<u8>) -> nat
    decreases b.len(),
{
    if b.len() == 0 {
        0
    } else {
        b[0] as nat + 256 * le_value(b.drop_first())
    }
}

/// Reading the bytes of an integer primitive back as a number: little-endian,
/// in two's complement when the primitive is signed.
pub open spec fn decode_int(b: Seq<u8>, p: Primitive) -> int {
    let w = int_width(p);
    let u = le_value(b);
    if is_signed(p) && u >= pow256(w) / 2 {
        u - pow256(w)
    } else {
        u as int
    }
}

proof fn lemma_pow256_positive(w: nat)
    ensures
        pow256(w) > 0,
        w > 0 ==> pow256(w) == 256 * pow256((w - 1) as nat),
    decreases w,
{
    if w > 0 {
        lemma_pow256_positive((w - 1) as nat);
    }
}

proof fn lemma_le_value(u: nat, w: nat)
    ensures
        le_bytes(u, w).len() == w,
        le_value(le_bytes(u, w)) == u % pow256(w),
    decreases w,
{
    lemma_pow256_positive(w);
    if w > 0 {
        let rest = (w - 1) as nat;
        lemma_le_value(u / 256, rest);
        lemma_pow256_positive(rest);
        let b = le_bytes(u, w);
        assert(b.drop_first() =~= le_bytes(u / 256, rest));
        lemma_mod_breakdown(u as int, 256, pow256(rest) as int);
    }
}

/// Encoding a number into a fixed-width integer type gives as many bytes as
/// the type is wide, and reading them back gives the number again.
pub proof fn lemma_fixed_width_integer_round_trip(
    types: Seq<TypeDef>,
    v: Value,
    tid: u32,
    p: Primitive,
)
    requires
        acyclic(types),
        v is UInt || v is Int || v is Char,
        lookup(types, normalize(types, tid)) == Some(TypeDef::Primitive(p)),
        enc_value(types, v, tid) is Ok,
    ensures
        enc_value(types, v, tid)->Ok_0.len() == int_width(p),
        decode_int(enc_value(types, v, tid)->Ok_0, p) == number_of(v),
{
    let n = number_of(v);
    let w = int_width(p);
    let u = twos_complement(n, w);
    lemma_le_value(u, w);
    lemma_pow256_positive(w);
    assert(u < pow256(w));
    assert(u % pow256(w) == u) by {
        lemma_small_mod(u, pow256(w));
    }
}

/// The number of bytes that the compact encoding at the start of `b`
/// occupies: the low two bits of the first byte give the mode.
pub open spec fn compact_size(b: Seq<u8>) -> nat {
    let mode = b[0] % 4;
    if mode == 0 {
        1
    } else if mode == 1 {
        2
    } else if mode == 2 {
        4
    } else {
        (b[0] / 4 + 5) as nat
    }
}

/// Reading the compact encoding at the start of `b` back as a number.
pub open spec fn compact_value(b: Seq<u8>) -> nat {
    let mode = b[0] % 4;
    if mode == 0 {
        (b[0] / 4) as nat
    } else if mode == 1 {
        le_value(b.subrange(0, 2)) / 4
    } else if mode == 2 {
        le_value(b.subrange(0, 4)) / 4
    } else {
        le_value(b.subrange(1, compact_size(b) as int))
    }
}

proof fn lemma_pow256_mono(a: nat, b: nat)
    requires
        a <= b,
    ensures
        pow256(a) <= pow256(b),
    decreases b,
{
    lemma_pow256_positive(b);
    if a < b {
        lemma_pow256_mono(a, (b - 1) as nat);
    }
}

proof fn lemma_byte_len_bounds(n: nat)
    ensures
        byte_len(n) >= 1,
        n < pow256(byte_len(n)),
        n >= 256 ==> pow256((byte_len(n) - 1) as nat) <= n,
    decreases n,
{
    reveal_with_fuel(pow256, 2);
    if n >= 256 {
        lemma_byte_len_bounds(n / 256);
        let k = byte_len(n / 256);
        lemma_pow256_positive(k);
        lemma_pow256_positive((k + 1) as nat);
        if n / 256 >= 256 {
            lemma_pow256_positive((k - 1) as nat);
            assert(pow256(k) == 256 * pow256((k - 1) as nat));
        }
    }
}

/// Compact-encoding a number below `2^128` and reading the bytes back, with
/// whatever follows them, gives the number again and the encoding's length.
pub proof fn lemma_compact_round_trip(n: nat, rest: Seq<u8>)
    requires
        n < pow256(16),
    ensures
        compact_value(compact_bytes(n) + rest) == n,
        compact_size(compact_bytes(n) + rest) == compact_bytes(n).len(),
{
    reveal_with_fuel(pow256, 5);
    let e = compact_bytes(n);
    let b = e + rest;
    if n < 0x40 {
        assert(b[0] == n * 4);
        assert(b[0] % 4 == 0);
    } else if n < 0x4000 {
        let x = n * 4 + 1;
        lemma_le_value(x, 2);
        assert(b.subrange(0, 2) =~= e);
        assert(b[0] == x % 256);
        assert((x % 256) % 4 == 1) by (nonlinear_arith)
            requires
                x == n * 4 + 1,
        ;
        lemma_small_mod(x, pow256(2));
        assert(le_value(e) == x);
    } else if n < 0x4000_0000 {
        let x = n * 4 + 2;
        lemma_le_value(x, 4);
        assert(b.subrange(0, 4) =~= e);
        assert(b[0] == x % 256);
        assert((x % 256) % 4 == 2) by (nonlinear_arith)
            requires
                x == n * 4 + 2,
        ;
        lemma_small_mod(x, pow256(4));
        assert(le_value(e) == x);
    } else {
        let k = byte_len(n);
        lemma_byte_len_bounds(n);
        if k <= 3 {
            lemma_pow256_mono(k, 3);
        }
        if k >= 17 {
            lemma_pow256_mono(16, (k - 1) as nat);
        }
        assert(4 <= k <= 16);
        lemma_le_value(n, k);
        assert(b[0] == (k - 4) * 4 + 3);
        assert(b[0] % 4 == 3);
        assert(compact_size(b) == k + 1);
        assert(b.subrange(1, k + 1 as int) =~= le_bytes(n, k));
        lemma_small_mod(n, pow256(k));
    }
}

/// Encoding a number into a compact type, and reading the compact bytes
/// back, gives the number again.
pub proof fn lemma_compact_number_round_trip(types: Seq<TypeDef>, v: Value, tid: u32, inner: u32)
    requires
        acyclic(types),
        v is UInt || v is Int || v is Char,
        lookup(types, normalize(types, tid)) == Some(TypeDef::Compact(inner)),
        enc_value(types, v, tid) is Ok,
    ensures
        compact_value(enc_value(types, v, tid)->Ok_0) == number_of(v),
{
    let iid = normalize(types, inner);
    let p = lookup(types, iid)->Some_0->Primitive_0;
    assert(int_width(p) <= 16);
    lemma_pow256_mono(int_width(p), 16);
    lemma_compact_round_trip(number_of(v) as nat, Seq::empty());
    assert(enc_value(types, v, tid)->Ok_0 + Seq::<u8>::empty() =~= enc_value(types, v, tid)->Ok_0);
}

/// Reading the bytes of a string back: its compact byte length, then that
/// many bytes of UTF-8.
pub open spec fn decode_str(b: Seq<u8>) -> Seq<char> {
    let start = compact_size(b) as int;
    decode_utf8(b.subrange(start, start + compact_value(b)))
}

/// Encoding a string into a string type and reading the bytes back gives the
/// string again, with no byte left over.
pub proof fn lemma_string_round_trip(types: Seq<TypeDef>, s: String, tid: u32)
    requires
        acyclic(types),
        lookup(types, normalize(types, tid)) == Some(TypeDef::Primitive(Primitive::Str)),
        encode_utf8(s@).len() < pow256(16),
    ensures
        enc_value(types, Value::Str(s), tid) matches Ok(b) && decode_str(b) == s@ && b.len()
            == compact_size(b) + compact_value(b),
{
    let bytes = encode_utf8(s@);
    let n = bytes.len();
    let b = compact_bytes(n) + bytes;
    lemma_compact_round_trip(n, bytes);
    let start = compact_bytes(n).len() as int;
    assert(b.subrange(start, start + n) =~= bytes);
    encode_utf8_decode_utf8(s@);
}

} // verus!
