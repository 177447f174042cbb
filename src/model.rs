//! What encoding a value into a target type produces, stated over the type
//! descriptions of a registry.
use crate::error::{Error, ErrorKindView, ErrorView, Kind, LocationView};
use crate::format::{bits_encoded, compact_bytes, decimal, le_bytes, pow256, twos_complement};
use crate::registry::{
    acyclic, depth, key_of, lemma_depth_child, lemma_depth_composite_field,
    lemma_depth_tuple_member, lookup, Field, Primitive, TypeDef, VariantDef,
};
use crate::value::{Composite, Value};
use vstd::prelude::*;
use vstd::utf8::encode_utf8;

verus! {

/// The innermost type with the same byte representation as `id`: tuples of
/// one member, composites of one field and arrays of length one are passed
/// through.
pub open spec fn normalize(types: Seq<TypeDef>, id: u32) -> u32
    decreases depth(types, id),
    when acyclic(types)
{
    match lookup(types, id) {
        Some(TypeDef::Tuple(ids)) => if ids@.len() == 1 {
            proof {
                lemma_depth_tuple_member(types, id, 0);
            }
            normalize(types, ids@[0])
        } else {
            id
        },
        Some(TypeDef::Composite(fs)) => if fs@.len() == 1 {
            proof {
                lemma_depth_composite_field(types, id, 0);
            }
            normalize(types, fs@[0].id)
        } else {
            id
        },
        Some(TypeDef::Array(e, n)) => if n == 1 {
            proof {
                lemma_depth_child(types, id, e);
            }
            normalize(types, e)
        } else {
            id
        },
        _ => id,
    }
}

/// The innermost type reached through tuples of one member and composites of
/// one unnamed field. Unlike `normalize`, a composite whose one field is named
/// is kept, so that a named source field can still be matched against it,
/// and an array of length one is kept.
pub open spec fn skip_unnamed(types: Seq<TypeDef>, id: u32) -> u32
    decreases depth(types, id),
    when acyclic(types)
{
    match lookup(types, id) {
        Some(TypeDef::Tuple(ids)) => if ids@.len() == 1 {
            proof {
                lemma_depth_tuple_member(types, id, 0);
            }
            skip_unnamed(types, ids@[0])
        } else {
            id
        },
        Some(TypeDef::Composite(fs)) => if fs@.len() == 1 && fs@[0].name is None {
            proof {
                lemma_depth_composite_field(types, id, 0);
            }
            skip_unnamed(types, fs@[0].id)
        } else {
            id
        },
        _ => id,
    }
}

/// What encoding produces: the bytes on success, or on failure the bytes
/// written before the failure together with the error.
pub type Outcome = Result<Seq<u8>, (Seq<u8>, ErrorView)>;

/// An error of the given kind with an empty path, raised before any byte is
/// written.
pub open spec fn fail(kind: ErrorKindView) -> Outcome {
    Err((Seq::empty(), ErrorView::fresh(kind)))
}

/// `b` written before `r`: followed by the bytes of `r`, or by the bytes
/// that `r` wrote before its error.
pub open spec fn prepend(b: Seq<u8>, r: Outcome) -> Outcome {
    match r {
        Ok(x) => Ok(b + x),
        Err((p, e)) => Err((b + p, e)),
    }
}

/// `r`, with `loc` added to the path of its error.
pub open spec fn tag(r: Outcome, loc: LocationView) -> Outcome {
    match r {
        Ok(x) => Ok(x),
        Err((p, e)) => Err((p, e.at(loc))),
    }
}

/// The width in bytes of an integer primitive (zero for the others).
pub open spec fn int_width(p: Primitive) -> nat {
    match p {
        Primitive::U8 | Primitive::I8 => 1,
        Primitive::U16 | Primitive::I16 => 2,
        Primitive::U32 | Primitive::I32 => 4,
        Primitive::U64 | Primitive::I64 => 8,
        Primitive::U128 | Primitive::I128 => 16,
        _ => 0,
    }
}

pub open spec fn is_unsigned(p: Primitive) -> bool {
    p == Primitive::U8 || p == Primitive::U16 || p == Primitive::U32 || p == Primitive::U64 || p
        == Primitive::U128
}

pub open spec fn is_signed(p: Primitive) -> bool {
    p == Primitive::I8 || p == Primitive::I16 || p == Primitive::I32 || p == Primitive::I64 || p
        == Primitive::I128
}

/// Whether `n` lies in the range of the integer primitive `p`.
pub open spec fn fits(n: int, p: Primitive) -> bool {
    let w = int_width(p);
    if is_unsigned(p) {
        0 <= n < pow256(w)
    } else {
        -(pow256(w) / 2) <= n < pow256(w) / 2
    }
}

/// Encoding the number `n` into type `tid`.
pub open spec fn enc_number(types: Seq<TypeDef>, n: int, tid: u32) -> Outcome {
    let nid = normalize(types, tid);
    match lookup(types, nid) {
        None => fail(ErrorKindView::TypeNotFound(nid)),
        Some(TypeDef::Primitive(p)) => if is_unsigned(p) || is_signed(p) {
            if fits(n, p) {
                Ok(le_bytes(twos_complement(n, int_width(p)), int_width(p)))
            } else {
                fail(ErrorKindView::NumberOutOfRange(decimal(n), nid))
            }
        } else {
            fail(ErrorKindView::WrongShape(Kind::Number, nid))
        },
        Some(TypeDef::Compact(inner)) => {
            let iid = normalize(types, inner);
            match lookup(types, iid) {
                None => fail(ErrorKindView::TypeNotFound(iid)),
                Some(TypeDef::Primitive(p)) => if is_unsigned(p) {
                    if fits(n, p) {
                        Ok(compact_bytes(n as nat))
                    } else {
                        fail(ErrorKindView::NumberOutOfRange(decimal(n), iid))
                    }
                } else {
                    fail(ErrorKindView::WrongShape(Kind::Number, iid))
                },
                _ => fail(ErrorKindView::WrongShape(Kind::Number, iid)),
            }
        },
        _ => fail(ErrorKindView::WrongShape(Kind::Number, nid)),
    }
}

/// Encoding a boolean into type `tid`.
pub open spec fn enc_bool(types: Seq<TypeDef>, b: bool, tid: u32) -> Outcome {
    let nid = normalize(types, tid);
    match lookup(types, nid) {
        None => fail(ErrorKindView::TypeNotFound(nid)),
        Some(TypeDef::Primitive(Primitive::Bool)) => Ok(seq![if b { 1u8 } else { 0u8 }]),
        _ => fail(ErrorKindView::WrongShape(Kind::Bool, nid)),
    }
}

/// Encoding a string into type `tid`: its UTF-8 bytes after their compact
/// length.
pub open spec fn enc_str(types: Seq<TypeDef>, s: Seq<char>, tid: u32) -> Outcome {
    let nid = normalize(types, tid);
    match lookup(types, nid) {
        None => fail(ErrorKindView::TypeNotFound(nid)),
        Some(TypeDef::Primitive(Primitive::Str)) => Ok(
            compact_bytes(encode_utf8(s).len()) + encode_utf8(s),
        ),
        _ => fail(ErrorKindView::WrongShape(Kind::Str, nid)),
    }
}

/// Encoding a bit sequence into type `tid`.
pub open spec fn enc_bits(types: Seq<TypeDef>, bits: Seq<bool>, tid: u32) -> Outcome {
    let nid = normalize(types, tid);
    match lookup(types, nid) {
        None => fail(ErrorKindView::TypeNotFound(nid)),
        Some(TypeDef::BitSequence(store, order)) => Ok(bits_encoded(bits, store, order)),
        _ => fail(ErrorKindView::WrongShape(Kind::BitSequence, nid)),
    }
}

/// The number of elements of a sequence or map value.
pub open spec fn seq_len(v: Value) -> nat {
    match v {
        Value::Sequence(items) => items@.len(),
        Value::StringMap(c) => c.vals@.len(),
        _ => 0,
    }
}

/// Element `i` of a sequence, or the value of entry `i` of a map.
pub open spec fn seq_item(v: Value, i: int) -> Value {
    match v {
        Value::Sequence(items) => items@[i],
        Value::StringMap(c) => c.vals@[i].1.val,
        _ => v,
    }
}

/// Where entry `i` of a composite is, for an error path: its name if it has
/// one, else its position.
pub open spec fn entry_loc(c: Composite, i: int) -> LocationView {
    match c.vals@[i].0 {
        Some(s) => LocationView::Field(s@),
        None => LocationView::Idx(i as nat),
    }
}

/// `a` comes before `b` when their characters are compared by code point, a
/// proper prefix first: the order in which a map keyed by strings walks its
/// keys.
pub open spec fn key_less(a: Seq<char>, b: Seq<char>) -> bool
    decreases a.len(),
{
    if a.len() == 0 {
        b.len() > 0
    } else if b.len() == 0 {
        false
    } else if a[0] != b[0] {
        (a[0] as u32) < (b[0] as u32)
    } else {
        key_less(a.drop_first(), b.drop_first())
    }
}

/// The entries of a string-keyed map: each entry is named, and each name
/// comes strictly before the next, so keys are unique and ascending.
pub open spec fn keys_ascending(c: Composite) -> bool {
    &&& forall|i: int| 0 <= i < c.vals@.len() ==> (#[trigger] c.vals@[i]).0 is Some
    &&& forall|i: int|
        0 <= i < c.vals@.len() - 1 ==> key_less(
            key_of(#[trigger] c.vals@[i].0),
            key_of(c.vals@[i + 1].0),
        )
}

/// Whether some entry of the composite is named.
pub open spec fn has_named_entry(c: Composite) -> bool {
    exists|i: int| 0 <= i < c.vals@.len() && (#[trigger] c.vals@[i]).0 is Some
}

/// Whether some field description is named.
pub open spec fn has_named_field(fs: Seq<Field>) -> bool {
    exists|k: int| 0 <= k < fs.len() && (#[trigger] fs[k]).name is Some
}

/// The last of the first `k` entries whose key is `name`: an unnamed entry
/// is keyed by the empty string.
pub open spec fn last_entry_named(c: Composite, name: Seq<char>, k: int) -> Option<int>
    decreases k,
{
    if k <= 0 {
        None
    } else if key_of(c.vals@[k - 1].0) == name {
        Some(k - 1)
    } else {
        last_entry_named(c, name, k - 1)
    }
}

/// The first variant from position `k` on whose name is `name`.
pub open spec fn first_variant_named(vs: Seq<VariantDef>, name: Seq<char>, k: int) -> Option<int>
    decreases vs.len() - k,
{
    if k < 0 || k >= vs.len() {
        None
    } else if vs[k].name@ == name {
        Some(k)
    } else {
        first_variant_named(vs, name, k + 1)
    }
}

/// Whether a single source entry is encoded directly into the target rather
/// than matched against the resolved shape `d`.
pub open spec fn retries_inner(d: TypeDef, c: Composite) -> bool {
    match d {
        TypeDef::Composite(_) => !has_named_entry(c),
        _ => true,
    }
}

pub proof fn lemma_last_entry_named(c: Composite, name: Seq<char>, k: int)
    requires
        k <= c.vals@.len(),
    ensures
        last_entry_named(c, name, k) matches Some(i) ==> 0 <= i < k && key_of(c.vals@[i].0)
            == name,
        last_entry_named(c, name, k) is None ==> forall|i: int|
            0 <= i < k ==> key_of(#[trigger] c.vals@[i].0) != name,
    decreases k,
{
    if k > 0 {
        lemma_last_entry_named(c, name, k - 1);
    }
}

pub proof fn lemma_first_variant_named(vs: Seq<VariantDef>, name: Seq<char>, k: int)
    requires
        0 <= k,
    ensures
        first_variant_named(vs, name, k) matches Some(i) ==> k <= i < vs.len() && vs[i].name@
            == name && forall|j: int| k <= j < i ==> (#[trigger] vs[j]).name@ != name,
        first_variant_named(vs, name, k) is None ==> forall|j: int|
            k <= j < vs.len() ==> (#[trigger] vs[j]).name@ != name,
    decreases vs.len() - k,
{
    if k < vs.len() {
        lemma_first_variant_named(vs, name, k + 1);
    }
}

pub proof fn lemma_item_smaller(v: Value, i: int)
    requires
        0 <= i < seq_len(v),
    ensures
        decreases_to!(v => seq_item(v, i)),
{
    match v {
        Value::Sequence(items) => {
            assert(decreases_to!(items => items@));
            assert(decreases_to!(items@ => items@[i]));
        },
        Value::StringMap(c) => {
            lemma_entry_smaller(c, i);
        },
        _ => {},
    }
}

pub proof fn lemma_entry_smaller(c: Composite, i: int)
    requires
        0 <= i < c.vals@.len(),
    ensures
        decreases_to!(c => c.vals@[i].1.val),
{
    let e = c.vals@[i];
    assert(decreases_to!(c.vals => c.vals@));
    assert(decreases_to!(c.vals@ => e));
    assert(decreases_to!(e => e.1));
    assert(decreases_to!(e.1 => e.1.val));
}

/// Encoding the value `v` into type `tid`.
pub open spec fn enc_value(types: Seq<TypeDef>, v: Value, tid: u32) -> Outcome
    decreases v, depth(types, tid) + 2, 0int,
    when acyclic(types)
{
    match v {
        Value::Bool(b) => enc_bool(types, b, tid),
        Value::Char(c) => enc_number(types, c as u32 as int, tid),
        Value::Str(s) => enc_str(types, s@, tid),
        Value::UInt(n) => enc_number(types, n as int, tid),
        Value::Int(n) => enc_number(types, n as int, tid),
        Value::Sequence(_) => enc_seq(types, v, tid),
        Value::Composite(c) => enc_composite(types, c, tid),
        Value::Variant(var) => enc_variant(types, var.name@, var.fields, tid),
        Value::StringMap(c) => match lookup(types, tid) {
            Some(TypeDef::Array(_, _)) => enc_seq(types, v, tid),
            Some(TypeDef::Sequence(_)) => enc_seq(types, v, tid),
            _ => enc_composite(types, c, tid),
        },
        Value::Bits(bits) => enc_bits(types, bits@, tid),
    }
}

/// Encoding the elements of a sequence or map value into type `tid`.
pub open spec fn enc_seq(types: Seq<TypeDef>, v: Value, tid: u32) -> Outcome
    decreases v, depth(types, tid) + 1, 0int,
    when acyclic(types)
{
    let n = seq_len(v);
    match lookup(types, tid) {
        None => fail(ErrorKindView::TypeNotFound(tid)),
        Some(TypeDef::Array(e, len)) => if len == n {
            enc_items(types, v, e, 0)
        } else {
            fail(ErrorKindView::WrongLength(n, len as nat))
        },
        Some(TypeDef::Sequence(e)) => prepend(compact_bytes(n), enc_items(types, v, e, 0)),
        Some(TypeDef::Tuple(ids)) => if ids@.len() == 1 {
            proof {
                lemma_depth_tuple_member(types, tid, 0);
            }
            enc_seq(types, v, ids@[0])
        } else {
            fail(ErrorKindView::WrongShape(Kind::Array, tid))
        },
        Some(TypeDef::Composite(fs)) => if fs@.len() == 1 {
            proof {
                lemma_depth_composite_field(types, tid, 0);
            }
            enc_seq(types, v, fs@[0].id)
        } else {
            fail(ErrorKindView::WrongShape(Kind::Array, tid))
        },
        _ => fail(ErrorKindView::WrongShape(Kind::Array, tid)),
    }
}

/// Encoding the elements from position `i` on, each into type `e`.
pub open spec fn enc_items(types: Seq<TypeDef>, v: Value, e: u32, i: nat) -> Outcome
    decreases v, 0int, seq_len(v) - i,
    when acyclic(types)
{
    if i >= seq_len(v) {
        Ok(Seq::empty())
    } else {
        proof {
            lemma_item_smaller(v, i as int);
        }
        match tag(enc_value(types, seq_item(v, i as int), e), LocationView::Idx(i)) {
            Err(er) => Err(er),
            Ok(b) => prepend(b, enc_items(types, v, e, i + 1)),
        }
    }
}

/// Encoding a composite value into type `tid`.
pub open spec fn enc_composite(types: Seq<TypeDef>, c: Composite, tid: u32) -> Outcome
    decreases c, depth(types, tid) + 1, 0int,
    when acyclic(types)
{
    let n = c.vals@.len();
    let nid = skip_unnamed(types, tid);
    match lookup(types, nid) {
        None => fail(ErrorKindView::TypeNotFound(nid)),
        Some(d) => if n == 1 && retries_inner(d, c) {
            proof {
                lemma_entry_smaller(c, 0);
            }
            tag(enc_value(types, c.vals@[0].1.val, tid), entry_loc(c, 0))
        } else {
            match d {
                TypeDef::Tuple(ids) => enc_positional(types, c, ids@),
                TypeDef::Array(e, len) => if len == n {
                    enc_positional(types, c, Seq::new(len as nat, |i: int| e))
                } else {
                    fail(ErrorKindView::WrongShape(Kind::Tuple, nid))
                },
                TypeDef::Sequence(e) => prepend(
                    compact_bytes(n),
                    enc_positional(types, c, Seq::new(n, |i: int| e)),
                ),
                TypeDef::Composite(fs) => enc_fields(types, c, fs@),
                _ => fail(ErrorKindView::WrongShape(Kind::Tuple, nid)),
            }
        },
    }
}

/// Encoding the entries of a composite into the given fields: by name when
/// both sides name some of their fields, else by position.
pub open spec fn enc_fields(types: Seq<TypeDef>, c: Composite, fs: Seq<Field>) -> Outcome
    decreases c, 0int, fs.len() + 2,
    when acyclic(types)
{
    if has_named_field(fs) && has_named_entry(c) {
        enc_named(types, c, fs, 0)
    } else {
        enc_positional(types, c, fs.map_values(|f: Field| f.id))
    }
}

/// Encoding the entries of a composite by position into the types `ids`,
/// which must be as many as the entries.
pub open spec fn enc_positional(types: Seq<TypeDef>, c: Composite, ids: Seq<u32>) -> Outcome
    decreases c, 0int, ids.len() + 1,
    when acyclic(types)
{
    if ids.len() != c.vals@.len() {
        fail(ErrorKindView::WrongLength(c.vals@.len(), ids.len()))
    } else {
        enc_entries(types, c, ids, 0)
    }
}

/// Encoding entry `i` on of a composite, each into the type at its position
/// in `ids`.
pub open spec fn enc_entries(types: Seq<TypeDef>, c: Composite, ids: Seq<u32>, i: nat) -> Outcome
    decreases c, 0int, ids.len() - i,
    when acyclic(types)
{
    if i >= ids.len() || i >= c.vals@.len() {
        Ok(Seq::empty())
    } else {
        proof {
            lemma_entry_smaller(c, i as int);
        }
        match tag(enc_value(types, c.vals@[i as int].1.val, ids[i as int]), entry_loc(c, i as int)) {
            Err(e) => Err(e),
            Ok(b) => prepend(b, enc_entries(types, c, ids, i + 1)),
        }
    }
}

/// Encoding the fields `fs` from position `j` on, each from the last source
/// entry with the field's name.
pub open spec fn enc_named(types: Seq<TypeDef>, c: Composite, fs: Seq<Field>, j: nat) -> Outcome
    decreases c, 0int, fs.len() - j,
    when acyclic(types)
{
    if j >= fs.len() {
        Ok(Seq::empty())
    } else {
        let name = key_of(fs[j as int].name);
        match last_entry_named(c, name, c.vals@.len() as int) {
            None => fail(ErrorKindView::CannotFindField(name)),
            Some(k) => {
                proof {
                    lemma_last_entry_named(c, name, c.vals@.len() as int);
                    lemma_entry_smaller(c, k);
                }
                match tag(enc_value(types, c.vals@[k].1.val, fs[j as int].id), LocationView::Field(name)) {
                    Err(e) => Err(e),
                    Ok(b) => prepend(b, enc_named(types, c, fs, j + 1)),
                }
            },
        }
    }
}

/// Encoding the variant `name` with fields `c` into type `tid`: the tag byte
/// of the first target variant with that name, then the fields.
pub open spec fn enc_variant(types: Seq<TypeDef>, name: Seq<char>, c: Composite, tid: u32) -> Outcome
    decreases c, depth(types, tid) + 1, 0int,
    when acyclic(types)
{
    let nid = normalize(types, tid);
    match lookup(types, nid) {
        None => fail(ErrorKindView::TypeNotFound(nid)),
        Some(TypeDef::Variant(vs)) => match first_variant_named(vs@, name, 0) {
            None => fail(ErrorKindView::CannotFindVariant(name, nid)),
            Some(k) => prepend(seq![vs@[k].index], enc_fields(types, c, vs@[k].fields@)),
        },
        _ => fail(ErrorKindView::WrongShape(Kind::Str, nid)),
    }
}

/// A call that writes to an output buffer met the expected outcome: on
/// success it appended exactly the expected bytes; on failure it returned the
/// expected error and appended exactly the bytes written before it.
pub open spec fn produced(r: Result<(), Error>, before: Seq<u8>, after: Seq<u8>, expect: Outcome) -> bool {
    match expect {
        Ok(b) => r is Ok && after == before + b,
        Err((p, e)) => r matches Err(x) && x@ == e && after == before + p,
    }
}

/// A call that returns its output met the expected outcome.
pub open spec fn returned(r: Result<Vec<u8>, Error>, expect: Outcome) -> bool {
    match expect {
        Ok(b) => r matches Ok(x) && x@ == b,
        Err((_, e)) => r matches Err(x) && x@ == e,
    }
}

/// The number that a numeric or character value stands for.
pub open spec fn number_of(v: Value) -> int {
    match v {
        Value::UInt(n) => n as int,
        Value::Int(n) => n as int,
        Value::Char(c) => c as u32 as int,
        _ => 0,
    }
}

pub proof fn lemma_prepend_prepend(a: Seq<u8>, b: Seq<u8>, r: Outcome)
    ensures
        prepend(a, prepend(b, r)) == prepend(a + b, r),
{
    match r {
        Ok(x) => assert(a + (b + x) =~= (a + b) + x),
        Err((p, _)) => assert(a + (b + p) =~= (a + b) + p),
    }
}

} // verus!
