//! The encoder: values written into the byte shape of a target type.
use crate::error::{Error, ErrorKind, Kind, Location};
use crate::format::{
    append, bits_of, compact_of, i128_text, pow256, push_le, twos_complement, u128_text,
};
use crate::model::{
    enc_bits, enc_bool, enc_composite, enc_fields, enc_items, enc_number, enc_positional, enc_seq,
    enc_str, enc_value, enc_variant, entry_loc, first_variant_named, has_named_entry,
    has_named_field, last_entry_named, lemma_entry_smaller, lemma_item_smaller, prepend, fits, is_unsigned, is_signed, int_width, lemma_prepend_prepend, Outcome, normalize, number_of, produced,
    returned, seq_item, seq_len, skip_unnamed,
};
use crate::registry::{
    acyclic, depth, key_of, lemma_depth_child, lemma_depth_composite_field, lemma_depth_tuple_member,
    Field, Primitive, Registry, TypeDef,
};
use crate::value::{Composite, CompositeField, Value, Variant};
use vstd::prelude::*;

verus! {

/// The innermost type with the same byte representation as `type_id`:
/// tuples of one member, composites of one field and arrays of length one
/// are passed through. A type that cannot be resolved is returned as it is.
pub fn find_single_entry_with_same_repr(type_id: u32, types: &Registry) -> (r: u32)
    ensures
        r == normalize(types@, type_id),
    decreases depth(types@, type_id),
{
    proof {
        use_type_invariant(types);
        types.lemma_acyclic();
    }
    match types.resolve(type_id) {
        Some(TypeDef::Tuple(ids)) => if ids.len() == 1 {
            proof {
                lemma_depth_tuple_member(types@, type_id, 0);
            }
            find_single_entry_with_same_repr(ids[0], types)
        } else {
            type_id
        },
        Some(TypeDef::Composite(fs)) => if fs.len() == 1 {
            proof {
                lemma_depth_composite_field(types@, type_id, 0);
            }
            find_single_entry_with_same_repr(fs[0].id, types)
        } else {
            type_id
        },
        Some(TypeDef::Array(e, n)) => if *n == 1 {
            proof {
                lemma_depth_child(types@, type_id, *e);
            }
            find_single_entry_with_same_repr(*e, types)
        } else {
            type_id
        },
        _ => type_id,
    }
}

/// The innermost type reached through tuples of one member and composites of
/// one unnamed field. A composite whose one field is named is kept, since a
/// named source field may still line up with it; an array is kept as it is.
pub fn skip_through_single_unnamed_fields(type_id: u32, types: &Registry) -> (r: u32)
    ensures
        r == skip_unnamed(types@, type_id),
    decreases depth(types@, type_id),
{
    proof {
        use_type_invariant(types);
        types.lemma_acyclic();
    }
    match types.resolve(type_id) {
        Some(TypeDef::Tuple(ids)) => if ids.len() == 1 {
            proof {
                lemma_depth_tuple_member(types@, type_id, 0);
            }
            skip_through_single_unnamed_fields(ids[0], types)
        } else {
            type_id
        },
        Some(TypeDef::Composite(fs)) => if fs.len() == 1 && fs[0].name.is_none() {
            proof {
                lemma_depth_composite_field(types@, type_id, 0);
            }
            skip_through_single_unnamed_fields(fs[0].id, types)
        } else {
            type_id
        },
        _ => type_id,
    }
}

proof fn lemma_pow256_values()
    ensures
        pow256(1) == 0x100int,
        pow256(2) == 0x1_0000int,
        pow256(4) == 0x1_0000_0000int,
        pow256(8) == 0x1_0000_0000_0000_0000int,
        pow256(16) == 0x1_0000_0000_0000_0000_0000_0000_0000_0000int,
{
    reveal_with_fuel(pow256, 17);
}

/// The layout of an integer primitive: its width in bytes, the largest
/// number it holds, the magnitude of the smallest, and the largest unsigned
/// number of its width.
fn int_bounds(p: Primitive) -> (r: Option<(usize, u128, u128, u128)>)
    ensures
        r is Some <==> is_unsigned(p) || is_signed(p),
        r matches Some((w, max_pos, max_neg, max_all)) ==> {
            &&& w == int_width(p)
            &&& w <= 16
            &&& max_all + 1 == pow256(w as nat)
            &&& forall|n: int|
                #![trigger fits(n, p)]
                fits(n, p) <==> if n < 0 {
                    -n <= max_neg
                } else {
                    n <= max_pos
                }
        },
{
    proof {
        lemma_pow256_values();
    }
    match p {
        Primitive::U8 => Some((1, 0xff, 0, 0xff)),
        Primitive::U16 => Some((2, 0xffff, 0, 0xffff)),
        Primitive::U32 => Some((4, 0xffff_ffff, 0, 0xffff_ffff)),
        Primitive::U64 => Some((8, 0xffff_ffff_ffff_ffff, 0, 0xffff_ffff_ffff_ffff)),
        Primitive::U128 => Some((16, u128::MAX, 0, u128::MAX)),
        Primitive::I8 => Some((1, 0x7f, 0x80, 0xff)),
        Primitive::I16 => Some((2, 0x7fff, 0x8000, 0xffff)),
        Primitive::I32 => Some((4, 0x7fff_ffff, 0x8000_0000, 0xffff_ffff)),
        Primitive::I64 => Some(
            (8, 0x7fff_ffff_ffff_ffff, 0x8000_0000_0000_0000, 0xffff_ffff_ffff_ffff),
        ),
        Primitive::I128 => Some(
            (
                16,
                0x7fff_ffff_ffff_ffff_ffff_ffff_ffff_ffff,
                0x8000_0000_0000_0000_0000_0000_0000_0000,
                u128::MAX,
            ),
        ),
        _ => None,
    }
}

/// The sign and magnitude of a numeric or character value.
fn number_parts(v: &Value) -> (r: (bool, u128))
    requires
        v is UInt || v is Int || v is Char,
    ensures
        number_of(*v) == if r.0 {
            -(r.1 as int)
        } else {
            r.1 as int
        },
        r.0 ==> r.1 > 0,
{
    match v {
        Value::UInt(n) => (false, *n),
        Value::Int(n) => if *n < 0 {
            if *n == i128::MIN {
                (true, 0x8000_0000_0000_0000_0000_0000_0000_0000u128)
            } else {
                (true, (-*n) as u128)
            }
        } else {
            (false, *n as u128)
        },
        Value::Char(c) => (false, *c as u32 as u128),
        _ => (false, 0),
    }
}

/// A numeric or character value in decimal.
fn number_text(v: &Value) -> (r: String)
    requires
        v is UInt || v is Int || v is Char,
    ensures
        r@ == crate::format::decimal(number_of(*v)),
{
    match v {
        Value::UInt(n) => u128_text(*n),
        Value::Int(n) => i128_text(*n),
        Value::Char(c) => u128_text(*c as u32 as u128),
        _ => u128_text(0),
    }
}

fn number_out_of_range(v: &Value, expected_id: u32) -> (r: Error)
    requires
        v is UInt || v is Int || v is Char,
    ensures
        r@ == crate::error::ErrorView::fresh(
            crate::error::ErrorKindView::NumberOutOfRange(
                crate::format::decimal(number_of(*v)),
                expected_id,
            ),
        ),
{
    Error::new(ErrorKind::NumberOutOfRange { value: number_text(v), expected_id })
}

fn wrong_shape(actual: Kind, expected_id: u32) -> (r: Error)
    ensures
        r@ == crate::error::ErrorView::fresh(
            crate::error::ErrorKindView::WrongShape(actual, expected_id),
        ),
{
    Error::new(ErrorKind::WrongShape { actual, expected_id })
}

fn type_not_found(id: u32) -> (r: Error)
    ensures
        r@ == crate::error::ErrorView::fresh(crate::error::ErrorKindView::TypeNotFound(id)),
{
    Error::new(ErrorKind::TypeNotFound(id))
}

/// Encode a numeric or character value into type `type_id`.
fn encode_number_to(v: &Value, type_id: u32, types: &Registry, out: &mut Vec<u8>) -> (r: Result<
    (),
    Error,
>)
    requires
        v is UInt || v is Int || v is Char,
    ensures
        produced(r, old(out)@, final(out)@, enc_number(types@, number_of(*v), type_id)),
{
    proof {
        use_type_invariant(types);
        types.lemma_acyclic();
    }
    proof {
        assert(old(out)@ =~= old(out)@ + Seq::<u8>::empty());
    }
    let nid = find_single_entry_with_same_repr(type_id, types);
    let (neg, mag) = number_parts(v);
    let ghost n = number_of(*v);
    match types.resolve(nid) {
        None => Err(type_not_found(nid)),
        Some(TypeDef::Primitive(p)) => match int_bounds(*p) {
            None => Err(wrong_shape(Kind::Number, nid)),
            Some((w, max_pos, max_neg, max_all)) => {
                let ok = if neg {
                    mag <= max_neg
                } else {
                    mag <= max_pos
                };
                assert(ok == fits(n, *p));
                if ok {
                    let u = if neg {
                        max_all - (mag - 1)
                    } else {
                        mag
                    };
                    assert(u == twos_complement(n, w as nat));
                    push_le(out, u, w);
                    Ok(())
                } else {
                    Err(number_out_of_range(v, nid))
                }
            },
        },
        Some(TypeDef::Compact(inner)) => {
            let iid = find_single_entry_with_same_repr(*inner, types);
            match types.resolve(iid) {
                None => Err(type_not_found(iid)),
                Some(TypeDef::Primitive(p)) => match int_bounds(*p) {
                    Some((w, max_pos, max_neg, max_all)) => {
                        if is_unsigned_exec(*p) {
                            let ok = if neg {
                                mag <= max_neg
                            } else {
                                mag <= max_pos
                            };
                            assert(ok == fits(n, *p));
                            if ok {
                                let bytes = compact_of(mag);
                                append(out, bytes.as_slice());
                                Ok(())
                            } else {
                                Err(number_out_of_range(v, iid))
                            }
                        } else {
                            Err(wrong_shape(Kind::Number, iid))
                        }
                    },
                    None => Err(wrong_shape(Kind::Number, iid)),
                },
                _ => Err(wrong_shape(Kind::Number, iid)),
            }
        },
        _ => Err(wrong_shape(Kind::Number, nid)),
    }
}

fn is_unsigned_exec(p: Primitive) -> (r: bool)
    ensures
        r == is_unsigned(p),
{
    match p {
        Primitive::U8 | Primitive::U16 | Primitive::U32 | Primitive::U64 | Primitive::U128 => true,
        _ => false,
    }
}

/// Encode a boolean into type `type_id`.
fn encode_bool_to(b: bool, type_id: u32, types: &Registry, out: &mut Vec<u8>) -> (r: Result<
    (),
    Error,
>)
    ensures
        produced(r, old(out)@, final(out)@, enc_bool(types@, b, type_id)),
{
    proof {
        use_type_invariant(types);
        types.lemma_acyclic();
    }
    proof {
        assert(old(out)@ =~= old(out)@ + Seq::<u8>::empty());
    }
    let nid = find_single_entry_with_same_repr(type_id, types);
    match types.resolve(nid) {
        None => Err(type_not_found(nid)),
        Some(TypeDef::Primitive(Primitive::Bool)) => {
            let byte: u8 = if b {
                1
            } else {
                0
            };
            out.push(byte);
            assert(out@ =~= old(out)@ + seq![byte]);
            Ok(())
        },
        _ => Err(wrong_shape(Kind::Bool, nid)),
    }
}

/// Encode a string into type `type_id`.
fn encode_str_to(s: &String, type_id: u32, types: &Registry, out: &mut Vec<u8>) -> (r: Result<
    (),
    Error,
>)
    ensures
        produced(r, old(out)@, final(out)@, enc_str(types@, s@, type_id)),
{
    proof {
        use_type_invariant(types);
        types.lemma_acyclic();
    }
    proof {
        assert(old(out)@ =~= old(out)@ + Seq::<u8>::empty());
    }
    let nid = find_single_entry_with_same_repr(type_id, types);
    match types.resolve(nid) {
        None => Err(type_not_found(nid)),
        Some(TypeDef::Primitive(Primitive::Str)) => {
            let bytes = s.as_str().as_bytes();
            let prefix = compact_of(bytes.len() as u128);
            append(out, prefix.as_slice());
            append(out, bytes);
            assert(out@ =~= old(out)@ + (prefix@ + bytes@));
            Ok(())
        },
        _ => Err(wrong_shape(Kind::Str, nid)),
    }
}

/// Encode a bit sequence into type `type_id`.
fn encode_bits_to(bits: &Vec<bool>, type_id: u32, types: &Registry, out: &mut Vec<u8>) -> (r:
    Result<(), Error>)
    ensures
        produced(r, old(out)@, final(out)@, enc_bits(types@, bits@, type_id)),
{
    proof {
        use_type_invariant(types);
        types.lemma_acyclic();
    }
    proof {
        assert(old(out)@ =~= old(out)@ + Seq::<u8>::empty());
    }
    let nid = find_single_entry_with_same_repr(type_id, types);
    match types.resolve(nid) {
        None => Err(type_not_found(nid)),
        Some(TypeDef::BitSequence(store, order)) => {
            let bytes = bits_of(bits, *store, *order);
            append(out, bytes.as_slice());
            Ok(())
        },
        _ => Err(wrong_shape(Kind::BitSequence, nid)),
    }
}

fn seq_count(v: &Value) -> (r: usize)
    requires
        v is Sequence || v is StringMap,
    ensures
        r == seq_len(*v),
{
    match v {
        Value::Sequence(items) => items.len(),
        Value::StringMap(c) => c.vals.len(),
        _ => 0,
    }
}

fn seq_at(v: &Value, i: usize) -> (r: &Value)
    requires
        v is Sequence || v is StringMap,
        i < seq_len(*v),
    ensures
        *r == seq_item(*v, i as int),
{
    match v {
        Value::Sequence(items) => &items[i],
        Value::StringMap(c) => &c.vals[i].1.val,
        _ => v,
    }
}

fn has_named_entry_exec(c: &Composite) -> (r: bool)
    ensures
        r == has_named_entry(*c),
{
    let mut i: usize = 0;
    while i < c.vals.len()
        invariant
            i <= c.vals@.len(),
            forall|j: int| 0 <= j < i ==> (#[trigger] c.vals@[j]).0 is None,
        decreases c.vals@.len() - i,
    {
        if c.vals[i].0.is_some() {
            assert((c.vals@[i as int]).0 is Some);
            return true;
        }
        i = i + 1;
    }
    false
}

fn has_named_field_exec(fs: &Vec<Field>) -> (r: bool)
    ensures
        r == has_named_field(fs@),
{
    let mut i: usize = 0;
    while i < fs.len()
        invariant
            i <= fs@.len(),
            forall|j: int| 0 <= j < i ==> (#[trigger] fs@[j]).name is None,
        decreases fs@.len() - i,
    {
        if fs[i].name.is_some() {
            assert((fs@[i as int]).name is Some);
            return true;
        }
        i = i + 1;
    }
    false
}

fn entry_location(c: &Composite, i: usize) -> (r: Location)
    requires
        i < c.vals@.len(),
    ensures
        r@ == entry_loc(*c, i as int),
{
    match &c.vals[i].0 {
        Some(s) => Location::field(s.clone()),
        None => Location::idx(i),
    }
}

fn retries_inner_exec(d: &TypeDef, c: &Composite) -> (r: bool)
    ensures
        r == crate::model::retries_inner(*d, *c),
{
    match d {
        TypeDef::Composite(_) => !has_named_entry_exec(c),
        _ => true,
    }
}

fn field_key(f: &Field) -> (r: String)
    ensures
        r@ == key_of(f.name),
{
    match &f.name {
        Some(s) => s.clone(),
        None => String::new(),
    }
}

fn entry_has_key(name: &Option<String>, key: &String) -> (r: bool)
    ensures
        r == (key_of(*name) == key@),
{
    match name {
        Some(s) => *s == *key,
        None => {
            let e = key.as_str().is_empty();
            if e {
                assert(key@ =~= Seq::<char>::empty());
            }
            e
        },
    }
}

/// The last entry of `c` whose key is `name`.
fn find_entry(c: &Composite, name: &String) -> (r: Option<usize>)
    ensures
        r matches Some(k) ==> last_entry_named(*c, name@, c.vals@.len() as int) == Some(k as int),
        r is None ==> last_entry_named(*c, name@, c.vals@.len() as int) is None,
{
    let mut k = c.vals.len();
    while k > 0
        invariant
            k <= c.vals@.len(),
            last_entry_named(*c, name@, c.vals@.len() as int) == last_entry_named(
                *c,
                name@,
                k as int,
            ),
        decreases k,
    {
        if entry_has_key(&c.vals[k - 1].0, name) {
            return Some(k - 1);
        }
        k = k - 1;
    }
    None
}

/// The first variant of `vs` named `name`.
fn find_variant(vs: &Vec<crate::registry::VariantDef>, name: &String) -> (r: Option<usize>)
    ensures
        r matches Some(k) ==> first_variant_named(vs@, name@, 0) == Some(k as int),
        r is None ==> first_variant_named(vs@, name@, 0) is None,
{
    let mut k: usize = 0;
    while k < vs.len()
        invariant
            k <= vs@.len(),
            first_variant_named(vs@, name@, 0) == first_variant_named(vs@, name@, k as int),
        decreases vs@.len() - k,
    {
        if vs[k].name == *name {
            return Some(k);
        }
        k = k + 1;
    }
    None
}

fn field_ids(fs: &Vec<Field>) -> (r: Vec<u32>)
    ensures
        r@ == fs@.map_values(|f: Field| f.id),
{
    let mut ids: Vec<u32> = Vec::new();
    let mut i: usize = 0;
    while i < fs.len()
        invariant
            i <= fs@.len(),
            ids@ =~= fs@.subrange(0, i as int).map_values(|f: Field| f.id),
        decreases fs@.len() - i,
    {
        ids.push(fs[i].id);
        i = i + 1;
        assert(ids@ =~= fs@.subrange(0, i as int).map_values(|f: Field| f.id));
    }
    assert(fs@.subrange(0, i as int) =~= fs@);
    ids
}

fn repeat_id(e: u32, n: usize) -> (r: Vec<u32>)
    ensures
        r@ == Seq::new(n as nat, |i: int| e),
{
    let mut ids: Vec<u32> = Vec::new();
    let mut i: usize = 0;
    while i < n
        invariant
            i <= n,
            ids@ =~= Seq::new(i as nat, |j: int| e),
        decreases n - i,
    {
        ids.push(e);
        i = i + 1;
        assert(ids@ =~= Seq::new(i as nat, |j: int| e));
    }
    ids
}

proof fn lemma_prepend_empty(r: Outcome)
    ensures
        prepend(Seq::empty(), r) == r,
{
    match r {
        Ok(x) => assert(Seq::<u8>::empty() + x =~= x),
        Err((p, _)) => assert(Seq::<u8>::empty() + p =~= p),
    }
}

/// Encode the elements of a sequence or map value, each into type `e`.
fn encode_items_to(v: &Value, e: u32, types: &Registry, out: &mut Vec<u8>) -> (r: Result<
    (),
    Error,
>)
    requires
        v is Sequence || v is StringMap,
    ensures
        produced(r, old(out)@, final(out)@, enc_items(types@, *v, e, 0)),
    decreases *v, 0int, seq_len(*v) + 1,
{
    proof {
        use_type_invariant(types);
        types.lemma_acyclic();
    }
    let n = seq_count(v);
    let mut i: usize = 0;
    let ghost mut acc: Seq<u8> = Seq::empty();
    proof {
        lemma_prepend_empty(enc_items(types@, *v, e, 0));
        assert(out@ =~= old(out)@ + acc);
    }
    while i < n
        invariant
            acyclic(types@),
            v is Sequence || v is StringMap,
            i <= n,
            n == seq_len(*v),
            out@ == old(out)@ + acc,
            enc_items(types@, *v, e, 0) == prepend(acc, enc_items(types@, *v, e, i as nat)),
        decreases n - i,
    {
        let item = seq_at(v, i);
        proof {
            lemma_item_smaller(*v, i as int);
        }
        match item.encode_as_type_to(e, types, out) {
            Err(er) => {
                proof {
                    let p = enc_value(types@, *item, e)->Err_0.0;
                    assert(out@ =~= old(out)@ + (acc + p));
                }
                return Err(er.at_idx(i));
            },
            Ok(()) => {},
        }
        proof {
            let b = enc_value(types@, *item, e)->Ok_0;
            lemma_prepend_prepend(acc, b, enc_items(types@, *v, e, (i + 1) as nat));
            acc = acc + b;
            assert(out@ =~= old(out)@ + acc);
        }
        i = i + 1;
    }
    proof {
        assert(acc + Seq::<u8>::empty() =~= acc);
    }
    Ok(())
}

/// Encode the elements of a sequence or map value into type `type_id`.
fn encode_seq_to(v: &Value, type_id: u32, types: &Registry, out: &mut Vec<u8>) -> (r: Result<
    (),
    Error,
>)
    requires
        v is Sequence || v is StringMap,
    ensures
        produced(r, old(out)@, final(out)@, enc_seq(types@, *v, type_id)),
    decreases *v, depth(types@, type_id) + 1, 0int,
{
    proof {
        use_type_invariant(types);
        types.lemma_acyclic();
    }
    proof {
        assert(old(out)@ =~= old(out)@ + Seq::<u8>::empty());
    }
    let n = seq_count(v);
    match types.resolve(type_id) {
        None => Err(type_not_found(type_id)),
        Some(TypeDef::Array(e, len)) => if (*len as usize) == n {
            encode_items_to(v, *e, types, out)
        } else {
            Err(Error::new(ErrorKind::WrongLength { actual_len: n, expected_len: *len as usize }))
        },
        Some(TypeDef::Sequence(e)) => {
            let prefix = compact_of(n as u128);
            append(out, prefix.as_slice());
            let r = encode_items_to(v, *e, types, out);
            proof {
                match enc_items(types@, *v, *e, 0) {
                    Ok(b) => assert(out@ =~= old(out)@ + (prefix@ + b)),
                    Err((p, _)) => assert(out@ =~= old(out)@ + (prefix@ + p)),
                }
            }
            r
        },
        Some(TypeDef::Tuple(ids)) => if ids.len() == 1 {
            proof {
                lemma_depth_tuple_member(types@, type_id, 0);
            }
            encode_seq_to(v, ids[0], types, out)
        } else {
            Err(wrong_shape(Kind::Array, type_id))
        },
        Some(TypeDef::Composite(fs)) => if fs.len() == 1 {
            proof {
                lemma_depth_composite_field(types@, type_id, 0);
            }
            encode_seq_to(v, fs[0].id, types, out)
        } else {
            Err(wrong_shape(Kind::Array, type_id))
        },
        _ => Err(wrong_shape(Kind::Array, type_id)),
    }
}

impl Value {
    /// Encode this value into type `type_id` of `types`, appending the bytes
    /// to `out`.
    pub fn encode_as_type_to(&self, type_id: u32, types: &Registry, out: &mut Vec<u8>) -> (r:
        Result<(), Error>)
        ensures
            produced(r, old(out)@, final(out)@, enc_value(types@, *self, type_id)),
        decreases *self, depth(types@, type_id) + 2, 0int,
    {
        proof {
            use_type_invariant(types);
            types.lemma_acyclic();
        }
        match self {
            Value::Bool(b) => encode_bool_to(*b, type_id, types, out),
            Value::Char(_) => encode_number_to(self, type_id, types, out),
            Value::UInt(_) => encode_number_to(self, type_id, types, out),
            Value::Int(_) => encode_number_to(self, type_id, types, out),
            Value::Str(s) => encode_str_to(s, type_id, types, out),
            Value::Sequence(_) => encode_seq_to(self, type_id, types, out),
            Value::Composite(c) => c.encode_composite_as_type_to(type_id, types, out),
            Value::Variant(var) => var.encode_variant_as_type_to(type_id, types, out),
            Value::StringMap(c) => match types.resolve(type_id) {
                Some(TypeDef::Array(_, _)) => encode_seq_to(self, type_id, types, out),
                Some(TypeDef::Sequence(_)) => encode_seq_to(self, type_id, types, out),
                _ => c.encode_composite_as_type_to(type_id, types, out),
            },
            Value::Bits(bits) => encode_bits_to(bits, type_id, types, out),
        }
    }

    /// Encode this value into type `type_id` of `types`.
    pub fn encode_as_type(&self, type_id: u32, types: &Registry) -> (r: Result<Vec<u8>, Error>)
        ensures
            returned(r, enc_value(types@, *self, type_id)),
    {
        proof {
            use_type_invariant(types);
            types.lemma_acyclic();
        }
        let mut out: Vec<u8> = Vec::new();
        match self.encode_as_type_to(type_id, types, &mut out) {
            Ok(()) => {
                assert(out@ =~= Seq::<u8>::empty() + out@);
                Ok(out)
            },
            Err(e) => Err(e),
        }
    }
}

impl CompositeField {
    /// Encode the field's value into type `type_id` of `types`, appending the
    /// bytes to `out`.
    pub fn encode_composite_field_to(&self, type_id: u32, types: &Registry, out: &mut Vec<u8>) -> (r:
        Result<(), Error>)
        ensures
            produced(r, old(out)@, final(out)@, enc_value(types@, self.val, type_id)),
    {
        proof {
            use_type_invariant(types);
            types.lemma_acyclic();
        }
        self.val.encode_as_type_to(type_id, types, out)
    }
}

impl Composite {
    /// Encode the entries by position, entry `i` into type `ids[i]`; there
    /// must be as many types as entries.
    fn encode_positional_to(&self, ids: &Vec<u32>, types: &Registry, out: &mut Vec<u8>) -> (r:
        Result<(), Error>)
        ensures
            produced(r, old(out)@, final(out)@, enc_positional(types@, *self, ids@)),
        decreases *self, 0int, 1int,
    {
        proof {
            use_type_invariant(types);
            types.lemma_acyclic();
        }
        proof {
            assert(old(out)@ =~= old(out)@ + Seq::<u8>::empty());
        }
        let n = self.vals.len();
        if ids.len() != n {
            return Err(
                Error::new(ErrorKind::WrongLength { actual_len: n, expected_len: ids.len() }),
            );
        }
        let mut i: usize = 0;
        let ghost mut acc: Seq<u8> = Seq::empty();
        proof {
            lemma_prepend_empty(enc_positional(types@, *self, ids@));
            assert(out@ =~= old(out)@ + acc);
        }
        while i < n
            invariant
                acyclic(types@),
                i <= n,
                n == self.vals@.len(),
                n == ids@.len(),
                out@ == old(out)@ + acc,
                enc_positional(types@, *self, ids@) == prepend(
                    acc,
                    crate::model::enc_entries(types@, *self, ids@, i as nat),
                ),
            decreases n - i,
        {
            proof {
                lemma_entry_smaller(*self, i as int);
            }
            match self.vals[i].1.val.encode_as_type_to(ids[i], types, out) {
                Err(er) => {
                    proof {
                        let p = enc_value(types@, self.vals@[i as int].1.val, ids@[i as int])->Err_0.0;
                        assert(out@ =~= old(out)@ + (acc + p));
                    }
                    return Err(er.at(entry_location(self, i)));
                },
                Ok(()) => {},
            }
            proof {
                let b = enc_value(types@, self.vals@[i as int].1.val, ids@[i as int])->Ok_0;
                lemma_prepend_prepend(
                    acc,
                    b,
                    crate::model::enc_entries(types@, *self, ids@, (i + 1) as nat),
                );
                acc = acc + b;
                assert(out@ =~= old(out)@ + acc);
            }
            i = i + 1;
        }
        proof {
            assert(acc + Seq::<u8>::empty() =~= acc);
        }
        Ok(())
    }

    /// Encode the entries into the given fields: by name when both the
    /// fields and the entries have names, else by position, appending the
    /// bytes to `out`.
    pub fn encode_composite_fields_to(&self, fields: &Vec<Field>, types: &Registry, out: &mut Vec<
        u8,
    >) -> (r: Result<(), Error>)
        ensures
            produced(r, old(out)@, final(out)@, enc_fields(types@, *self, fields@)),
        decreases *self, 0int, 2int,
    {
        proof {
            use_type_invariant(types);
            types.lemma_acyclic();
        }
        proof {
            assert(old(out)@ =~= old(out)@ + Seq::<u8>::empty());
        }
        if !(has_named_field_exec(fields) && has_named_entry_exec(self)) {
            let ids = field_ids(fields);
            return self.encode_positional_to(&ids, types, out);
        }
        let mut j: usize = 0;
        let ghost mut acc: Seq<u8> = Seq::empty();
        proof {
            lemma_prepend_empty(enc_fields(types@, *self, fields@));
            assert(out@ =~= old(out)@ + acc);
        }
        while j < fields.len()
            invariant
                acyclic(types@),
                j <= fields@.len(),
                out@ == old(out)@ + acc,
                enc_fields(types@, *self, fields@) == prepend(
                    acc,
                    crate::model::enc_named(types@, *self, fields@, j as nat),
                ),
            decreases fields@.len() - j,
        {
            let name = field_key(&fields[j]);
            let found = find_entry(self, &name);
            proof {
                crate::model::lemma_last_entry_named(*self, name@, self.vals@.len() as int);
            }
            match found {
                None => {
                    proof {
                        assert(out@ =~= old(out)@ + (acc + Seq::<u8>::empty()));
                    }
                    return Err(Error::new(ErrorKind::CannotFindField { name }));
                },
                Some(k) => {
                    proof {
                        lemma_entry_smaller(*self, k as int);
                    }
                    match self.vals[k].1.val.encode_as_type_to(fields[j].id, types, out) {
                        Err(er) => {
                            proof {
                                let p = enc_value(
                                    types@,
                                    self.vals@[k as int].1.val,
                                    fields@[j as int].id,
                                )->Err_0.0;
                                assert(out@ =~= old(out)@ + (acc + p));
                            }
                            return Err(er.at_field(name));
                        },
                        Ok(()) => {},
                    }
                    proof {
                        let b = enc_value(
                            types@,
                            self.vals@[k as int].1.val,
                            fields@[j as int].id,
                        )->Ok_0;
                        lemma_prepend_prepend(
                            acc,
                            b,
                            crate::model::enc_named(types@, *self, fields@, (j + 1) as nat),
                        );
                        acc = acc + b;
                        assert(out@ =~= old(out)@ + acc);
                    }
                },
            }
            j = j + 1;
        }
        proof {
            assert(acc + Seq::<u8>::empty() =~= acc);
        }
        Ok(())
    }

    /// Encode the entries into the given fields, returning the bytes.
    pub fn encode_composite_fields(&self, fields: &Vec<Field>, types: &Registry) -> (r: Result<
        Vec<u8>,
        Error,
    >)
        ensures
            returned(r, enc_fields(types@, *self, fields@)),
    {
        proof {
            use_type_invariant(types);
            types.lemma_acyclic();
        }
        let mut out: Vec<u8> = Vec::new();
        match self.encode_composite_fields_to(fields, types, &mut out) {
            Ok(()) => {
                assert(out@ =~= Seq::<u8>::empty() + out@);
                Ok(out)
            },
            Err(e) => Err(e),
        }
    }

    /// Encode this composite value into type `type_id` of `types`, appending
    /// the bytes to `out`.
    pub fn encode_composite_as_type_to(&self, type_id: u32, types: &Registry, out: &mut Vec<u8>) -> (r:
        Result<(), Error>)
        ensures
            produced(r, old(out)@, final(out)@, enc_composite(types@, *self, type_id)),
        decreases *self, depth(types@, type_id) + 1, 0int,
    {
        proof {
            use_type_invariant(types);
            types.lemma_acyclic();
        }
        proof {
            assert(old(out)@ =~= old(out)@ + Seq::<u8>::empty());
        }
        let n = self.vals.len();
        let nid = skip_through_single_unnamed_fields(type_id, types);
        match types.resolve(nid) {
            None => Err(type_not_found(nid)),
            Some(d) => {
                if n == 1 && retries_inner_exec(d, self) {
                    proof {
                        lemma_entry_smaller(*self, 0);
                    }
                    match self.vals[0].1.val.encode_as_type_to(type_id, types, out) {
                        Ok(()) => Ok(()),
                        Err(e) => Err(e.at(entry_location(self, 0))),
                    }
                } else {
                    match d {
                        TypeDef::Tuple(ids) => self.encode_positional_to(ids, types, out),
                        TypeDef::Array(e, len) => {
                            if (*len as usize) != n {
                                Err(wrong_shape(Kind::Tuple, nid))
                            } else {
                                let ids = repeat_id(*e, n);
                                proof {
                                    assert(ids@ =~= Seq::new(*len as nat, |i: int| *e));
                                }
                                self.encode_positional_to(&ids, types, out)
                            }
                        },
                        TypeDef::Sequence(e) => {
                            let prefix = compact_of(n as u128);
                            append(out, prefix.as_slice());
                            let ids = repeat_id(*e, n);
                            let r = self.encode_positional_to(&ids, types, out);
                            proof {
                                match enc_positional(types@, *self, ids@) {
                                    Ok(b) => assert(out@ =~= old(out)@ + (prefix@ + b)),
                                    Err((p, _)) => assert(out@ =~= old(out)@ + (prefix@ + p)),
                                }
                            }
                            r
                        },
                        TypeDef::Composite(fs) => self.encode_composite_fields_to(fs, types, out),
                        _ => Err(wrong_shape(Kind::Tuple, nid)),
                    }
                }
            },
        }
    }

    /// Encode this composite value into type `type_id` of `types`, returning
    /// the bytes.
    pub fn encode_composite_as_type(&self, type_id: u32, types: &Registry) -> (r: Result<
        Vec<u8>,
        Error,
    >)
        ensures
            returned(r, enc_composite(types@, *self, type_id)),
    {
        proof {
            use_type_invariant(types);
            types.lemma_acyclic();
        }
        let mut out: Vec<u8> = Vec::new();
        match self.encode_composite_as_type_to(type_id, types, &mut out) {
            Ok(()) => {
                assert(out@ =~= Seq::<u8>::empty() + out@);
                Ok(out)
            },
            Err(e) => Err(e),
        }
    }
}

impl Variant {
    /// Encode this variant into type `type_id` of `types`, appending the
    /// bytes to `out`: the tag byte of the target's first variant with this
    /// name, then the fields.
    pub fn encode_variant_as_type_to(&self, type_id: u32, types: &Registry, out: &mut Vec<u8>) -> (r:
        Result<(), Error>)
        ensures
            produced(r, old(out)@, final(out)@, enc_variant(types@, self.name@, self.fields, type_id)),
        decreases self.fields, depth(types@, type_id) + 1, 0int,
    {
        proof {
            use_type_invariant(types);
            types.lemma_acyclic();
        }
        proof {
            assert(old(out)@ =~= old(out)@ + Seq::<u8>::empty());
        }
        let nid = find_single_entry_with_same_repr(type_id, types);
        match types.resolve(nid) {
            None => Err(type_not_found(nid)),
            Some(TypeDef::Variant(vs)) => match find_variant(vs, &self.name) {
                None => Err(
                    Error::new(
                        ErrorKind::CannotFindVariant { name: self.name.clone(), expected_id: nid },
                    ),
                ),
                Some(k) => {
                    proof {
                        crate::model::lemma_first_variant_named(vs@, self.name@, 0);
                    }
                    out.push(vs[k].index);
                    let ghost mid = out@;
                    let r = self.fields.encode_composite_fields_to(&vs[k].fields, types, out);
                    proof {
                        let tag_byte = seq![vs@[k as int].index];
                        assert(mid =~= old(out)@ + tag_byte);
                        match enc_fields(types@, self.fields, vs@[k as int].fields@) {
                            Ok(b) => assert(out@ =~= old(out)@ + (tag_byte + b)),
                            Err((p, _)) => assert(out@ =~= old(out)@ + (tag_byte + p)),
                        }
                    }
                    r
                },
            },
            _ => Err(wrong_shape(Kind::Str, nid)),
        }
    }

    /// Encode this variant into type `type_id` of `types`, returning the
    /// bytes.
    pub fn encode_variant_as_type(&self, type_id: u32, types: &Registry) -> (r: Result<
        Vec<u8>,
        Error,
    >)
        ensures
            returned(r, enc_variant(types@, self.name@, self.fields, type_id)),
    {
        proof {
            use_type_invariant(types);
            types.lemma_acyclic();
        }
        let mut out: Vec<u8> = Vec::new();
        match self.encode_variant_as_type_to(type_id, types, &mut out) {
            Ok(()) => {
                assert(out@ =~= Seq::<u8>::empty() + out@);
                Ok(out)
            },
            Err(e) => Err(e),
        }
    }
}

} // verus!
