//! The SCALE byte format of the leaves of a value: fixed-width little-endian
//! integers, compact integers, and decimal text for error messages.
use crate::registry::{BitsOrderFormat, BitsStoreFormat};
use parity_scale_codec::Encode;
use scale_type_resolver::{BitsOrderFormat as OrderFormat, BitsStoreFormat as StoreFormat};
use vstd::prelude::*;

verus! {

/// `256` to the power `w`.
pub open spec fn pow256(w: nat) -> nat
    decreases w,
{
    if w == 0 {
        1
    } else {
        256 * pow256((w - 1) as nat)
    }
}

/// The lowest `w` bytes of `n`, least significant first.
pub open spec fn le_bytes(n: nat, w: nat) -> Seq<u8>
    decreases w,
{
    if w == 0 {
        Seq::empty()
    } else {
        seq![(n % 256) as u8] + le_bytes(n / 256, (w - 1) as nat)
    }
}

/// The two's complement of `n` in `w` bytes, as an unsigned number.
pub open spec fn twos_complement(n: int, w: nat) -> nat {
    if n < 0 {
        (n + pow256(w)) as nat
    } else {
        n as nat
    }
}

/// The number of bytes needed to write `n` with no leading zero byte.
pub open spec fn byte_len(n: nat) -> nat
    decreases n,
{
    if n < 256 {
        1
    } else {
        1 + byte_len(n / 256)
    }
}

/// The compact encoding of `n`: one, two or four bytes holding `n` shifted
/// left by two with a mode in the low two bits, or for large numbers a length
/// byte followed by the number's significant bytes.
pub open spec fn compact_bytes(n: nat) -> Seq<u8> {
    if n < 0x40 {
        seq![(n * 4) as u8]
    } else if n < 0x4000 {
        le_bytes(n * 4 + 1, 2)
    } else if n < 0x4000_0000 {
        le_bytes(n * 4 + 2, 4)
    } else {
        seq![((byte_len(n) - 4) * 4 + 3) as u8] + le_bytes(n, byte_len(n))
    }
}

/// The decimal digit `d` as a character.
pub open spec fn digit_char(d: nat) -> char {
    if d == 0 {
        '0'
    } else if d == 1 {
        '1'
    } else if d == 2 {
        '2'
    } else if d == 3 {
        '3'
    } else if d == 4 {
        '4'
    } else if d == 5 {
        '5'
    } else if d == 6 {
        '6'
    } else if d == 7 {
        '7'
    } else if d == 8 {
        '8'
    } else {
        '9'
    }
}

/// The decimal digits of `n`, most significant first.
pub open spec fn digits(n: nat) -> Seq<char>
    decreases n,
{
    if n < 10 {
        seq![digit_char(n)]
    } else {
        digits(n / 10).push(digit_char(n % 10))
    }
}

/// `n` written in decimal, with a leading minus sign when negative.
pub open spec fn decimal(n: int) -> Seq<char> {
    if n < 0 {
        seq!['-'] + digits((-n) as nat)
    } else {
        digits(n as nat)
    }
}

/// The bit-packed encoding of a sequence of bits in the given store and order.
pub uninterp spec fn bits_encoded(
    bits: Seq<bool>,
    store: BitsStoreFormat,
    order: BitsOrderFormat,
) -> Seq<u8>;

/// Relies on parity_scale_codec's encoding of `Compact<u128>`.
#[verifier::external_body]
pub(crate) fn compact_of(n: u128) -> (r: Vec<u8>)
    ensures
        r@ == compact_bytes(n as nat),
{
    parity_scale_codec::Compact(n).encode()
}

/// Relies on scale_bits::encode_using_format, which packs the bits into
/// chunks of the given store type in the given order.
#[verifier::external_body]
pub(crate) fn bits_of(bits: &Vec<bool>, store: BitsStoreFormat, order: BitsOrderFormat) -> (r: Vec<
    u8,
>)
    ensures
        r@ == bits_encoded(bits@, store, order),
{
    let store = match store {
        BitsStoreFormat::U8 => StoreFormat::U8,
        BitsStoreFormat::U16 => StoreFormat::U16,
        BitsStoreFormat::U32 => StoreFormat::U32,
        BitsStoreFormat::U64 => StoreFormat::U64,
    };
    let order = match order {
        BitsOrderFormat::Lsb0 => OrderFormat::Lsb0,
        BitsOrderFormat::Msb0 => OrderFormat::Msb0,
    };
    scale_bits::encode_using_format(bits.iter().copied(), scale_bits::Format { store, order })
}

/// Relies on the `ToString` of `u128`: its decimal digits.
#[verifier::external_body]
pub(crate) fn u128_text(n: u128) -> (r: String)
    ensures
        r@ == decimal(n as int),
{
    n.to_string()
}

/// Relies on the `ToString` of `i128`: its decimal digits, after a minus sign
/// when negative.
#[verifier::external_body]
pub(crate) fn i128_text(n: i128) -> (r: String)
    ensures
        r@ == decimal(n as int),
{
    n.to_string()
}

/// Append `bytes` to `out`.
pub(crate) fn append(out: &mut Vec<u8>, bytes: &[u8])
    ensures
        final(out)@ == old(out)@ + bytes@,
{
    let mut i: usize = 0;
    while i < bytes.len()
        invariant
            i <= bytes@.len(),
            out@ == old(out)@ + bytes@.subrange(0, i as int),
        decreases bytes@.len() - i,
    {
        out.push(bytes[i]);
        i = i + 1;
        assert(out@ =~= old(out)@ + bytes@.subrange(0, i as int));
    }
    assert(bytes@.subrange(0, i as int) =~= bytes@);
}

/// Append the lowest `w` bytes of `u`, least significant first.
pub(crate) fn push_le(out: &mut Vec<u8>, u: u128, w: usize)
    ensures
        final(out)@ == old(out)@ + le_bytes(u as nat, w as nat),
{
    let mut x = u;
    let mut i: usize = 0;
    while i < w
        invariant
            i <= w,
            old(out)@ + le_bytes(u as nat, w as nat) == out@ + le_bytes(x as nat, (w - i) as nat),
        decreases w - i,
    {
        let ghost before = out@;
        out.push((x % 256) as u8);
        assert(le_bytes(x as nat, (w - i) as nat) == seq![(x % 256) as u8] + le_bytes(
            (x / 256) as nat,
            (w - i - 1) as nat,
        ));
        assert(out@ + le_bytes((x / 256) as nat, (w - i - 1) as nat) =~= before + le_bytes(
            x as nat,
            (w - i) as nat,
        ));
        x = x / 256;
        i = i + 1;
    }
    assert(out@ + le_bytes(x as nat, 0) =~= out@);
}

} // verus!
