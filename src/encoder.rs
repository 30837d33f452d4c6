//! Encoding: each value is prepended to a [`ReverseWriter`], so a composite
//! value is written from its last part to its first.
use vstd::prelude::*;
use crate::error::EncodeError;
use crate::wire::{enc_bool, enc_str, le_bytes, lemma_pow256_16, pow256};
use crate::writer::ReverseWriter;

verus! {

/// Prepends the `width` little-endian bytes of `v`.
pub fn write_uint(w: &mut ReverseWriter, v: u128, width: usize) -> (r: Result<(), EncodeError>)
    ensures
        final(w).limit() == old(w).limit(),
        r is Ok <==> old(w)@.len() + width <= old(w).limit(),
        r is Ok ==> final(w)@ == le_bytes(v as nat, width as nat) + old(w)@,
        r is Err ==> r == Err::<(), EncodeError>(EncodeError::CapacityExceeded) && final(w)@ == old(w)@,
{
    if width > w.remaining() {
        return Err(EncodeError::CapacityExceeded);
    }
    let mut bytes: Vec<u8> = Vec::new();
    let mut cur: u128 = v;
    let mut i: usize = 0;
    while i < width
        invariant
            i <= width,
            bytes@.len() == i,
            bytes@ + le_bytes(cur as nat, (width - i) as nat) == le_bytes(v as nat, width as nat),
        decreases width - i,
    {
        let ghost c = cur as nat;
        let ghost k = (width - i) as nat;
        let ghost before = bytes@;
        bytes.push((cur % 256) as u8);
        cur = cur / 256;
        assert(le_bytes(c, k) == seq![(c % 256) as u8] + le_bytes(c / 256, (k - 1) as nat));
        assert(bytes@ + le_bytes(cur as nat, (k - 1) as nat) =~= before + le_bytes(c, k));
        i = i + 1;
    }
    assert(bytes@ =~= le_bytes(v as nat, width as nat));
    w.prepend(bytes.as_slice());
    Ok(())
}

/// Prepends a `u8`.
pub fn write_u8(w: &mut ReverseWriter, v: u8) -> (r: Result<(), EncodeError>)
    ensures
        final(w).limit() == old(w).limit(),
        r is Ok <==> old(w)@.len() + 1 <= old(w).limit(),
        r is Ok ==> final(w)@ == le_bytes(v as nat, 1) + old(w)@,
        r is Err ==> final(w)@ == old(w)@,
{
    write_uint(w, v as u128, 1)
}

/// Prepends a `u16`, little-endian.
pub fn write_u16(w: &mut ReverseWriter, v: u16) -> (r: Result<(), EncodeError>)
    ensures
        final(w).limit() == old(w).limit(),
        r is Ok <==> old(w)@.len() + 2 <= old(w).limit(),
        r is Ok ==> final(w)@ == le_bytes(v as nat, 2) + old(w)@,
        r is Err ==> final(w)@ == old(w)@,
{
    write_uint(w, v as u128, 2)
}

/// Prepends a `u32`, little-endian.
pub fn write_u32(w: &mut ReverseWriter, v: u32) -> (r: Result<(), EncodeError>)
    ensures
        final(w).limit() == old(w).limit(),
        r is Ok <==> old(w)@.len() + 4 <= old(w).limit(),
        r is Ok ==> final(w)@ == le_bytes(v as nat, 4) + old(w)@,
        r is Err ==> final(w)@ == old(w)@,
{
    write_uint(w, v as u128, 4)
}

/// Prepends a `u64`, little-endian.
pub fn write_u64(w: &mut ReverseWriter, v: u64) -> (r: Result<(), EncodeError>)
    ensures
        final(w).limit() == old(w).limit(),
        r is Ok <==> old(w)@.len() + 8 <= old(w).limit(),
        r is Ok ==> final(w)@ == le_bytes(v as nat, 8) + old(w)@,
        r is Err ==> final(w)@ == old(w)@,
{
    write_uint(w, v as u128, 8)
}

/// Prepends a `u128`, little-endian.
pub fn write_u128(w: &mut ReverseWriter, v: u128) -> (r: Result<(), EncodeError>)
    ensures
        final(w).limit() == old(w).limit(),
        r is Ok <==> old(w)@.len() + 16 <= old(w).limit(),
        r is Ok ==> final(w)@ == le_bytes(v as nat, 16) + old(w)@,
        r is Err ==> final(w)@ == old(w)@,
{
    write_uint(w, v, 16)
}

/// Prepends a boolean as one byte.
pub fn write_bool(w: &mut ReverseWriter, v: bool) -> (r: Result<(), EncodeError>)
    ensures
        final(w).limit() == old(w).limit(),
        r is Ok <==> old(w)@.len() + 1 <= old(w).limit(),
        r is Ok ==> final(w)@ == enc_bool(v) + old(w)@,
        r is Err ==> final(w)@ == old(w)@,
{
    let r = write_uint(w, if v { 1 } else { 0 }, 1);
    proof {
        reveal_with_fuel(le_bytes, 2);
        if r is Ok {
            assert(le_bytes((if v { 1nat } else { 0nat }), 1) =~= enc_bool(v));
        }
    }
    r
}

/// Prepends a byte string: its length in four bytes, then its bytes.
pub fn write_str(w: &mut ReverseWriter, b: &[u8]) -> (r: Result<(), EncodeError>)
    ensures
        final(w).limit() == old(w).limit(),
        r is Ok <==> b@.len() < pow256(4) && old(w)@.len() + 4 + b@.len() <= old(w).limit(),
        r is Ok ==> final(w)@ == enc_str(b@) + old(w)@,
        r == Err::<(), EncodeError>(EncodeError::LengthOverflow) <==> b@.len() >= pow256(4),
        r is Err ==> final(w)@ == old(w)@,
{
    proof {
        lemma_pow256_16();
    }
    let n = b.len();
    if n > 0xffff_ffff {
        return Err(EncodeError::LengthOverflow);
    }
    let room = w.remaining();
    if room < 4 || n > room - 4 {
        return Err(EncodeError::CapacityExceeded);
    }
    w.prepend(b);
    let r = write_uint(w, n as u128, 4);
    assert(r is Ok);
    assert(w@ =~= enc_str(b@) + old(w)@);
    r
}

/// Prepends the one-byte discriminant of a variant.
pub fn write_discriminant(w: &mut ReverseWriter, d: u8) -> (r: Result<(), EncodeError>)
    ensures
        final(w).limit() == old(w).limit(),
        r is Ok <==> old(w)@.len() + 1 <= old(w).limit(),
        r is Ok ==> final(w)@ == seq![d] + old(w)@,
        r is Err ==> final(w)@ == old(w)@,
{
    let r = write_uint(w, d as u128, 1);
    proof {
        reveal_with_fuel(le_bytes, 2);
        assert(le_bytes(d as nat, 1) =~= seq![d]);
    }
    r
}

} // verus!
