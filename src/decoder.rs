//! Decoding: each reader takes the input and a position and returns the value
//! with the position after it. Strings come back as views into the input.
use vstd::prelude::*;
use vstd::slice::slice_subrange;
use crate::error::DecodeError;
use crate::wire::{
    le_value, lemma_le_value_bound, parse_discriminant, lemma_pow256_16, lemma_pow256_mono, parse_bool, parse_str,
    parse_uint, pow256,
};

verus! {

/// Reads an unsigned little-endian integer of `width` bytes at `pos`.
pub fn read_uint(input: &[u8], pos: usize, width: usize) -> (r: Result<(u128, usize), DecodeError>)
    requires
        width <= 16,
    ensures
        match r {
            Ok((v, p)) => parse_uint(input@, pos as int, width as nat) == Ok::<(nat, int), DecodeError>(
                (v as nat, p as int)),
            Err(e) => parse_uint(input@, pos as int, width as nat) == Err::<(nat, int), DecodeError>(e),
        },
{
    if pos > input.len() || width > input.len() - pos {
        return Err(DecodeError::Truncated);
    }
    let ghost s = input@;
    let n = input.len();
    let mut acc: u128 = 0;
    let mut i: usize = width;
    proof {
        lemma_pow256_16();
        assert(s.subrange(pos + width, pos + width) =~= Seq::<u8>::empty());
    }
    while i > 0
        invariant
            i <= width <= 16,
            pos + width <= s.len(),
            pos + width <= n,
            n == input@.len(),
            s == input@,
            acc as nat == le_value(s.subrange(pos + i, pos + width)),
            pow256(16) == 0x1_0000_0000_0000_0000_0000_0000_0000_0000,
        decreases i,
    {
        i = i - 1;
        let ghost tail = s.subrange(pos + i + 1, pos + width);
        let ghost cur = s.subrange(pos + i, pos + width);
        assert(cur.drop_first() =~= tail);
        proof {
            lemma_le_value_bound(tail);
            lemma_pow256_mono(tail.len(), 15);
            let p15 = pow256(15);
            assert(p15 * 256 == pow256(16));
            let a = acc as nat;
            let b = input@[(pos + i) as int] as nat;
            assert(a * 256 + b < pow256(16)) by (nonlinear_arith)
                requires a < p15, b < 256, p15 * 256 == pow256(16);
        }
        acc = acc * 256 + input[pos + i] as u128;
    }
    Ok((acc, pos + width))
}

/// Reads a `u32` at `pos`.
pub fn read_u32(input: &[u8], pos: usize) -> (r: Result<(u32, usize), DecodeError>)
    ensures
        match r {
            Ok((v, p)) => parse_uint(input@, pos as int, 4) == Ok::<(nat, int), DecodeError>(
                (v as nat, p as int)),
            Err(e) => parse_uint(input@, pos as int, 4) == Err::<(nat, int), DecodeError>(e),
        },
{
    let (v, p) = read_uint(input, pos, 4)?;
    proof {
        lemma_le_value_bound(input@.subrange(pos as int, pos + 4));
        lemma_pow256_16();
    }
    Ok((v as u32, p))
}

/// Reads a boolean byte at `pos`; a byte other than `0` or `1` is refused.
pub fn read_bool(input: &[u8], pos: usize) -> (r: Result<(bool, usize), DecodeError>)
    ensures
        match r {
            Ok((v, p)) => parse_bool(input@, pos as int) == Ok::<(bool, int), DecodeError>((v, p as int)),
            Err(e) => parse_bool(input@, pos as int) == Err::<(bool, int), DecodeError>(e),
        },
{
    if pos >= input.len() {
        return Err(DecodeError::Truncated);
    }
    let b = input[pos];
    if b == 0 {
        Ok((false, pos + 1))
    } else if b == 1 {
        Ok((true, pos + 1))
    } else {
        Err(DecodeError::InvalidValue)
    }
}

/// Reads a length-prefixed byte string at `pos`. The result borrows the input:
/// no byte is copied.
pub fn read_str<'a>(input: &'a [u8], pos: usize) -> (r: Result<(&'a [u8], usize), DecodeError>)
    ensures
        match r {
            Ok((b, p)) => parse_str(input@, pos as int) == Ok::<(Seq<u8>, int), DecodeError>(
                (b@, p as int)),
            Err(e) => parse_str(input@, pos as int) == Err::<(Seq<u8>, int), DecodeError>(e),
        },
{
    let (len, p) = read_u32(input, pos)?;
    let len = len as usize;
    if len > input.len() - p {
        return Err(DecodeError::LengthOutOfRange);
    }
    let b = slice_subrange(input, p, p + len);
    Ok((b, p + len))
}

/// Reads the one-byte discriminant of an enumeration or one-of with
/// `variant_count` declared variants; a larger discriminant is refused.
pub fn read_discriminant(input: &[u8], pos: usize, variant_count: u8) -> (r: Result<(u8, usize), DecodeError>)
    ensures
        match r {
            Ok((d, p)) => parse_discriminant(input@, pos as int, variant_count as nat) == Ok::<(nat, int), DecodeError>(
                (d as nat, p as int)),
            Err(e) => parse_discriminant(input@, pos as int, variant_count as nat) == Err::<(nat, int), DecodeError>(e),
        },
{
    if pos >= input.len() {
        return Err(DecodeError::Truncated);
    }
    let d = input[pos];
    if d >= variant_count {
        return Err(DecodeError::UnknownVariant);
    }
    Ok((d, pos + 1))
}

} // verus!
