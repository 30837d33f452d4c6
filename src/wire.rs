//! The byte-level model of the wire format.
use vstd::prelude::*;
use crate::error::DecodeError;

verus! {

/// `256` to the power `n`.
pub open spec fn pow256(n: nat) -> nat
    decreases n,
{
    if n == 0 { 1 } else { 256 * pow256((n - 1) as nat) }
}

/// The `n` little-endian bytes of `v` (the higher bytes of `v` are dropped).
pub open spec fn le_bytes(v: nat, n: nat) -> Seq<u8>
    decreases n,
{
    if n == 0 {
        Seq::empty()
    } else {
        seq![(v % 256) as u8].add(le_bytes(v / 256, (n - 1) as nat))
    }
}

/// The number that the little-endian bytes `s` stand for.
pub open spec fn le_value(s: Seq<u8>) -> nat
    decreases s.len(),
{
    if s.len() == 0 { 0 } else { s[0] as nat + 256 * le_value(s.drop_first()) }
}

pub proof fn lemma_pow256_pos(n: nat)
    ensures
        pow256(n) >= 1,
    decreases n,
{
    if n > 0 {
        lemma_pow256_pos((n - 1) as nat);
    }
}

pub proof fn lemma_pow256_mono(a: nat, b: nat)
    requires
        a <= b,
    ensures
        pow256(a) <= pow256(b),
    decreases b,
{
    if a < b {
        lemma_pow256_mono(a, (b - 1) as nat);
        lemma_pow256_pos((b - 1) as nat);
    }
}

pub proof fn lemma_pow256_16()
    ensures
        pow256(16) == 0x1_0000_0000_0000_0000_0000_0000_0000_0000,
        pow256(8) == 0x1_0000_0000_0000_0000,
        pow256(4) == 0x1_0000_0000,
        pow256(2) == 0x1_0000,
        pow256(1) == 0x100,
{
    reveal_with_fuel(pow256, 17);
}

pub proof fn lemma_le_bytes_len(v: nat, n: nat)
    ensures
        le_bytes(v, n).len() == n,
    decreases n,
{
    if n > 0 {
        lemma_le_bytes_len(v / 256, (n - 1) as nat);
    }
}

/// Reading back the little-endian bytes of a value that fits gives the value.
pub proof fn lemma_le_round_trip(v: nat, n: nat)
    requires
        v < pow256(n),
    ensures
        le_value(le_bytes(v, n)) == v,
        le_bytes(v, n).len() == n,
    decreases n,
{
    lemma_le_bytes_len(v, n);
    if n > 0 {
        let m = (n - 1) as nat;
        assert(v / 256 < pow256(m)) by (nonlinear_arith)
            requires v < 256 * pow256(m), pow256(m) >= 1;
        lemma_le_round_trip(v / 256, m);
        let s = le_bytes(v, n);
        assert(s.drop_first() =~= le_bytes(v / 256, m));
    }
}

/// A value read from `n` bytes is below `256^n`.
pub proof fn lemma_le_value_bound(s: Seq<u8>)
    ensures
        le_value(s) < pow256(s.len()),
    decreases s.len(),
{
    if s.len() > 0 {
        lemma_le_value_bound(s.drop_first());
        let r = le_value(s.drop_first());
        let p = pow256((s.len() - 1) as nat);
        let b = s[0] as nat;
        assert(b + 256 * r < 256 * p) by (nonlinear_arith)
            requires r < p, b < 256;
    }
}


/// The encoding of a byte string: its length in four bytes, then the bytes.
pub open spec fn enc_str(b: Seq<u8>) -> Seq<u8> {
    le_bytes(b.len(), 4) + b
}

/// The encoding of a boolean: one byte, `1` or `0`.
pub open spec fn enc_bool(b: bool) -> Seq<u8> {
    seq![if b { 1u8 } else { 0u8 }]
}

/// Reads an `n`-byte little-endian unsigned integer at `pos`.
pub open spec fn parse_uint(s: Seq<u8>, pos: int, n: nat) -> Result<(nat, int), DecodeError> {
    if 0 <= pos && pos + n <= s.len() {
        Ok((le_value(s.subrange(pos, pos + n)), pos + n))
    } else {
        Err(DecodeError::Truncated)
    }
}

pub open spec fn parse_bool(s: Seq<u8>, pos: int) -> Result<(bool, int), DecodeError> {
    if 0 <= pos && pos < s.len() {
        if s[pos] == 0 {
            Ok((false, pos + 1))
        } else if s[pos] == 1 {
            Ok((true, pos + 1))
        } else {
            Err(DecodeError::InvalidValue)
        }
    } else {
        Err(DecodeError::Truncated)
    }
}

/// Reads a length-prefixed byte string at `pos`.
pub open spec fn parse_str(s: Seq<u8>, pos: int) -> Result<(Seq<u8>, int), DecodeError> {
    match parse_uint(s, pos, 4) {
        Err(e) => Err(e),
        Ok((len, p)) => if p + len <= s.len() {
            Ok((s.subrange(p, p + len), p + len))
        } else {
            Err(DecodeError::LengthOutOfRange)
        },
    }
}

/// The bytes are valid UTF-8.
pub uninterp spec fn is_utf8(b: Seq<u8>) -> bool;

/// Reads a length-prefixed string at `pos` whose bytes must be UTF-8.
pub open spec fn parse_utf8_str(s: Seq<u8>, pos: int) -> Result<(Seq<u8>, int), DecodeError> {
    match parse_str(s, pos) {
        Err(e) => Err(e),
        Ok((b, p)) => if is_utf8(b) {
            Ok((b, p))
        } else {
            Err(DecodeError::InvalidValue)
        },
    }
}

/// `t` is the start of `s`.
pub open spec fn is_prefix(t: Seq<u8>, s: Seq<u8>) -> bool {
    t.len() <= s.len() && t == s.subrange(0, t.len() as int)
}

pub proof fn lemma_parse_uint_encoded(s: Seq<u8>, pos: int, v: nat, n: nat)
    requires
        v < pow256(n),
        0 <= pos,
        pos + n <= s.len(),
        s.subrange(pos, pos + n) == le_bytes(v, n),
    ensures
        parse_uint(s, pos, n) == Ok::<(nat, int), DecodeError>((v, pos + n)),
{
    lemma_le_round_trip(v, n);
}

pub proof fn lemma_parse_str_encoded(s: Seq<u8>, pos: int, b: Seq<u8>)
    requires
        b.len() < pow256(4),
        0 <= pos,
        pos + enc_str(b).len() <= s.len(),
        s.subrange(pos, pos + enc_str(b).len()) == enc_str(b),
    ensures
        parse_str(s, pos) == Ok::<(Seq<u8>, int), DecodeError>((b, pos + enc_str(b).len())),
{
    lemma_le_round_trip(b.len(), 4);
    let e = enc_str(b);
    assert(s.subrange(pos, pos + 4) =~= e.subrange(0, 4));
    assert(e.subrange(0, 4) =~= le_bytes(b.len(), 4));
    lemma_parse_uint_encoded(s, pos, b.len(), 4);
    assert(s.subrange(pos + 4, pos + 4 + b.len()) =~= e.subrange(4, e.len() as int));
    assert(e.subrange(4, e.len() as int) =~= b);
}

pub proof fn lemma_parse_uint_prefix(t: Seq<u8>, s: Seq<u8>, pos: int, n: nat)
    requires
        is_prefix(t, s),
        parse_uint(t, pos, n) is Ok,
    ensures
        parse_uint(s, pos, n) == parse_uint(t, pos, n),
{
    assert(s.subrange(pos, pos + n) =~= t.subrange(pos, pos + n));
}

pub proof fn lemma_parse_str_prefix(t: Seq<u8>, s: Seq<u8>, pos: int)
    requires
        is_prefix(t, s),
        parse_str(t, pos) is Ok,
    ensures
        parse_str(s, pos) == parse_str(t, pos),
{
    lemma_parse_uint_prefix(t, s, pos, 4);
    let (len, p) = parse_uint(t, pos, 4)->Ok_0;
    assert(s.subrange(p, p + len) =~= t.subrange(p, p + len));
}


/// Reads a one-byte discriminant that must name one of `count` variants.
pub open spec fn parse_discriminant(s: Seq<u8>, pos: int, count: nat) -> Result<(nat, int), DecodeError> {
    if 0 <= pos && pos < s.len() {
        if (s[pos] as nat) < count {
            Ok((s[pos] as nat, pos + 1))
        } else {
            Err(DecodeError::UnknownVariant)
        }
    } else {
        Err(DecodeError::Truncated)
    }
}

/// `m` is a signed integer of `n` bytes.
pub open spec fn fits_signed(m: int, n: nat) -> bool {
    -(pow256(n) / 2) <= m < pow256(n) / 2
}

/// The two's complement of `m` in `n` bytes.
pub open spec fn to_unsigned(m: int, n: nat) -> nat {
    if m < 0 { (m + pow256(n)) as nat } else { m as nat }
}

/// The signed integer whose two's complement in `n` bytes is `u`.
pub open spec fn from_unsigned(u: nat, n: nat) -> int {
    if u >= pow256(n) / 2 { u - pow256(n) } else { u as int }
}

/// Reads an `n`-byte little-endian two's complement integer at `pos`.
pub open spec fn parse_int(s: Seq<u8>, pos: int, n: nat) -> Result<(int, int), DecodeError> {
    match parse_uint(s, pos, n) {
        Err(e) => Err(e),
        Ok((u, p)) => Ok((from_unsigned(u, n), p)),
    }
}

} // verus!
