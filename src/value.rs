//! The value layer: how each native type maps onto the wire.
use vstd::prelude::*;
use vstd::string::StringSliceAdditionalSpecFns;
use crate::decoder::{read_bool, read_str, read_uint};
use crate::encoder::{write_bool, write_str, write_uint};
use crate::error::{DecodeError, EncodeError};
use crate::types::TypeDescriptor;
use crate::wire::{
    parse_utf8_str, is_utf8,
    from_unsigned,
    fits_signed, parse_int, to_unsigned,
    enc_bool, enc_str, is_prefix, le_bytes, lemma_le_bytes_len, lemma_le_value_bound,
    lemma_parse_str_encoded, lemma_parse_str_prefix, lemma_parse_uint_encoded,
    lemma_parse_uint_prefix, lemma_pow256_16, parse_bool, parse_str, parse_uint, pow256,
};
use crate::writer::ReverseWriter;

verus! {

/// A value type named where no lifetime is at hand (a type parameter, a
/// container's element): it names the possibly borrowed type that decoding
/// produces for each input lifetime.
pub trait Value {
    type MaybeBorrowed<'a>: MaybeBorrowed<'a>;
}

/// A type that can be returned from a message handler.
pub trait ResponseValue {
    type MaybeBorrowed<'a>;
}

/// A type that can be encoded, and decoded with a lifetime `'a` bounded by
/// the input: a decoded value may borrow from the input instead of copying.
pub trait MaybeBorrowed<'a>: Sized {
    /// The mathematical value that a native value stands for.
    type Model;

    spec fn model(&self) -> Self::Model;

    /// The wire shape of the type.
    spec fn descriptor() -> TypeDescriptor;

    /// The values that the format can represent.
    spec fn valid(m: Self::Model) -> bool;

    /// The bytes that encode `m`.
    spec fn encoding(m: Self::Model) -> Seq<u8>;

    /// What decoding `s` from `pos` gives, with the position after the value.
    spec fn parse(s: Seq<u8>, pos: int) -> Result<(Self::Model, int), DecodeError>;

    /// Prepends the encoding of `self`.
    fn write(&self, w: &mut ReverseWriter) -> (r: Result<(), EncodeError>)
        ensures
            final(w).limit() == old(w).limit(),
            r is Ok ==> final(w)@ == Self::encoding(self.model()) + old(w)@,
            r is Ok ==> Self::valid(self.model()),
            Self::valid(self.model()) && old(w)@.len() + Self::encoding(self.model()).len()
                <= old(w).limit() ==> r is Ok,
    ;

    /// Decodes a value at `pos`.
    fn read(input: &'a [u8], pos: usize) -> (r: Result<(Self, usize), DecodeError>)
        ensures
            match r {
                Ok((v, p)) => Self::parse(input@, pos as int) == Ok::<(Self::Model, int), DecodeError>(
                    (v.model(), p as int)),
                Err(e) => Self::parse(input@, pos as int) == Err::<(Self::Model, int), DecodeError>(e),
            },
    ;

    /// Decoding an encoding gives back the value and ends right after it.
    proof fn lemma_round_trip(m: Self::Model, s: Seq<u8>, pos: int)
        requires
            Self::valid(m),
            0 <= pos,
            pos + Self::encoding(m).len() <= s.len(),
            s.subrange(pos, pos + Self::encoding(m).len()) == Self::encoding(m),
        ensures
            Self::parse(s, pos) == Ok::<(Self::Model, int), DecodeError>(
                (m, pos + Self::encoding(m).len())),
    ;

    /// A successful decode reads only bytes that are there, and more bytes
    /// after them change nothing.
    proof fn lemma_prefix(t: Seq<u8>, s: Seq<u8>, pos: int)
        requires
            is_prefix(t, s),
            Self::parse(t, pos) is Ok,
        ensures
            Self::parse(s, pos) == Self::parse(t, pos),
            pos <= Self::parse(t, pos)->Ok_0.1 <= t.len(),
    ;
}

impl<'a> MaybeBorrowed<'a> for u32 {
    type Model = nat;

    open spec fn model(&self) -> nat {
        *self as nat
    }

    open spec fn descriptor() -> TypeDescriptor {
        TypeDescriptor::U32T
    }

    open spec fn valid(m: nat) -> bool {
        m < pow256(4)
    }

    open spec fn encoding(m: nat) -> Seq<u8> {
        le_bytes(m, 4)
    }

    open spec fn parse(s: Seq<u8>, pos: int) -> Result<(nat, int), DecodeError> {
        parse_uint(s, pos, 4)
    }

    fn write(&self, w: &mut ReverseWriter) -> (r: Result<(), EncodeError>) {
        proof {
            lemma_le_bytes_len(*self as nat, 4);
            lemma_pow256_16();
        }
        write_uint(w, *self as u128, 4)
    }

    fn read(input: &'a [u8], pos: usize) -> (r: Result<(u32, usize), DecodeError>) {
        let (v, p) = read_uint(input, pos, 4)?;
        proof {
            lemma_le_value_bound(input@.subrange(pos as int, pos + 4));
            lemma_pow256_16();
        }
        Ok((v as u32, p))
    }

    proof fn lemma_round_trip(m: nat, s: Seq<u8>, pos: int) {
        lemma_le_bytes_len(m, 4);
        lemma_parse_uint_encoded(s, pos, m, 4);
    }

    proof fn lemma_prefix(t: Seq<u8>, s: Seq<u8>, pos: int) {
        lemma_parse_uint_prefix(t, s, pos, 4);
    }
}

impl<'a> MaybeBorrowed<'a> for u8 {
    type Model = nat;

    open spec fn model(&self) -> nat {
        *self as nat
    }

    open spec fn descriptor() -> TypeDescriptor {
        TypeDescriptor::U8T
    }

    open spec fn valid(m: nat) -> bool {
        m < pow256(1)
    }

    open spec fn encoding(m: nat) -> Seq<u8> {
        le_bytes(m, 1)
    }

    open spec fn parse(s: Seq<u8>, pos: int) -> Result<(nat, int), DecodeError> {
        parse_uint(s, pos, 1)
    }

    fn write(&self, w: &mut ReverseWriter) -> (r: Result<(), EncodeError>) {
        proof {
            lemma_le_bytes_len(*self as nat, 1);
            lemma_pow256_16();
        }
        write_uint(w, *self as u128, 1)
    }

    fn read(input: &'a [u8], pos: usize) -> (r: Result<(u8, usize), DecodeError>) {
        let (v, p) = read_uint(input, pos, 1)?;
        proof {
            lemma_le_value_bound(input@.subrange(pos as int, pos + 1));
            lemma_pow256_16();
        }
        Ok((v as u8, p))
    }

    proof fn lemma_round_trip(m: nat, s: Seq<u8>, pos: int) {
        lemma_le_bytes_len(m, 1);
        lemma_parse_uint_encoded(s, pos, m, 1);
    }

    proof fn lemma_prefix(t: Seq<u8>, s: Seq<u8>, pos: int) {
        lemma_parse_uint_prefix(t, s, pos, 1);
    }
}

impl<'a> MaybeBorrowed<'a> for u16 {
    type Model = nat;

    open spec fn model(&self) -> nat {
        *self as nat
    }

    open spec fn descriptor() -> TypeDescriptor {
        TypeDescriptor::U16T
    }

    open spec fn valid(m: nat) -> bool {
        m < pow256(2)
    }

    open spec fn encoding(m: nat) -> Seq<u8> {
        le_bytes(m, 2)
    }

    open spec fn parse(s: Seq<u8>, pos: int) -> Result<(nat, int), DecodeError> {
        parse_uint(s, pos, 2)
    }

    fn write(&self, w: &mut ReverseWriter) -> (r: Result<(), EncodeError>) {
        proof {
            lemma_le_bytes_len(*self as nat, 2);
            lemma_pow256_16();
        }
        write_uint(w, *self as u128, 2)
    }

    fn read(input: &'a [u8], pos: usize) -> (r: Result<(u16, usize), DecodeError>) {
        let (v, p) = read_uint(input, pos, 2)?;
        proof {
            lemma_le_value_bound(input@.subrange(pos as int, pos + 2));
            lemma_pow256_16();
        }
        Ok((v as u16, p))
    }

    proof fn lemma_round_trip(m: nat, s: Seq<u8>, pos: int) {
        lemma_le_bytes_len(m, 2);
        lemma_parse_uint_encoded(s, pos, m, 2);
    }

    proof fn lemma_prefix(t: Seq<u8>, s: Seq<u8>, pos: int) {
        lemma_parse_uint_prefix(t, s, pos, 2);
    }
}

impl<'a> MaybeBorrowed<'a> for u64 {
    type Model = nat;

    open spec fn model(&self) -> nat {
        *self as nat
    }

    open spec fn descriptor() -> TypeDescriptor {
        TypeDescriptor::U64T
    }

    open spec fn valid(m: nat) -> bool {
        m < pow256(8)
    }

    open spec fn encoding(m: nat) -> Seq<u8> {
        le_bytes(m, 8)
    }

    open spec fn parse(s: Seq<u8>, pos: int) -> Result<(nat, int), DecodeError> {
        parse_uint(s, pos, 8)
    }

    fn write(&self, w: &mut ReverseWriter) -> (r: Result<(), EncodeError>) {
        proof {
            lemma_le_bytes_len(*self as nat, 8);
            lemma_pow256_16();
        }
        write_uint(w, *self as u128, 8)
    }

    fn read(input: &'a [u8], pos: usize) -> (r: Result<(u64, usize), DecodeError>) {
        let (v, p) = read_uint(input, pos, 8)?;
        proof {
            lemma_le_value_bound(input@.subrange(pos as int, pos + 8));
            lemma_pow256_16();
        }
        Ok((v as u64, p))
    }

    proof fn lemma_round_trip(m: nat, s: Seq<u8>, pos: int) {
        lemma_le_bytes_len(m, 8);
        lemma_parse_uint_encoded(s, pos, m, 8);
    }

    proof fn lemma_prefix(t: Seq<u8>, s: Seq<u8>, pos: int) {
        lemma_parse_uint_prefix(t, s, pos, 8);
    }
}

impl<'a> MaybeBorrowed<'a> for u128 {
    type Model = nat;

    open spec fn model(&self) -> nat {
        *self as nat
    }

    open spec fn descriptor() -> TypeDescriptor {
        TypeDescriptor::UIntNT(16)
    }

    open spec fn valid(m: nat) -> bool {
        m < pow256(16)
    }

    open spec fn encoding(m: nat) -> Seq<u8> {
        le_bytes(m, 16)
    }

    open spec fn parse(s: Seq<u8>, pos: int) -> Result<(nat, int), DecodeError> {
        parse_uint(s, pos, 16)
    }

    fn write(&self, w: &mut ReverseWriter) -> (r: Result<(), EncodeError>) {
        proof {
            lemma_le_bytes_len(*self as nat, 16);
            lemma_pow256_16();
        }
        write_uint(w, *self, 16)
    }

    fn read(input: &'a [u8], pos: usize) -> (r: Result<(u128, usize), DecodeError>) {
        let (v, p) = read_uint(input, pos, 16)?;
        proof {
            lemma_le_value_bound(input@.subrange(pos as int, pos + 16));
            lemma_pow256_16();
        }
        Ok((v as u128, p))
    }

    proof fn lemma_round_trip(m: nat, s: Seq<u8>, pos: int) {
        lemma_le_bytes_len(m, 16);
        lemma_parse_uint_encoded(s, pos, m, 16);
    }

    proof fn lemma_prefix(t: Seq<u8>, s: Seq<u8>, pos: int) {
        lemma_parse_uint_prefix(t, s, pos, 16);
    }
}

impl<'a> MaybeBorrowed<'a> for bool {
    type Model = bool;

    open spec fn model(&self) -> bool {
        *self
    }

    open spec fn descriptor() -> TypeDescriptor {
        TypeDescriptor::Bool
    }

    open spec fn valid(m: bool) -> bool {
        true
    }

    open spec fn encoding(m: bool) -> Seq<u8> {
        enc_bool(m)
    }

    open spec fn parse(s: Seq<u8>, pos: int) -> Result<(bool, int), DecodeError> {
        parse_bool(s, pos)
    }

    fn write(&self, w: &mut ReverseWriter) -> (r: Result<(), EncodeError>) {
        write_bool(w, *self)
    }

    fn read(input: &'a [u8], pos: usize) -> (r: Result<(bool, usize), DecodeError>) {
        read_bool(input, pos)
    }

    proof fn lemma_round_trip(m: bool, s: Seq<u8>, pos: int) {
        assert(s[pos] == enc_bool(m)[0]);
    }

    proof fn lemma_prefix(t: Seq<u8>, s: Seq<u8>, pos: int) {
        assert(s[pos] == t.subrange(0, t.len() as int)[pos]);
    }
}

/// A byte string, encoded as a list of `u8`. Decoding gives a view of the
/// input.
impl<'a> MaybeBorrowed<'a> for &'a [u8] {
    type Model = Seq<u8>;

    open spec fn model(&self) -> Seq<u8> {
        self@
    }

    open spec fn descriptor() -> TypeDescriptor {
        TypeDescriptor::ListT(Box::new(TypeDescriptor::U8T))
    }

    open spec fn valid(m: Seq<u8>) -> bool {
        m.len() < pow256(4)
    }

    open spec fn encoding(m: Seq<u8>) -> Seq<u8> {
        enc_str(m)
    }

    open spec fn parse(s: Seq<u8>, pos: int) -> Result<(Seq<u8>, int), DecodeError> {
        parse_str(s, pos)
    }

    fn write(&self, w: &mut ReverseWriter) -> (r: Result<(), EncodeError>) {
        proof {
            lemma_le_bytes_len(self@.len(), 4);
        }
        write_str(w, *self)
    }

    fn read(input: &'a [u8], pos: usize) -> (r: Result<(&'a [u8], usize), DecodeError>) {
        read_str(input, pos)
    }

    proof fn lemma_round_trip(m: Seq<u8>, s: Seq<u8>, pos: int) {
        lemma_parse_str_encoded(s, pos, m);
    }

    proof fn lemma_prefix(t: Seq<u8>, s: Seq<u8>, pos: int) {
        lemma_parse_str_prefix(t, s, pos);
    }
}

/// Relies on `std::str::from_utf8`: it accepts exactly the byte strings that
/// are valid UTF-8, and returns them as a `str` over the same bytes.
#[verifier::external_body]
fn utf8_view<'a>(b: &'a [u8]) -> (r: Option<&'a str>)
    ensures
        r is Some <==> is_utf8(b@),
        r is Some ==> r->Some_0.spec_bytes() == b@,
{
    std::str::from_utf8(b).ok()
}

/// Relies on `str::as_bytes`: the bytes of a `str` are valid UTF-8.
#[verifier::external_body]
fn utf8_bytes(s: &str) -> (r: &[u8])
    ensures
        r@ == s.spec_bytes(),
        is_utf8(r@),
{
    s.as_bytes()
}

/// A UTF-8 string. Decoding checks the bytes and gives a view of the input.
impl<'a> MaybeBorrowed<'a> for &'a str {
    type Model = Seq<u8>;

    open spec fn model(&self) -> Seq<u8> {
        self.spec_bytes()
    }

    open spec fn descriptor() -> TypeDescriptor {
        TypeDescriptor::StrT
    }

    open spec fn valid(m: Seq<u8>) -> bool {
        m.len() < pow256(4) && is_utf8(m)
    }

    open spec fn encoding(m: Seq<u8>) -> Seq<u8> {
        enc_str(m)
    }

    open spec fn parse(s: Seq<u8>, pos: int) -> Result<(Seq<u8>, int), DecodeError> {
        parse_utf8_str(s, pos)
    }

    fn write(&self, w: &mut ReverseWriter) -> (r: Result<(), EncodeError>) {
        let b = utf8_bytes(*self);
        proof {
            lemma_le_bytes_len(b@.len(), 4);
        }
        write_str(w, b)
    }

    fn read(input: &'a [u8], pos: usize) -> (r: Result<(&'a str, usize), DecodeError>) {
        let (b, p) = read_str(input, pos)?;
        match utf8_view(b) {
            Some(s) => Ok((s, p)),
            None => Err(DecodeError::InvalidValue),
        }
    }

    proof fn lemma_round_trip(m: Seq<u8>, s: Seq<u8>, pos: int) {
        lemma_parse_str_encoded(s, pos, m);
    }

    proof fn lemma_prefix(t: Seq<u8>, s: Seq<u8>, pos: int) {
        lemma_parse_str_prefix(t, s, pos);
    }
}

/// A nullable value: a tag byte, `0` for absent or `1` then the value.
impl<'a, V: MaybeBorrowed<'a>> MaybeBorrowed<'a> for Option<V> {
    type Model = Option<V::Model>;

    open spec fn model(&self) -> Option<V::Model> {
        match self {
            None => None,
            Some(v) => Some(v.model()),
        }
    }

    open spec fn descriptor() -> TypeDescriptor {
        TypeDescriptor::NullableT(Box::new(V::descriptor()))
    }

    open spec fn valid(m: Option<V::Model>) -> bool {
        match m {
            None => true,
            Some(x) => V::valid(x),
        }
    }

    open spec fn encoding(m: Option<V::Model>) -> Seq<u8> {
        match m {
            None => seq![0u8],
            Some(x) => seq![1u8] + V::encoding(x),
        }
    }

    open spec fn parse(s: Seq<u8>, pos: int) -> Result<(Option<V::Model>, int), DecodeError> {
        if 0 <= pos && pos < s.len() {
            if s[pos] == 0 {
                Ok((None, pos + 1))
            } else if s[pos] == 1 {
                match V::parse(s, pos + 1) {
                    Ok((x, p)) => Ok((Some(x), p)),
                    Err(e) => Err(e),
                }
            } else {
                Err(DecodeError::UnknownVariant)
            }
        } else {
            Err(DecodeError::Truncated)
        }
    }

    fn write(&self, w: &mut ReverseWriter) -> (r: Result<(), EncodeError>) {
        proof {
            reveal_with_fuel(le_bytes, 2);
        }
        match self {
            None => {
                let r = write_uint(w, 0, 1);
                assert(le_bytes(0, 1) =~= seq![0u8]);
                r
            },
            Some(v) => {
                v.write(w)?;
                let r = write_uint(w, 1, 1);
                assert(le_bytes(1, 1) =~= seq![1u8]);
                proof {
                    if r is Ok {
                        assert(w@ =~= Self::encoding(self.model()) + old(w)@);
                    }
                }
                r
            },
        }
    }

    fn read(input: &'a [u8], pos: usize) -> (r: Result<(Option<V>, usize), DecodeError>) {
        if pos >= input.len() {
            return Err(DecodeError::Truncated);
        }
        let tag = input[pos];
        if tag == 0 {
            Ok((None, pos + 1))
        } else if tag == 1 {
            let (v, p) = V::read(input, pos + 1)?;
            Ok((Some(v), p))
        } else {
            Err(DecodeError::UnknownVariant)
        }
    }

    proof fn lemma_round_trip(m: Option<V::Model>, s: Seq<u8>, pos: int) {
        assert(s[pos] == Self::encoding(m)[0]);
        if let Some(x) = m {
            let n = V::encoding(x).len() as int;
            assert(s.subrange(pos + 1, pos + 1 + n) =~= Self::encoding(m).subrange(1, 1 + n));
            assert(Self::encoding(m).subrange(1, 1 + n) =~= V::encoding(x));
            V::lemma_round_trip(x, s, pos + 1);
        }
    }

    proof fn lemma_prefix(t: Seq<u8>, s: Seq<u8>, pos: int) {
        assert(s[pos] == t.subrange(0, t.len() as int)[pos]);
        if t[pos] == 1 {
            V::lemma_prefix(t, s, pos + 1);
        }
    }
}

/// The models of a sequence of values.
pub open spec fn models<'a, V: MaybeBorrowed<'a>>(vs: Seq<V>) -> Seq<V::Model> {
    vs.map_values(|v: V| v.model())
}

/// The concatenated encodings of a sequence of values.
pub open spec fn enc_items<'a, V: MaybeBorrowed<'a>>(ms: Seq<V::Model>) -> Seq<u8>
    decreases ms.len(),
{
    if ms.len() == 0 {
        Seq::empty()
    } else {
        enc_items::<'a, V>(ms.drop_last()) + V::encoding(ms.last())
    }
}

/// Decodes `k` values one after another from `pos`.
pub open spec fn parse_items<'a, V: MaybeBorrowed<'a>>(s: Seq<u8>, pos: int, k: nat) -> Result<
    (Seq<V::Model>, int),
    DecodeError,
>
    decreases k,
{
    if k == 0 {
        Ok((Seq::empty(), pos))
    } else {
        match parse_items::<'a, V>(s, pos, (k - 1) as nat) {
            Err(e) => Err(e),
            Ok((xs, p)) => match V::parse(s, p) {
                Err(e) => Err(e),
                Ok((x, q)) => Ok((xs.push(x), q)),
            },
        }
    }
}

pub proof fn lemma_enc_items_split<'a, V: MaybeBorrowed<'a>>(a: Seq<V::Model>, b: Seq<V::Model>)
    ensures
        enc_items::<'a, V>(a + b) == enc_items::<'a, V>(a) + enc_items::<'a, V>(b),
    decreases b.len(),
{
    if b.len() == 0 {
        assert(a + b =~= a);
        assert(enc_items::<'a, V>(a) + enc_items::<'a, V>(b) =~= enc_items::<'a, V>(a));
    } else {
        assert((a + b).drop_last() =~= a + b.drop_last());
        lemma_enc_items_split::<'a, V>(a, b.drop_last());
        assert(enc_items::<'a, V>(a + b) =~= enc_items::<'a, V>(a) + enc_items::<'a, V>(b));
    }
}

pub proof fn lemma_items_error_stays<'a, V: MaybeBorrowed<'a>>(s: Seq<u8>, pos: int, i: nat, k: nat)
    requires
        i <= k,
        parse_items::<'a, V>(s, pos, i) is Err,
    ensures
        parse_items::<'a, V>(s, pos, k) == parse_items::<'a, V>(s, pos, i),
    decreases k,
{
    if i < k {
        lemma_items_error_stays::<'a, V>(s, pos, i, (k - 1) as nat);
    }
}

pub proof fn lemma_items_round_trip<'a, V: MaybeBorrowed<'a>>(ms: Seq<V::Model>, s: Seq<u8>, pos: int)
    requires
        forall|i: int| 0 <= i < ms.len() ==> V::valid(#[trigger] ms[i]),
        0 <= pos,
        pos + enc_items::<'a, V>(ms).len() <= s.len(),
        s.subrange(pos, pos + enc_items::<'a, V>(ms).len()) == enc_items::<'a, V>(ms),
    ensures
        parse_items::<'a, V>(s, pos, ms.len()) == Ok::<(Seq<V::Model>, int), DecodeError>(
            (ms, pos + enc_items::<'a, V>(ms).len())),
    decreases ms.len(),
{
    if ms.len() == 0 {
        assert(ms =~= Seq::<V::Model>::empty());
    } else {
        let init = ms.drop_last();
        let x = ms.last();
        let e = enc_items::<'a, V>(ms);
        let l1 = enc_items::<'a, V>(init).len();
        let l = e.len();
        assert(s.subrange(pos, pos + l1) =~= e.subrange(0, l1 as int));
        assert(e.subrange(0, l1 as int) =~= enc_items::<'a, V>(init));
        lemma_items_round_trip::<'a, V>(init, s, pos);
        assert(s.subrange(pos + l1, pos + l) =~= e.subrange(l1 as int, l as int));
        assert(e.subrange(l1 as int, l as int) =~= V::encoding(x));
        V::lemma_round_trip(x, s, pos + l1);
        assert(init.push(x) =~= ms);
    }
}

pub proof fn lemma_items_prefix<'a, V: MaybeBorrowed<'a>>(t: Seq<u8>, s: Seq<u8>, pos: int, k: nat)
    requires
        is_prefix(t, s),
        parse_items::<'a, V>(t, pos, k) is Ok,
        pos <= t.len(),
    ensures
        parse_items::<'a, V>(s, pos, k) == parse_items::<'a, V>(t, pos, k),
        pos <= parse_items::<'a, V>(t, pos, k)->Ok_0.1 <= t.len(),
    decreases k,
{
    if k > 0 {
        lemma_items_prefix::<'a, V>(t, s, pos, (k - 1) as nat);
        let p = parse_items::<'a, V>(t, pos, (k - 1) as nat)->Ok_0.1;
        V::lemma_prefix(t, s, p);
    }
}

/// A list: its length in four bytes, then each item in order.
impl<'a, V: MaybeBorrowed<'a>> MaybeBorrowed<'a> for Vec<V> {
    type Model = Seq<V::Model>;

    open spec fn model(&self) -> Seq<V::Model> {
        models::<'a, V>(self@)
    }

    open spec fn descriptor() -> TypeDescriptor {
        TypeDescriptor::ListT(Box::new(V::descriptor()))
    }

    open spec fn valid(m: Seq<V::Model>) -> bool {
        m.len() < pow256(4) && forall|i: int| 0 <= i < m.len() ==> V::valid(#[trigger] m[i])
    }

    open spec fn encoding(m: Seq<V::Model>) -> Seq<u8> {
        le_bytes(m.len(), 4) + enc_items::<'a, V>(m)
    }

    open spec fn parse(s: Seq<u8>, pos: int) -> Result<(Seq<V::Model>, int), DecodeError> {
        match parse_uint(s, pos, 4) {
            Err(e) => Err(e),
            Ok((n, p)) => parse_items::<'a, V>(s, p, n),
        }
    }

    fn write(&self, w: &mut ReverseWriter) -> (r: Result<(), EncodeError>) {
        let ghost ms = self.model();
        let n = self.len();
        if n > 0xffff_ffff {
            proof {
                lemma_pow256_16();
            }
            return Err(EncodeError::LengthOverflow);
        }
        let mut i: usize = n;
        proof {
            assert(ms.subrange(n as int, n as int) =~= Seq::<V::Model>::empty());
            lemma_le_bytes_len(n as nat, 4);
        }
        while i > 0
            invariant
                i <= n == self@.len() == ms.len(),
                ms == self.model(),
                w@ == enc_items::<'a, V>(ms.subrange(i as int, n as int)) + old(w)@,
                forall|j: int| i <= j < n ==> V::valid(#[trigger] ms[j]),
                w.limit() == old(w).limit(),
                Self::valid(ms) && old(w)@.len() + Self::encoding(ms).len() <= old(w).limit() ==> old(w)@.len()
                    + enc_items::<'a, V>(ms).len() + 4 <= old(w).limit(),
            decreases i,
        {
            let ghost rest = ms.subrange(i as int, n as int);
            let ghost here = ms.subrange(i - 1, n as int);
            proof {
                lemma_enc_items_split::<'a, V>(seq![ms[i - 1]], rest);
                assert(seq![ms[i - 1]] + rest =~= here);
                assert(seq![ms[i - 1]].drop_last() =~= Seq::<V::Model>::empty());
                assert(enc_items::<'a, V>(Seq::<V::Model>::empty()) =~= Seq::<u8>::empty());
                assert(seq![ms[i - 1]].last() == ms[i - 1]);
                assert(enc_items::<'a, V>(seq![ms[i - 1]]) =~= V::encoding(ms[i - 1]));
                lemma_enc_items_split::<'a, V>(ms.subrange(0, i - 1), here);
                assert(ms.subrange(0, i - 1) + here =~= ms);
            }
            self[i - 1].write(w)?;
            i = i - 1;
        }
        assert(ms.subrange(0, n as int) =~= ms);
        let r = write_uint(w, n as u128, 4);
        proof {
            lemma_pow256_16();
            if r is Ok {
                assert(w@ =~= Self::encoding(ms) + old(w)@);
            }
        }
        r
    }

    fn read(input: &'a [u8], pos: usize) -> (r: Result<(Vec<V>, usize), DecodeError>) {
        let (n, p0) = read_uint(input, pos, 4)?;
        let mut items: Vec<V> = Vec::new();
        let mut p: usize = p0;
        let mut i: u128 = 0;
        assert(models::<'a, V>(items@) =~= Seq::<V::Model>::empty());
        while i < n
            invariant
                i <= n,
                parse_uint(input@, pos as int, 4) == Ok::<(nat, int), DecodeError>((n as nat, p0 as int)),
                parse_items::<'a, V>(input@, p0 as int, i as nat) == Ok::<(Seq<V::Model>, int), DecodeError>(
                    (models::<'a, V>(items@), p as int)),
            decreases n - i,
        {
            match V::read(input, p) {
                Ok((v, q)) => {
                    let ghost before = items@;
                    items.push(v);
                    assert(models::<'a, V>(items@) =~= models::<'a, V>(before).push(v.model()));
                    p = q;
                    i = i + 1;
                },
                Err(e) => {
                    proof {
                        assert(parse_items::<'a, V>(input@, p0 as int, (i + 1) as nat)
                            == Err::<(Seq<V::Model>, int), DecodeError>(e));
                        lemma_items_error_stays::<'a, V>(input@, p0 as int, (i + 1) as nat, n as nat);
                        assert(parse_uint(input@, pos as int, 4) == Ok::<(nat, int), DecodeError>(
                            (n as nat, p0 as int)));
                        assert(Self::parse(input@, pos as int) == Err::<(Seq<V::Model>, int), DecodeError>(e));
                    }
                    return Err(e);
                },
            }
        }
        Ok((items, p))
    }

    proof fn lemma_round_trip(m: Seq<V::Model>, s: Seq<u8>, pos: int) {
        let e = Self::encoding(m);
        lemma_le_bytes_len(m.len(), 4);
        assert(s.subrange(pos, pos + 4) =~= e.subrange(0, 4));
        assert(e.subrange(0, 4) =~= le_bytes(m.len(), 4));
        lemma_parse_uint_encoded(s, pos, m.len(), 4);
        let l = enc_items::<'a, V>(m).len();
        assert(s.subrange(pos + 4, pos + 4 + l) =~= e.subrange(4, e.len() as int));
        assert(e.subrange(4, e.len() as int) =~= enc_items::<'a, V>(m));
        lemma_items_round_trip::<'a, V>(m, s, pos + 4);
    }

    proof fn lemma_prefix(t: Seq<u8>, s: Seq<u8>, pos: int) {
        lemma_parse_uint_prefix(t, s, pos, 4);
        let (n, p) = parse_uint(t, pos, 4)->Ok_0;
        lemma_items_prefix::<'a, V>(t, s, p, n);
    }
}

/// Two values one after the other: a record of two fields. Longer records
/// nest pairs.
impl<'a, A: MaybeBorrowed<'a>, B: MaybeBorrowed<'a>> MaybeBorrowed<'a> for (A, B) {
    type Model = (A::Model, B::Model);

    open spec fn model(&self) -> (A::Model, B::Model) {
        (self.0.model(), self.1.model())
    }

    open spec fn descriptor() -> TypeDescriptor {
        TypeDescriptor::FieldsT(Box::new(A::descriptor()), Box::new(B::descriptor()))
    }

    open spec fn valid(m: (A::Model, B::Model)) -> bool {
        A::valid(m.0) && B::valid(m.1)
    }

    open spec fn encoding(m: (A::Model, B::Model)) -> Seq<u8> {
        A::encoding(m.0) + B::encoding(m.1)
    }

    open spec fn parse(s: Seq<u8>, pos: int) -> Result<((A::Model, B::Model), int), DecodeError> {
        match A::parse(s, pos) {
            Err(e) => Err(e),
            Ok((a, p)) => match B::parse(s, p) {
                Err(e) => Err(e),
                Ok((b, q)) => Ok(((a, b), q)),
            },
        }
    }

    fn write(&self, w: &mut ReverseWriter) -> (r: Result<(), EncodeError>) {
        self.1.write(w)?;
        let r = self.0.write(w);
        proof {
            if r is Ok {
                assert(w@ =~= Self::encoding(self.model()) + old(w)@);
            }
        }
        r
    }

    fn read(input: &'a [u8], pos: usize) -> (r: Result<((A, B), usize), DecodeError>) {
        let (a, p) = A::read(input, pos)?;
        let (b, q) = B::read(input, p)?;
        Ok(((a, b), q))
    }

    proof fn lemma_round_trip(m: (A::Model, B::Model), s: Seq<u8>, pos: int) {
        let e = Self::encoding(m);
        let la = A::encoding(m.0).len();
        assert(s.subrange(pos, pos + la) =~= e.subrange(0, la as int));
        assert(e.subrange(0, la as int) =~= A::encoding(m.0));
        A::lemma_round_trip(m.0, s, pos);
        assert(s.subrange(pos + la, pos + e.len()) =~= e.subrange(la as int, e.len() as int));
        assert(e.subrange(la as int, e.len() as int) =~= B::encoding(m.1));
        B::lemma_round_trip(m.1, s, pos + la);
    }

    proof fn lemma_prefix(t: Seq<u8>, s: Seq<u8>, pos: int) {
        A::lemma_prefix(t, s, pos);
        let p = A::parse(t, pos)->Ok_0.1;
        B::lemma_prefix(t, s, p);
    }
}

impl<'a> MaybeBorrowed<'a> for i8 {
    type Model = int;

    open spec fn model(&self) -> int {
        *self as int
    }

    open spec fn descriptor() -> TypeDescriptor {
        TypeDescriptor::I8T
    }

    open spec fn valid(m: int) -> bool {
        fits_signed(m, 1)
    }

    open spec fn encoding(m: int) -> Seq<u8> {
        le_bytes(to_unsigned(m, 1), 1)
    }

    open spec fn parse(s: Seq<u8>, pos: int) -> Result<(int, int), DecodeError> {
        parse_int(s, pos, 1)
    }

    fn write(&self, w: &mut ReverseWriter) -> (r: Result<(), EncodeError>) {
        proof {
            lemma_le_bytes_len(to_unsigned(*self as int, 1), 1);
            lemma_pow256_16();
        }
        write_uint(w, twos_complement(*self as i128, 1), 1)
    }

    fn read(input: &'a [u8], pos: usize) -> (r: Result<(i8, usize), DecodeError>) {
        let (v, p) = read_uint(input, pos, 1)?;
        proof {
            lemma_le_value_bound(input@.subrange(pos as int, pos + 1));
            lemma_pow256_16();
        }
        Ok((from_twos_complement(v, 1) as i8, p))
    }

    proof fn lemma_round_trip(m: int, s: Seq<u8>, pos: int) {
        lemma_pow256_16();
        lemma_le_bytes_len(to_unsigned(m, 1), 1);
        lemma_parse_uint_encoded(s, pos, to_unsigned(m, 1), 1);
    }

    proof fn lemma_prefix(t: Seq<u8>, s: Seq<u8>, pos: int) {
        lemma_parse_uint_prefix(t, s, pos, 1);
    }
}

impl<'a> MaybeBorrowed<'a> for i16 {
    type Model = int;

    open spec fn model(&self) -> int {
        *self as int
    }

    open spec fn descriptor() -> TypeDescriptor {
        TypeDescriptor::I16T
    }

    open spec fn valid(m: int) -> bool {
        fits_signed(m, 2)
    }

    open spec fn encoding(m: int) -> Seq<u8> {
        le_bytes(to_unsigned(m, 2), 2)
    }

    open spec fn parse(s: Seq<u8>, pos: int) -> Result<(int, int), DecodeError> {
        parse_int(s, pos, 2)
    }

    fn write(&self, w: &mut ReverseWriter) -> (r: Result<(), EncodeError>) {
        proof {
            lemma_le_bytes_len(to_unsigned(*self as int, 2), 2);
            lemma_pow256_16();
        }
        write_uint(w, twos_complement(*self as i128, 2), 2)
    }

    fn read(input: &'a [u8], pos: usize) -> (r: Result<(i16, usize), DecodeError>) {
        let (v, p) = read_uint(input, pos, 2)?;
        proof {
            lemma_le_value_bound(input@.subrange(pos as int, pos + 2));
            lemma_pow256_16();
        }
        Ok((from_twos_complement(v, 2) as i16, p))
    }

    proof fn lemma_round_trip(m: int, s: Seq<u8>, pos: int) {
        lemma_pow256_16();
        lemma_le_bytes_len(to_unsigned(m, 2), 2);
        lemma_parse_uint_encoded(s, pos, to_unsigned(m, 2), 2);
    }

    proof fn lemma_prefix(t: Seq<u8>, s: Seq<u8>, pos: int) {
        lemma_parse_uint_prefix(t, s, pos, 2);
    }
}

impl<'a> MaybeBorrowed<'a> for i32 {
    type Model = int;

    open spec fn model(&self) -> int {
        *self as int
    }

    open spec fn descriptor() -> TypeDescriptor {
        TypeDescriptor::I32T
    }

    open spec fn valid(m: int) -> bool {
        fits_signed(m, 4)
    }

    open spec fn encoding(m: int) -> Seq<u8> {
        le_bytes(to_unsigned(m, 4), 4)
    }

    open spec fn parse(s: Seq<u8>, pos: int) -> Result<(int, int), DecodeError> {
        parse_int(s, pos, 4)
    }

    fn write(&self, w: &mut ReverseWriter) -> (r: Result<(), EncodeError>) {
        proof {
            lemma_le_bytes_len(to_unsigned(*self as int, 4), 4);
            lemma_pow256_16();
        }
        write_uint(w, twos_complement(*self as i128, 4), 4)
    }

    fn read(input: &'a [u8], pos: usize) -> (r: Result<(i32, usize), DecodeError>) {
        let (v, p) = read_uint(input, pos, 4)?;
        proof {
            lemma_le_value_bound(input@.subrange(pos as int, pos + 4));
            lemma_pow256_16();
        }
        Ok((from_twos_complement(v, 4) as i32, p))
    }

    proof fn lemma_round_trip(m: int, s: Seq<u8>, pos: int) {
        lemma_pow256_16();
        lemma_le_bytes_len(to_unsigned(m, 4), 4);
        lemma_parse_uint_encoded(s, pos, to_unsigned(m, 4), 4);
    }

    proof fn lemma_prefix(t: Seq<u8>, s: Seq<u8>, pos: int) {
        lemma_parse_uint_prefix(t, s, pos, 4);
    }
}

impl<'a> MaybeBorrowed<'a> for i64 {
    type Model = int;

    open spec fn model(&self) -> int {
        *self as int
    }

    open spec fn descriptor() -> TypeDescriptor {
        TypeDescriptor::I64T
    }

    open spec fn valid(m: int) -> bool {
        fits_signed(m, 8)
    }

    open spec fn encoding(m: int) -> Seq<u8> {
        le_bytes(to_unsigned(m, 8), 8)
    }

    open spec fn parse(s: Seq<u8>, pos: int) -> Result<(int, int), DecodeError> {
        parse_int(s, pos, 8)
    }

    fn write(&self, w: &mut ReverseWriter) -> (r: Result<(), EncodeError>) {
        proof {
            lemma_le_bytes_len(to_unsigned(*self as int, 8), 8);
            lemma_pow256_16();
        }
        write_uint(w, twos_complement(*self as i128, 8), 8)
    }

    fn read(input: &'a [u8], pos: usize) -> (r: Result<(i64, usize), DecodeError>) {
        let (v, p) = read_uint(input, pos, 8)?;
        proof {
            lemma_le_value_bound(input@.subrange(pos as int, pos + 8));
            lemma_pow256_16();
        }
        Ok((from_twos_complement(v, 8) as i64, p))
    }

    proof fn lemma_round_trip(m: int, s: Seq<u8>, pos: int) {
        lemma_pow256_16();
        lemma_le_bytes_len(to_unsigned(m, 8), 8);
        lemma_parse_uint_encoded(s, pos, to_unsigned(m, 8), 8);
    }

    proof fn lemma_prefix(t: Seq<u8>, s: Seq<u8>, pos: int) {
        lemma_parse_uint_prefix(t, s, pos, 8);
    }
}

impl<'a> MaybeBorrowed<'a> for i128 {
    type Model = int;

    open spec fn model(&self) -> int {
        *self as int
    }

    open spec fn descriptor() -> TypeDescriptor {
        TypeDescriptor::IntNT(16)
    }

    open spec fn valid(m: int) -> bool {
        fits_signed(m, 16)
    }

    open spec fn encoding(m: int) -> Seq<u8> {
        le_bytes(to_unsigned(m, 16), 16)
    }

    open spec fn parse(s: Seq<u8>, pos: int) -> Result<(int, int), DecodeError> {
        parse_int(s, pos, 16)
    }

    fn write(&self, w: &mut ReverseWriter) -> (r: Result<(), EncodeError>) {
        proof {
            lemma_le_bytes_len(to_unsigned(*self as int, 16), 16);
            lemma_pow256_16();
        }
        write_uint(w, twos_complement(*self as i128, 16), 16)
    }

    fn read(input: &'a [u8], pos: usize) -> (r: Result<(i128, usize), DecodeError>) {
        let (v, p) = read_uint(input, pos, 16)?;
        proof {
            lemma_le_value_bound(input@.subrange(pos as int, pos + 16));
            lemma_pow256_16();
        }
        Ok((from_twos_complement(v, 16) as i128, p))
    }

    proof fn lemma_round_trip(m: int, s: Seq<u8>, pos: int) {
        lemma_pow256_16();
        lemma_le_bytes_len(to_unsigned(m, 16), 16);
        lemma_parse_uint_encoded(s, pos, to_unsigned(m, 16), 16);
    }

    proof fn lemma_prefix(t: Seq<u8>, s: Seq<u8>, pos: int) {
        lemma_parse_uint_prefix(t, s, pos, 16);
    }
}

/// A point in time, as nanoseconds since the Unix epoch.
#[derive(Debug, Clone, Copy, PartialEq, Eq)]
pub struct Time {
    pub unix_nanos: i128,
}

/// A span of time, in nanoseconds.
#[derive(Debug, Clone, Copy, PartialEq, Eq)]
pub struct Duration {
    pub nanos: i128,
}

/// Encoded as its nanoseconds, a 16-byte signed integer.
impl<'a> MaybeBorrowed<'a> for Time {
    type Model = int;

    open spec fn model(&self) -> int {
        self.unix_nanos as int
    }

    open spec fn descriptor() -> TypeDescriptor {
        TypeDescriptor::TimeT
    }

    open spec fn valid(m: int) -> bool {
        <i128 as MaybeBorrowed<'a>>::valid(m)
    }

    open spec fn encoding(m: int) -> Seq<u8> {
        <i128 as MaybeBorrowed<'a>>::encoding(m)
    }

    open spec fn parse(s: Seq<u8>, pos: int) -> Result<(int, int), DecodeError> {
        <i128 as MaybeBorrowed<'a>>::parse(s, pos)
    }

    fn write(&self, w: &mut ReverseWriter) -> (r: Result<(), EncodeError>) {
        <i128 as MaybeBorrowed<'a>>::write(&self.unix_nanos, w)
    }

    fn read(input: &'a [u8], pos: usize) -> (r: Result<(Time, usize), DecodeError>) {
        let (v, p) = <i128 as MaybeBorrowed<'a>>::read(input, pos)?;
        Ok((Time { unix_nanos: v }, p))
    }

    proof fn lemma_round_trip(m: int, s: Seq<u8>, pos: int) {
        <i128 as MaybeBorrowed<'a>>::lemma_round_trip(m, s, pos);
    }

    proof fn lemma_prefix(t: Seq<u8>, s: Seq<u8>, pos: int) {
        <i128 as MaybeBorrowed<'a>>::lemma_prefix(t, s, pos);
    }
}

/// Encoded as its nanoseconds, a 16-byte signed integer.
impl<'a> MaybeBorrowed<'a> for Duration {
    type Model = int;

    open spec fn model(&self) -> int {
        self.nanos as int
    }

    open spec fn descriptor() -> TypeDescriptor {
        TypeDescriptor::DurationT
    }

    open spec fn valid(m: int) -> bool {
        <i128 as MaybeBorrowed<'a>>::valid(m)
    }

    open spec fn encoding(m: int) -> Seq<u8> {
        <i128 as MaybeBorrowed<'a>>::encoding(m)
    }

    open spec fn parse(s: Seq<u8>, pos: int) -> Result<(int, int), DecodeError> {
        <i128 as MaybeBorrowed<'a>>::parse(s, pos)
    }

    fn write(&self, w: &mut ReverseWriter) -> (r: Result<(), EncodeError>) {
        <i128 as MaybeBorrowed<'a>>::write(&self.nanos, w)
    }

    fn read(input: &'a [u8], pos: usize) -> (r: Result<(Duration, usize), DecodeError>) {
        let (v, p) = <i128 as MaybeBorrowed<'a>>::read(input, pos)?;
        Ok((Duration { nanos: v }, p))
    }

    proof fn lemma_round_trip(m: int, s: Seq<u8>, pos: int) {
        <i128 as MaybeBorrowed<'a>>::lemma_round_trip(m, s, pos);
    }

    proof fn lemma_prefix(t: Seq<u8>, s: Seq<u8>, pos: int) {
        <i128 as MaybeBorrowed<'a>>::lemma_prefix(t, s, pos);
    }
}

impl Value for u8 {
    type MaybeBorrowed<'a> = u8;
}

impl Value for u16 {
    type MaybeBorrowed<'a> = u16;
}

impl Value for u32 {
    type MaybeBorrowed<'a> = u32;
}

impl Value for u64 {
    type MaybeBorrowed<'a> = u64;
}

impl Value for u128 {
    type MaybeBorrowed<'a> = u128;
}

impl Value for i8 {
    type MaybeBorrowed<'a> = i8;
}

impl Value for i16 {
    type MaybeBorrowed<'a> = i16;
}

impl Value for i32 {
    type MaybeBorrowed<'a> = i32;
}

impl Value for i64 {
    type MaybeBorrowed<'a> = i64;
}

impl Value for i128 {
    type MaybeBorrowed<'a> = i128;
}

impl Value for bool {
    type MaybeBorrowed<'a> = bool;
}

impl Value for Time {
    type MaybeBorrowed<'a> = Time;
}

impl Value for Duration {
    type MaybeBorrowed<'a> = Duration;
}

/// A string is decoded as a view of the input.
impl Value for str {
    type MaybeBorrowed<'a> = &'a str;
}

impl<V: Value> Value for Option<V> {
    type MaybeBorrowed<'a> = Option<V::MaybeBorrowed<'a>>;
}

/// A list is decoded as a vector of possibly borrowed items.
impl<V: Value> Value for [V] {
    type MaybeBorrowed<'a> = Vec<V::MaybeBorrowed<'a>>;
}

impl ResponseValue for () {
    type MaybeBorrowed<'a> = ();
}

impl<V: Value> ResponseValue for V {
    type MaybeBorrowed<'a> = V::MaybeBorrowed<'a>;
}

/// The largest unsigned integer of `width` bytes.
fn max_of_width(width: usize) -> (r: u128)
    requires
        width == 1 || width == 2 || width == 4 || width == 8 || width == 16,
    ensures
        r + 1 == pow256(width as nat),
{
    proof {
        lemma_pow256_16();
    }
    if width == 1 {
        0xff
    } else if width == 2 {
        0xffff
    } else if width == 4 {
        0xffff_ffff
    } else if width == 8 {
        0xffff_ffff_ffff_ffff
    } else {
        0xffff_ffff_ffff_ffff_ffff_ffff_ffff_ffff
    }
}

/// The two's complement of `v` in `width` bytes.
fn twos_complement(v: i128, width: usize) -> (r: u128)
    requires
        width == 1 || width == 2 || width == 4 || width == 8 || width == 16,
        fits_signed(v as int, width as nat),
    ensures
        r as nat == to_unsigned(v as int, width as nat),
{
    let max = max_of_width(width);
    if v >= 0 {
        v as u128
    } else {
        max - ((-(v + 1)) as u128)
    }
}

/// The signed integer whose two's complement in `width` bytes is `u`.
fn from_twos_complement(u: u128, width: usize) -> (r: i128)
    requires
        width == 1 || width == 2 || width == 4 || width == 8 || width == 16,
        (u as nat) < pow256(width as nat),
    ensures
        r as int == from_unsigned(u as nat, width as nat),
        fits_signed(r as int, width as nat),
{
    let max = max_of_width(width);
    let half = max / 2 + 1;
    if u >= half {
        -(((max - u) as i128)) - 1
    } else {
        u as i128
    }
}

} // verus!
