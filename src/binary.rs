//! The codec facade: whole values to and from byte buffers.
use vstd::prelude::*;
use crate::error::{DecodeError, EncodeError};
use crate::value::MaybeBorrowed;
use crate::wire::{parse_str, parse_utf8_str};
use crate::writer::ReverseWriterFactory;

verus! {

/// What decoding a whole buffer as a `V` gives: the value must end exactly
/// where the buffer does.
pub open spec fn decoded<'a, V: MaybeBorrowed<'a>>(s: Seq<u8>) -> Result<V::Model, DecodeError> {
    match V::parse(s, 0) {
        Err(e) => Err(e),
        Ok((m, p)) => if p == s.len() {
            Ok(m)
        } else {
            Err(DecodeError::LengthOutOfRange)
        },
    }
}

/// The binary codec: values are written back to front and read front to back.
pub struct NativeBinaryCodec;

impl NativeBinaryCodec {
    /// Encodes `value` into a writer of `writer_factory` and returns the
    /// factory's output. It fails where the value cannot be represented or
    /// does not fit the writer.
    pub fn encode_value<'a, V: MaybeBorrowed<'a>, F: ReverseWriterFactory>(value: &V, writer_factory: &F) -> (r: Result<
        F::Output,
        EncodeError,
    >)
        ensures
            r is Ok ==> V::valid(value.model()),
            r is Ok ==> V::encoding(value.model()).len() <= writer_factory.capacity(),
            r is Ok ==> F::output_bytes(r->Ok_0) == V::encoding(value.model()),
            V::valid(value.model()) && V::encoding(value.model()).len() <= writer_factory.capacity()
                ==> r is Ok,
    {
        let mut w = writer_factory.new_writer();
        value.write(&mut w)?;
        proof {
            w.lemma_within_limit();
        }
        assert(w@ =~= V::encoding(value.model()));
        Ok(writer_factory.finish(w))
    }

    /// Decodes a whole buffer as a `V`. Strings and byte lists in the result
    /// are views of `input`.
    pub fn decode_value<'a, V: MaybeBorrowed<'a>>(input: &'a [u8]) -> (r: Result<V, DecodeError>)
        ensures
            match r {
                Ok(v) => decoded::<'a, V>(input@) == Ok::<V::Model, DecodeError>(v.model()),
                Err(e) => decoded::<'a, V>(input@) == Err::<V::Model, DecodeError>(e),
            },
    {
        let (v, p) = V::read(input, 0)?;
        if p != input.len() {
            return Err(DecodeError::LengthOutOfRange);
        }
        Ok(v)
    }
}

/// Decoding what was encoded gives back the value: for every value the
/// format can represent, `decode(encode(v)) == v`.
pub proof fn lemma_decode_encoded<'a, V: MaybeBorrowed<'a>>(m: V::Model)
    requires
        V::valid(m),
    ensures
        decoded::<'a, V>(V::encoding(m)) == Ok::<V::Model, DecodeError>(m),
{
    let e = V::encoding(m);
    assert(e.subrange(0, e.len() as int) =~= e);
    V::lemma_round_trip(m, e, 0);
}

/// An encoding cut short at any byte boundary fails to decode.
pub proof fn lemma_truncated_fails<'a, V: MaybeBorrowed<'a>>(m: V::Model, k: int)
    requires
        V::valid(m),
        0 <= k < V::encoding(m).len(),
    ensures
        decoded::<'a, V>(V::encoding(m).subrange(0, k)) is Err,
{
    let e = V::encoding(m);
    let t = e.subrange(0, k);
    assert(e.subrange(0, e.len() as int) =~= e);
    V::lemma_round_trip(m, e, 0);
    if V::parse(t, 0) is Ok {
        assert(t =~= e.subrange(0, t.len() as int));
        V::lemma_prefix(t, e, 0);
    }
}

/// A nullable value whose tag byte is neither `0` nor `1` is refused as an
/// unknown variant.
pub proof fn lemma_unknown_tag_refused<'a, V: MaybeBorrowed<'a>>(s: Seq<u8>)
    requires
        s.len() > 0,
        s[0] > 1,
    ensures
        decoded::<'a, Option<V>>(s) == Err::<Option<V::Model>, DecodeError>(DecodeError::UnknownVariant),
{
}

/// A decoded string or byte string is the run of input bytes that ends where
/// decoding stopped: the reader returns that run as a view of the input,
/// never a copy.
pub proof fn lemma_decoded_str_is_input_view(s: Seq<u8>, pos: int)
    ensures
        parse_str(s, pos) is Ok ==> parse_str(s, pos)->Ok_0.0 == s.subrange(
            parse_str(s, pos)->Ok_0.1 - parse_str(s, pos)->Ok_0.0.len(),
            parse_str(s, pos)->Ok_0.1,
        ),
        parse_utf8_str(s, pos) is Ok ==> parse_utf8_str(s, pos) == parse_str(s, pos),
{
}

} // verus!
