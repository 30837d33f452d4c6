use ixc_schema::binary::NativeBinaryCodec;
use ixc_schema::writer::VecWriterFactory;
use ixc_schema::error::DecodeError;
use ixc_schema::value::{Duration, Time, Value};

#[test]
fn negative_integers_use_twos_complement() {
    let bytes = NativeBinaryCodec::encode_value(&-1i32, &VecWriterFactory).unwrap();
    assert_eq!(bytes, vec![0xff; 4]);
    assert_eq!(NativeBinaryCodec::decode_value::<i32>(&bytes), Ok(-1));
    let bytes = NativeBinaryCodec::encode_value(&-2i16, &VecWriterFactory).unwrap();
    assert_eq!(bytes, vec![0xfe, 0xff]);
    assert_eq!(NativeBinaryCodec::decode_value::<i16>(&bytes), Ok(-2));
}

#[test]
fn signed_extremes_round_trip() {
    for v in [i8::MIN, -1, 0, 1, i8::MAX] {
        let bytes = NativeBinaryCodec::encode_value(&v, &VecWriterFactory).unwrap();
        assert_eq!(NativeBinaryCodec::decode_value::<i8>(&bytes), Ok(v));
    }
    for v in [i64::MIN, -7, 0, i64::MAX] {
        let bytes = NativeBinaryCodec::encode_value(&v, &VecWriterFactory).unwrap();
        assert_eq!(NativeBinaryCodec::decode_value::<i64>(&bytes), Ok(v));
    }
    for v in [i128::MIN, -1, i128::MAX] {
        let bytes = NativeBinaryCodec::encode_value(&v, &VecWriterFactory).unwrap();
        assert_eq!(bytes.len(), 16);
        assert_eq!(NativeBinaryCodec::decode_value::<i128>(&bytes), Ok(v));
    }
    let bytes = NativeBinaryCodec::encode_value(&i128::MIN, &VecWriterFactory).unwrap();
    let mut expected = vec![0u8; 15];
    expected.push(0x80);
    assert_eq!(bytes, expected);
}

#[test]
fn time_and_duration_round_trip() {
    let t = Time { unix_nanos: 1_700_000_000_000_000_000 };
    let d = Duration { nanos: -5 };
    let bytes = NativeBinaryCodec::encode_value(&(t, d), &VecWriterFactory).unwrap();
    assert_eq!(bytes.len(), 32);
    assert_eq!(bytes[16], 0xfb);
    let back: (Time, Duration) = NativeBinaryCodec::decode_value(&bytes).unwrap();
    assert_eq!(back, (t, d));
    assert_eq!(NativeBinaryCodec::decode_value::<Time>(&bytes[..15]), Err(DecodeError::Truncated));
}

#[test]
fn scope_free_handles_decode_borrowed() {
    let bytes = NativeBinaryCodec::encode_value(&"hello", &VecWriterFactory).unwrap();
    let s: <str as Value>::MaybeBorrowed<'_> = NativeBinaryCodec::decode_value(&bytes).unwrap();
    assert_eq!(s, "hello");
    let bytes = NativeBinaryCodec::encode_value(&vec![Some(1u32), None], &VecWriterFactory).unwrap();
    let list: <[Option<u32>] as Value>::MaybeBorrowed<'_> = NativeBinaryCodec::decode_value(&bytes).unwrap();
    assert_eq!(list, vec![Some(1), None]);
}
