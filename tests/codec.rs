use ixc_schema::binary::NativeBinaryCodec;
use ixc_schema::writer::VecWriterFactory;
use ixc_schema::decoder::{read_discriminant, read_str, read_uint};
use ixc_schema::encoder::{write_discriminant, write_str, write_u32};
use ixc_schema::error::{DecodeError, EncodeError};
use ixc_schema::writer::{BoundedWriterFactory, ReverseWriter};

type Record<'a> = (u32, (&'a str, Vec<&'a str>));

#[test]
fn record_round_trip_borrows_name() {
    let value: Record = (7, ("abc", vec!["x", "y"]));
    let bytes = NativeBinaryCodec::encode_value(&value, &VecWriterFactory).unwrap();
    assert_eq!(
        bytes,
        vec![7, 0, 0, 0, 3, 0, 0, 0, b'a', b'b', b'c', 2, 0, 0, 0, 1, 0, 0, 0, b'x', 1, 0, 0, 0, b'y']
    );
    let decoded: Record = NativeBinaryCodec::decode_value(&bytes).unwrap();
    assert_eq!(decoded.0, 7);
    let name = decoded.1 .0;
    assert_eq!(name, "abc");
    let start = bytes.as_ptr() as usize;
    let at = name.as_ptr() as usize;
    assert_eq!(at, start + 8);
    let tags = &decoded.1 .1;
    assert_eq!(tags.len(), 2);
    assert_eq!(tags[0], "x");
    assert_eq!(tags[1], "y");
}

#[test]
fn absent_nullable_is_not_zero() {
    let value: Option<u32> = None;
    let bytes = NativeBinaryCodec::encode_value(&value, &VecWriterFactory).unwrap();
    assert_eq!(bytes, vec![0]);
    let decoded: Option<u32> = NativeBinaryCodec::decode_value(&bytes).unwrap();
    assert_eq!(decoded, None);
    assert_ne!(decoded, Some(0));
}

#[test]
fn present_nullable_round_trip() {
    let value: Option<u32> = Some(0);
    let bytes = NativeBinaryCodec::encode_value(&value, &VecWriterFactory).unwrap();
    assert_eq!(bytes, vec![1, 0, 0, 0, 0]);
    let decoded: Option<u32> = NativeBinaryCodec::decode_value(&bytes).unwrap();
    assert_eq!(decoded, Some(0));
}

#[test]
fn integers_round_trip_little_endian() {
    let bytes = NativeBinaryCodec::encode_value(&0x0102_0304u32, &VecWriterFactory).unwrap();
    assert_eq!(bytes, vec![4, 3, 2, 1]);
    assert_eq!(NativeBinaryCodec::decode_value::<u32>(&bytes), Ok(0x0102_0304));
    let bytes = NativeBinaryCodec::encode_value(&u8::MAX, &VecWriterFactory).unwrap();
    assert_eq!(NativeBinaryCodec::decode_value::<u8>(&bytes), Ok(u8::MAX));
    let bytes = NativeBinaryCodec::encode_value(&0xbeefu16, &VecWriterFactory).unwrap();
    assert_eq!(bytes, vec![0xef, 0xbe]);
    assert_eq!(NativeBinaryCodec::decode_value::<u16>(&bytes), Ok(0xbeef));
    let bytes = NativeBinaryCodec::encode_value(&u64::MAX, &VecWriterFactory).unwrap();
    assert_eq!(bytes.len(), 8);
    assert_eq!(NativeBinaryCodec::decode_value::<u64>(&bytes), Ok(u64::MAX));
    let bytes = NativeBinaryCodec::encode_value(&u128::MAX, &VecWriterFactory).unwrap();
    assert_eq!(bytes, vec![0xff; 16]);
    assert_eq!(NativeBinaryCodec::decode_value::<u128>(&bytes), Ok(u128::MAX));
}

#[test]
fn booleans_round_trip() {
    assert_eq!(NativeBinaryCodec::encode_value(&true, &VecWriterFactory).unwrap(), vec![1]);
    assert_eq!(NativeBinaryCodec::encode_value(&false, &VecWriterFactory).unwrap(), vec![0]);
    assert_eq!(NativeBinaryCodec::decode_value::<bool>(&[1]), Ok(true));
    assert_eq!(NativeBinaryCodec::decode_value::<bool>(&[0]), Ok(false));
    assert_eq!(NativeBinaryCodec::decode_value::<bool>(&[2]), Err(DecodeError::InvalidValue));
}

#[test]
fn nested_lists_round_trip() {
    let value: Vec<Vec<u8>> = vec![vec![1, 2], vec![], vec![3]];
    let bytes = NativeBinaryCodec::encode_value(&value, &VecWriterFactory).unwrap();
    assert_eq!(bytes, vec![3, 0, 0, 0, 2, 0, 0, 0, 1, 2, 0, 0, 0, 0, 1, 0, 0, 0, 3]);
    let decoded: Vec<Vec<u8>> = NativeBinaryCodec::decode_value(&bytes).unwrap();
    assert_eq!(decoded, value);
}

#[test]
fn empty_list_and_empty_string() {
    let value: (Vec<u32>, &[u8]) = (vec![], &[]);
    let bytes = NativeBinaryCodec::encode_value(&value, &VecWriterFactory).unwrap();
    assert_eq!(bytes, vec![0; 8]);
    let decoded: (Vec<u32>, &[u8]) = NativeBinaryCodec::decode_value(&bytes).unwrap();
    assert!(decoded.0.is_empty());
    assert!(decoded.1.is_empty());
}

#[test]
fn every_truncation_is_refused() {
    let value: Record = (7, ("abc", vec!["x", "y"]));
    let bytes = NativeBinaryCodec::encode_value(&value, &VecWriterFactory).unwrap();
    for k in 0..bytes.len() {
        let cut = &bytes[..k];
        assert!(NativeBinaryCodec::decode_value::<Record>(cut).is_err(), "cut at {}", k);
    }
    let nullable = NativeBinaryCodec::encode_value(&Some(vec![5u64]), &VecWriterFactory).unwrap();
    for k in 0..nullable.len() {
        assert!(NativeBinaryCodec::decode_value::<Option<Vec<u64>>>(&nullable[..k]).is_err());
    }
}

#[test]
fn unknown_nullable_tag_is_refused() {
    assert_eq!(
        NativeBinaryCodec::decode_value::<Option<u32>>(&[2, 0, 0, 0, 0]),
        Err(DecodeError::UnknownVariant)
    );
}

#[test]
fn unknown_discriminant_is_refused() {
    assert_eq!(read_discriminant(&[2], 0, 3), Ok((2, 1)));
    assert_eq!(read_discriminant(&[3], 0, 3), Err(DecodeError::UnknownVariant));
    assert_eq!(read_discriminant(&[], 0, 3), Err(DecodeError::Truncated));
    let mut w = ReverseWriter::new();
    write_discriminant(&mut w, 1).unwrap();
    assert_eq!(w.finish(), vec![1]);
}

#[test]
fn decode_errors() {
    assert_eq!(NativeBinaryCodec::decode_value::<u32>(&[1, 2, 3]), Err(DecodeError::Truncated));
    assert_eq!(
        NativeBinaryCodec::decode_value::<&[u8]>(&[5, 0, 0, 0, b'a']),
        Err(DecodeError::LengthOutOfRange)
    );
    assert_eq!(
        NativeBinaryCodec::decode_value::<u8>(&[1, 2]),
        Err(DecodeError::LengthOutOfRange)
    );
    assert_eq!(read_str(&[0xff, 0xff, 0xff, 0xff], 0), Err(DecodeError::LengthOutOfRange));
}

#[test]
fn writer_prepends() {
    let mut w = ReverseWriter::new();
    write_str(&mut w, b"hi").unwrap();
    write_u32(&mut w, 9).unwrap();
    assert_eq!(w.len(), 10);
    let out = w.finish();
    assert_eq!(out, vec![9, 0, 0, 0, 2, 0, 0, 0, b'h', b'i']);
    assert_eq!(read_uint(&out, 0, 4), Ok((9, 4)));
    assert_eq!(read_str(&out, 4), Ok((&b"hi"[..], 10)));
}

#[test]
fn strings_must_be_utf8() {
    let bytes = NativeBinaryCodec::encode_value(&"h\u{e9}", &VecWriterFactory).unwrap();
    assert_eq!(bytes, vec![3, 0, 0, 0, b'h', 0xc3, 0xa9]);
    assert_eq!(NativeBinaryCodec::decode_value::<&str>(&bytes), Ok("h\u{e9}"));
    let bad = [2, 0, 0, 0, 0xc3, 0x28];
    assert_eq!(NativeBinaryCodec::decode_value::<&str>(&bad), Err(DecodeError::InvalidValue));
    let raw: &[u8] = NativeBinaryCodec::decode_value(&bad).unwrap();
    assert_eq!(raw, &[0xc3, 0x28]);
}

#[test]
fn bounded_sink_refuses_overflow() {
    let small = BoundedWriterFactory { capacity: 3 };
    assert_eq!(NativeBinaryCodec::encode_value(&7u32, &small), Err(EncodeError::CapacityExceeded));
    let exact = BoundedWriterFactory { capacity: 4 };
    assert_eq!(NativeBinaryCodec::encode_value(&7u32, &exact), Ok(vec![7, 0, 0, 0]));
    let value: Record = (7, ("abc", vec!["x", "y"]));
    let tight = BoundedWriterFactory { capacity: 24 };
    assert_eq!(NativeBinaryCodec::encode_value(&value, &tight), Err(EncodeError::CapacityExceeded));
    let mut w = ReverseWriter::with_limit(2);
    assert_eq!(write_u32(&mut w, 1), Err(EncodeError::CapacityExceeded));
    assert_eq!(w.len(), 0);
    assert_eq!(w.remaining(), 2);
}
