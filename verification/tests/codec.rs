use lsm_tree::blob::{MaybeInlineValue, ValueHandle};
use lsm_tree::coding::{put_u32_be, put_u64_be, read_u32_be, read_u64_be, DecodeError};

#[test]
fn be_u32_round_trip() {
    let mut buf = Vec::new();
    put_u32_be(&mut buf, 0x0102_0304);
    assert_eq!(buf, vec![1, 2, 3, 4]);
    assert_eq!(read_u32_be(&buf, 0), 0x0102_0304);
}

#[test]
fn be_u64_round_trip() {
    let mut buf = Vec::new();
    put_u64_be(&mut buf, 0x0102_0304_0506_0708);
    assert_eq!(buf, vec![1, 2, 3, 4, 5, 6, 7, 8]);
    assert_eq!(read_u64_be(&buf, 0), 0x0102_0304_0506_0708);
}

#[test]
fn value_handle_round_trip() {
    let h = ValueHandle { segment_id: 5, offset: 1234 };
    let mut buf = Vec::new();
    h.encode_into(&mut buf);
    assert_eq!(buf.len(), 16);
    let (back, end) = ValueHandle::decode_from(&buf, 0).unwrap();
    assert_eq!(back, h);
    assert_eq!(end, 16);
}

#[test]
fn value_handle_short_input() {
    let buf = vec![0u8; 10];
    assert_eq!(
        ValueHandle::decode_from(&buf, 0),
        Err(DecodeError::UnexpectedEof)
    );
}

#[test]
fn inline_value_round_trip() {
    let v = MaybeInlineValue::Inline(b"hello".to_vec());
    let mut buf = Vec::new();
    v.encode_into(&mut buf);
    assert_eq!(buf, vec![0, 0, 0, 0, 5, b'h', b'e', b'l', b'l', b'o']);
    let (back, end) = MaybeInlineValue::decode_from(&buf, 0).unwrap();
    assert_eq!(end, buf.len());
    match back {
        MaybeInlineValue::Inline(bytes) => assert_eq!(bytes, b"hello".to_vec()),
        MaybeInlineValue::Indirect { .. } => panic!("wrong variant"),
    }
}

#[test]
fn indirect_value_round_trip() {
    let v = MaybeInlineValue::Indirect {
        vhandle: ValueHandle { segment_id: 9, offset: 77 },
        size: 4096,
    };
    let mut buf = vec![0xaa];
    v.encode_into(&mut buf);
    let (back, end) = MaybeInlineValue::decode_from(&buf, 1).unwrap();
    assert_eq!(end, buf.len());
    match back {
        MaybeInlineValue::Indirect { vhandle, size } => {
            assert_eq!(vhandle, ValueHandle { segment_id: 9, offset: 77 });
            assert_eq!(size, 4096);
        }
        MaybeInlineValue::Inline(_) => panic!("wrong variant"),
    }
}

#[test]
fn invalid_tag_is_rejected() {
    let buf = vec![7u8, 0, 0, 0, 0];
    assert_eq!(
        MaybeInlineValue::decode_from(&buf, 0),
        Err(DecodeError::InvalidTag(7))
    );
}

#[test]
fn truncated_inline_is_rejected() {
    // The length prefix announces five bytes; only three follow.
    let buf = vec![0u8, 0, 0, 0, 5, b'a', b'b', b'c'];
    assert_eq!(
        MaybeInlineValue::decode_from(&buf, 0),
        Err(DecodeError::UnexpectedEof)
    );
    assert_eq!(
        MaybeInlineValue::decode_from(&Vec::new(), 0),
        Err(DecodeError::UnexpectedEof)
    );
}
