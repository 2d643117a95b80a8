use history_checker::ops::{decode_value, value_factory, BatchOp, Op, OpReader, OpReaderError};
use history_checker::util::{slice_to_u32, u32_to_vec};

#[test]
fn op_serialization_round_trip() {
    assert_eq!(Op::decode(&Op::encode(&Op::Put)).unwrap(), Op::Put);
    assert_eq!(Op::decode(&Op::encode(&Op::Del(0))).unwrap(), Op::Del(0));
    assert_eq!(
        Op::decode(&Op::encode(&Op::Del(255))).unwrap(),
        Op::Del(255)
    );
    assert_eq!(Op::decode(&Op::encode(&Op::Id)).unwrap(), Op::Id);
    assert_eq!(
        Op::decode(&Op::encode(&Op::Batched(vec![
            BatchOp::Put,
            BatchOp::Del(0),
            BatchOp::Del(255)
        ])))
        .unwrap(),
        Op::Batched(vec![BatchOp::Put, BatchOp::Del(0), BatchOp::Del(255)])
    );
    assert_eq!(Op::decode(&Op::encode(&Op::Restart)).unwrap(), Op::Restart);
    assert_eq!(Op::decode(&Op::encode(&Op::Flush)).unwrap(), Op::Flush);
    assert_eq!(
        Op::decode(&Op::encode(&Op::DelayedCrash)).unwrap(),
        Op::DelayedCrash
    );
    assert_eq!(
        Op::decode(&Op::encode(&Op::CrashAndRecoveryVirtualOp(1))).unwrap(),
        Op::CrashAndRecoveryVirtualOp(1)
    );
    assert_eq!(
        Op::decode(&Op::encode(&Op::CrashAndRecoveryVirtualOp(78))).unwrap(),
        Op::CrashAndRecoveryVirtualOp(78)
    );
    assert_eq!(
        Op::decode(&Op::encode(&Op::IdResultVirtualOp(0))).unwrap(),
        Op::IdResultVirtualOp(0)
    );
    assert_eq!(
        Op::decode(&Op::encode(&Op::IdResultVirtualOp(123456))).unwrap(),
        Op::IdResultVirtualOp(123456)
    );
}

#[test]
fn op_encode_exact_text() {
    assert_eq!(Op::Put.encode(), b"s".to_vec());
    assert_eq!(Op::Del(7).encode(), b"d7".to_vec());
    assert_eq!(Op::Del(255).encode(), b"d255".to_vec());
    assert_eq!(Op::Id.encode(), b"i".to_vec());
    assert_eq!(
        Op::Batched(vec![BatchOp::Put, BatchOp::Del(10), BatchOp::Put]).encode(),
        b"bsd10s".to_vec()
    );
    assert_eq!(Op::Batched(vec![]).encode(), b"b".to_vec());
    assert_eq!(Op::Restart.encode(), b"-".to_vec());
    assert_eq!(Op::Flush.encode(), b"f".to_vec());
    assert_eq!(Op::DelayedCrash.encode(), b"_".to_vec());
    assert_eq!(
        Op::CrashAndRecoveryVirtualOp(4294967295).encode(),
        b"c4294967295".to_vec()
    );
    assert_eq!(
        Op::IdResultVirtualOp(18446744073709551615).encode(),
        b"I18446744073709551615".to_vec()
    );
}

#[test]
fn op_decode_rejects_what_is_no_operation() {
    assert!(Op::decode(b"").is_err());
    assert!(Op::decode(b"x").is_err());
    assert!(Op::decode(b"d").is_err());
    assert!(Op::decode(b"d256").is_err());
    assert!(Op::decode(b"d1x").is_err());
    assert!(Op::decode(b"c4294967296").is_err());
    assert!(Op::decode(b"I18446744073709551616").is_err());
    assert!(Op::decode(b"bd").is_err());
    assert!(Op::decode(b"bds").is_err());
    assert!(Op::decode(b"bx").is_err());
    assert!(Op::decode(b"bd300").is_err());
}

#[test]
fn op_decode_takes_leading_zeros_and_long_batches() {
    assert_eq!(Op::decode(b"d007").unwrap(), Op::Del(7));
    assert_eq!(Op::decode(b"c000").unwrap(), Op::CrashAndRecoveryVirtualOp(0));
    assert_eq!(
        Op::decode(b"bd1d22sd3").unwrap(),
        Op::Batched(vec![
            BatchOp::Del(1),
            BatchOp::Del(22),
            BatchOp::Put,
            BatchOp::Del(3)
        ])
    );
    // the kind is read from the first byte alone
    assert_eq!(Op::decode(b"sx").unwrap(), Op::Put);
    assert_eq!(Op::decode(b"-1").unwrap(), Op::Restart);
}

#[test]
fn reader_frames_lines() {
    let reader = OpReader { buffer: b"d12\n".to_vec() };
    assert_eq!(reader.decode_line().unwrap().unwrap(), Op::Del(12));
    let reader = OpReader { buffer: b"d12".to_vec() };
    assert!(reader.decode_line().is_none());
    let reader = OpReader { buffer: Vec::new() };
    assert!(reader.decode_line().is_none());
    let reader = OpReader { buffer: b"zz\n".to_vec() };
    assert!(matches!(
        reader.decode_line(),
        Some(Err(OpReaderError::Decode(_)))
    ));
    let from_decode: OpReaderError = Op::decode(b"?").unwrap_err().into();
    assert!(matches!(from_decode, OpReaderError::Decode(_)));
    let from_io: OpReaderError =
        std::io::Error::new(std::io::ErrorKind::UnexpectedEof, "cut short").into();
    assert!(matches!(from_io, OpReaderError::IO(_)));
    let reader = OpReader { buffer: b"\n".to_vec() };
    assert!(matches!(
        reader.decode_line(),
        Some(Err(OpReaderError::Decode(_)))
    ));
}

#[test]
fn stored_values() {
    // high byte 1: not a multiple of 4, two bytes
    assert_eq!(value_factory(0x0102), vec![1, 2]);
    // high byte 0: padded with 0 * 64 * counter bytes, that is none
    assert_eq!(value_factory(5), vec![0, 5]);
    // high byte 4: padded with 4 * 64 * 1025 low bytes
    let long = value_factory(0x0401);
    assert_eq!(long.len(), 2 + 4 * 64 * 0x0401);
    assert_eq!(long[0], 4);
    assert_eq!(long[1], 1);
    assert!(long[2..].iter().all(|b| *b == 1));
    assert_eq!(decode_value(&long), 0x0401);
    assert_eq!(decode_value(&value_factory(0x0102)), 0x0102);
    assert_eq!(decode_value(&value_factory(65535)), 65535);
    assert_eq!(decode_value(&[0, 0]), 0);
}

#[test]
fn big_endian_bytes() {
    assert_eq!(u32_to_vec(0), vec![0, 0, 0, 0]);
    assert_eq!(u32_to_vec(1), vec![0, 0, 0, 1]);
    assert_eq!(u32_to_vec(0x01020304), vec![1, 2, 3, 4]);
    assert_eq!(u32_to_vec(u32::MAX), vec![255, 255, 255, 255]);
    assert_eq!(slice_to_u32(&[1, 2, 3, 4]), 0x01020304);
    assert_eq!(slice_to_u32(&[0, 0, 1, 0, 99]), 256);
    assert_eq!(slice_to_u32(&u32_to_vec(123456789)), 123456789);
}
