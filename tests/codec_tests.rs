use nfs_rs::proto::nfs4::{
    bitmap4_with, Compound4args, Compound4res, NfsOp4, Op4, ResOp4, FATTR4_FILEHANDLE,
    FATTR4_SIZE, FATTR4_TYPE,
};
use nfs_rs::rpc::{
    parse_record_mark, read_record_marked, write_record_marked, RpcCallHeader, RpcMessageType,
    RpcReplyHeader,
};
use nfs_rs::xdr::{
    deserialize_from_slice, encode_fattr4, serialize_to_vec, write_u32, XdrCursor, XdrDeserialize,
    XdrError, XdrSerialize, XdrString,
};

fn enc<T: XdrSerialize>(v: &T) -> Vec<u8> {
    serialize_to_vec(v)
}

#[test]
fn u32_is_big_endian() {
    let mut out = Vec::new();
    write_u32(&mut out, 0x1234_5678);
    assert_eq!(out, vec![0x12, 0x34, 0x56, 0x78]);
    assert_eq!(enc(&7u32), vec![0, 0, 0, 7]);
    let mut cur = XdrCursor::new(vec![0xde, 0xad, 0xbe, 0xef, 1]);
    assert_eq!(cur.read_u32().unwrap(), 0xdead_beef);
    assert_eq!(cur.position(), 4);
    assert_eq!(cur.remaining(), 1);
}

#[test]
fn u64_is_big_endian() {
    assert_eq!(enc(&0x0102_0304_0506_0708u64), vec![1, 2, 3, 4, 5, 6, 7, 8]);
    let back = deserialize_from_slice::<u64>(&[0, 0, 0, 1, 0, 0, 0, 2]).unwrap();
    assert_eq!(back, 0x0000_0001_0000_0002);
}

#[test]
fn i32_is_twos_complement() {
    assert_eq!(enc(&-2i32), vec![0xff, 0xff, 0xff, 0xfe]);
    assert_eq!(deserialize_from_slice::<i32>(&[0xff, 0xff, 0xff, 0xfe]).unwrap(), -2);
    assert_eq!(deserialize_from_slice::<i32>(&[0x80, 0, 0, 0]).unwrap(), i32::MIN);
}

#[test]
fn bool_words() {
    assert_eq!(enc(&true), vec![0, 0, 0, 1]);
    assert_eq!(enc(&false), vec![0, 0, 0, 0]);
    assert_eq!(deserialize_from_slice::<bool>(&[0, 0, 0, 2]).unwrap(), true);
    assert_eq!(deserialize_from_slice::<bool>(&[0, 0, 0, 0]).unwrap(), false);
}

#[test]
fn primitives_round_trip() {
    for v in [0u32, 1, 0x8000_0000, u32::MAX] {
        assert_eq!(deserialize_from_slice::<u32>(&enc(&v)).unwrap(), v);
    }
    for v in [0u64, 1, u64::MAX, 0x1234_5678_9abc_def0] {
        assert_eq!(deserialize_from_slice::<u64>(&enc(&v)).unwrap(), v);
    }
    for v in [0i32, -1, i32::MIN, i32::MAX] {
        assert_eq!(deserialize_from_slice::<i32>(&enc(&v)).unwrap(), v);
    }
    for v in [true, false] {
        assert_eq!(deserialize_from_slice::<bool>(&enc(&v)).unwrap(), v);
    }
}

#[test]
fn opaque_padding_cases() {
    for n in 0usize..9 {
        let data: Vec<u8> = (0..n).map(|i| i as u8 + 1).collect();
        let bytes = enc(&data);
        let pad = (4 - n % 4) % 4;
        assert_eq!(bytes.len(), 4 + n + pad);
        assert_eq!(&bytes[0..4], &(n as u32).to_be_bytes());
        assert_eq!(&bytes[4..4 + n], &data[..]);
        assert!(bytes[4 + n..].iter().all(|b| *b == 0));
        let mut cur = XdrCursor::new(bytes.clone());
        assert_eq!(Vec::<u8>::xdr_deserialize(&mut cur).unwrap(), data);
        assert_eq!(cur.position(), bytes.len());
    }
}

#[test]
fn empty_opaque_is_one_word() {
    let empty: Vec<u8> = vec![];
    assert_eq!(enc(&empty), vec![0, 0, 0, 0]);
    assert_eq!(deserialize_from_slice::<Vec<u8>>(&[0, 0, 0, 0]).unwrap(), empty);
}

#[test]
fn opaque_short_read_fails() {
    // declares 5 bytes, holds 5, but the 3 padding bytes are missing
    let bytes = vec![0, 0, 0, 5, 1, 2, 3, 4, 5];
    assert_eq!(deserialize_from_slice::<Vec<u8>>(&bytes), Err(XdrError::UnexpectedEof));
    // declares 8 bytes, holds 2
    assert_eq!(
        deserialize_from_slice::<Vec<u8>>(&[0, 0, 0, 8, 1, 2]),
        Err(XdrError::UnexpectedEof)
    );
    assert_eq!(deserialize_from_slice::<u32>(&[1, 2, 3]), Err(XdrError::UnexpectedEof));
}

#[test]
fn u32_array_round_trip() {
    let ws: Vec<u32> = vec![1, 0xffff_ffff, 0];
    let bytes = enc(&ws);
    assert_eq!(bytes, vec![0, 0, 0, 3, 0, 0, 0, 1, 0xff, 0xff, 0xff, 0xff, 0, 0, 0, 0]);
    assert_eq!(deserialize_from_slice::<Vec<u32>>(&bytes).unwrap(), ws);
    let empty: Vec<u32> = vec![];
    assert_eq!(enc(&empty), vec![0, 0, 0, 0]);
    assert_eq!(
        deserialize_from_slice::<Vec<u32>>(&[0, 0, 0, 2, 0, 0, 0, 1]),
        Err(XdrError::UnexpectedEof)
    );
}

#[test]
fn xdr_string_from_text() {
    let s = XdrString::from(String::from("héllo"));
    assert_eq!(s.0, "héllo".as_bytes().to_vec());
    let bytes = enc(&s);
    assert_eq!(XdrString::xdr_deserialize(&mut XdrCursor::new(bytes)).unwrap().0, s.0);
}

#[test]
fn record_mark_bytes() {
    let mut out = Vec::new();
    write_record_marked(&mut out, b"abc");
    assert_eq!(out, vec![0x80, 0, 0, 3, b'a', b'b', b'c']);
    assert_eq!(parse_record_mark(0x8000_0003), (true, 3));
    assert_eq!(parse_record_mark(0x0000_0010), (false, 16));
    assert_eq!(parse_record_mark(0xffff_ffff), (true, 0x7fff_ffff));
}

#[test]
fn record_mark_empty_payload() {
    let mut out = Vec::new();
    write_record_marked(&mut out, &[]);
    assert_eq!(out, vec![0x80, 0, 0, 0]);
    let mut cur = XdrCursor::new(out);
    assert_eq!(read_record_marked(&mut cur).unwrap(), Vec::<u8>::new());
    assert_eq!(cur.remaining(), 0);
}

#[test]
fn record_mark_truncated_fails() {
    let mut cur = XdrCursor::new(vec![0x80, 0, 0, 5, 1, 2]);
    assert_eq!(read_record_marked(&mut cur), Err(XdrError::UnexpectedEof));
    let mut cur = XdrCursor::new(vec![0x80, 0]);
    assert_eq!(read_record_marked(&mut cur), Err(XdrError::UnexpectedEof));
}

#[test]
fn record_mark_ignores_trailing_bytes() {
    let mut out = Vec::new();
    write_record_marked(&mut out, b"xy");
    out.extend_from_slice(&[9, 9, 9]);
    let mut cur = XdrCursor::new(out);
    assert_eq!(read_record_marked(&mut cur).unwrap(), b"xy".to_vec());
    assert_eq!(cur.remaining(), 3);
}

#[test]
fn message_type_codes() {
    assert_eq!(enc(&RpcMessageType::Call), vec![0, 0, 0, 0]);
    assert_eq!(enc(&RpcMessageType::Reply), vec![0, 0, 0, 1]);
    assert_eq!(
        deserialize_from_slice::<RpcMessageType>(&[0, 0, 0, 2]),
        Err(XdrError::InvalidData)
    );
}

#[test]
fn call_header_skips_credentials() {
    let mut bytes = Vec::new();
    for w in [7u32, 0, 2, 100003, 4, 1] {
        write_u32(&mut bytes, w);
    }
    // credential: flavor 1, five bytes of body, three of padding
    write_u32(&mut bytes, 1);
    write_u32(&mut bytes, 5);
    bytes.extend_from_slice(&[1, 2, 3, 4, 5, 0, 0, 0]);
    // verifier: flavor 0, empty body
    write_u32(&mut bytes, 0);
    write_u32(&mut bytes, 0);
    bytes.extend_from_slice(&[0xaa]);
    let mut cur = XdrCursor::new(bytes);
    let h = RpcCallHeader::xdr_deserialize(&mut cur).unwrap();
    assert_eq!((h.xid, h.rpcvers, h.prog, h.vers, h.proc), (7, 2, 100003, 4, 1));
    assert_eq!(cur.remaining(), 1);
}

#[test]
fn reply_header_bytes() {
    let bytes = enc(&RpcReplyHeader::success(99));
    assert_eq!(
        bytes,
        vec![0, 0, 0, 99, 0, 0, 0, 1, 0, 0, 0, 0, 0, 0, 0, 0, 0, 0, 0, 0, 0, 0, 0, 0]
    );
    let back = RpcReplyHeader::xdr_deserialize(&mut XdrCursor::new(bytes)).unwrap();
    assert_eq!(back.xid, 99);
    assert_eq!(back.msg_type, RpcMessageType::Reply);
    assert_eq!(back.accept_state, 0);
}

#[test]
fn reply_header_with_verifier_body() {
    let mut bytes = Vec::new();
    for w in [5u32, 1, 0, 1, 2] {
        write_u32(&mut bytes, w);
    }
    bytes.extend_from_slice(&[7, 7, 0, 0]);
    write_u32(&mut bytes, 0);
    let back = RpcReplyHeader::xdr_deserialize(&mut XdrCursor::new(bytes)).unwrap();
    assert_eq!((back.xid, back.verf_flavor, back.verf_len, back.accept_state), (5, 1, 2, 0));
}

#[test]
fn bitmap_minimal_words() {
    assert_eq!(bitmap4_with(&[]), Vec::<u32>::new());
    assert_eq!(bitmap4_with(&[FATTR4_TYPE]), vec![2]);
    assert_eq!(bitmap4_with(&[FATTR4_TYPE, FATTR4_SIZE]), vec![0b10010]);
    assert_eq!(bitmap4_with(&[FATTR4_FILEHANDLE, FATTR4_TYPE]), vec![(1 << 19) | 2]);
    assert_eq!(bitmap4_with(&[33]), vec![0, 2]);
    assert_eq!(bitmap4_with(&[0, 0, 64]), vec![1, 0, 1]);
}

#[test]
fn fattr4_layout() {
    let mut out = Vec::new();
    encode_fattr4(&mut out, &vec![2u32], &[0, 0, 0, 2, 9]);
    assert_eq!(out, vec![0, 0, 0, 1, 0, 0, 0, 2, 0, 0, 0, 5, 0, 0, 0, 2, 9, 0, 0, 0]);
}

fn compound_bytes(ops: &[(u32, Vec<u8>)]) -> Vec<u8> {
    let mut buf = Vec::new();
    XdrString::from("tag").xdr_serialize(&mut buf);
    2u32.xdr_serialize(&mut buf);
    (ops.len() as u32).xdr_serialize(&mut buf);
    for (code, operand) in ops {
        code.xdr_serialize(&mut buf);
        buf.extend_from_slice(operand);
    }
    buf
}

#[test]
fn compound_operands_reencode_exactly() {
    let getattr = enc(&bitmap4_with(&[FATTR4_TYPE, FATTR4_FILEHANDLE]));
    let putfh = enc(&b"handle-7".to_vec());
    let lookup = enc(&XdrString::from("foo"));
    let mut setattr = enc(&bitmap4_with(&[FATTR4_SIZE]));
    setattr.extend(enc(&vec![0u8, 0, 0, 0, 0, 0, 0, 9]));
    let ops = vec![
        (NfsOp4::OpGetattr.code(), getattr.clone()),
        (NfsOp4::OpPutfh.code(), putfh.clone()),
        (NfsOp4::OpLookup.code(), lookup.clone()),
        (NfsOp4::OpSetattr.code(), setattr.clone()),
        (NfsOp4::OpGetfh.code(), vec![]),
    ];
    let bytes = compound_bytes(&ops);
    let mut cur = XdrCursor::new(bytes.clone());
    let args = Compound4args::xdr_deserialize(&mut cur).unwrap();
    assert_eq!(cur.remaining(), 0);
    assert_eq!(args.tag.0, b"tag".to_vec());
    assert_eq!(args.minorversion, 2);
    assert_eq!(args.operations.len(), 5);
    for (op, (code, operand)) in args.operations.iter().zip(ops.iter()) {
        assert_eq!(op.opcode, *code);
        assert_eq!(&op.opdata, operand);
    }
    // encoding what was decoded gives the input bytes back
    assert_eq!(enc(&args), bytes);
}

#[test]
fn compound_unrecognized_operand_is_empty() {
    // OPEN (18) takes no operand here: the next word is read as the next opcode
    let bytes = compound_bytes(&[(18, vec![]), (NfsOp4::OpGetfh.code(), vec![])]);
    let args = deserialize_from_slice::<Compound4args>(&bytes).unwrap();
    assert_eq!(args.operations.len(), 2);
    assert!(args.operations[0].opdata.is_empty());
    assert_eq!(args.operations[1].opcode, 10);
}

#[test]
fn compound_truncated_operand_fails() {
    let mut bytes = compound_bytes(&[(NfsOp4::OpPutfh.code(), vec![])]);
    bytes.extend_from_slice(&[0, 0, 0, 9, 1, 2]);
    assert_eq!(
        deserialize_from_slice::<Compound4args>(&bytes).err(),
        Some(XdrError::UnexpectedEof)
    );
    // the count promises two operations, only one follows
    let mut short = compound_bytes(&[(NfsOp4::OpGetfh.code(), vec![])]);
    short[15] = 2;
    assert!(deserialize_from_slice::<Compound4args>(&short).is_err());
}

#[test]
fn compound_args_round_trip() {
    let args = Compound4args {
        tag: XdrString::from("x"),
        minorversion: 1,
        operations: vec![
            Op4 { opcode: NfsOp4::OpPutrootfh.code(), opdata: vec![] },
            Op4 { opcode: NfsOp4::OpGetattr.code(), opdata: enc(&vec![3u32]) },
        ],
    };
    let back = deserialize_from_slice::<Compound4args>(&enc(&args)).unwrap();
    assert_eq!(back.tag.0, args.tag.0);
    assert_eq!(back.minorversion, 1);
    assert_eq!(back.operations.len(), 2);
    assert_eq!(back.operations[1].opdata, args.operations[1].opdata);
}

#[test]
fn compound_result_layout() {
    let res = Compound4res {
        status: 10004,
        tag: XdrString::from("t"),
        resarray: vec![
            ResOp4 { opcode: 24, status: 0, payload: vec![] },
            ResOp4 { opcode: 15, status: 10004, payload: vec![1, 2, 3, 4] },
        ],
    };
    let mut expect = Vec::new();
    for w in [10004u32, 1] {
        write_u32(&mut expect, w);
    }
    expect.extend_from_slice(&[b't', 0, 0, 0]);
    for w in [2u32, 24, 0, 15, 10004] {
        write_u32(&mut expect, w);
    }
    expect.extend_from_slice(&[1, 2, 3, 4]);
    assert_eq!(enc(&res), expect);
}
