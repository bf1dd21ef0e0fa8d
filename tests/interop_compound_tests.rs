use nfs_rs::proto::nfs4::{
    bitmap4_with, Nfs4Proc, NfsOp4, FATTR4_TYPE, NFS4_OK, NFS4_PROGRAM, NFS4_VERSION,
};
use nfs_rs::rpc::{
    read_record_marked, write_record_marked, RpcCallHeader, RpcMessageType, RpcReplyHeader,
};
use nfs_rs::server::handle_call;
use nfs_rs::vfs::MemVfs;
use nfs_rs::xdr::{XdrCursor, XdrDeserialize, XdrSerialize, XdrString};

// Compose a COMPOUND: PUTROOTFH -> GETFH -> GETATTR(TYPE) -> LOOKUP("foo") -> SETATTR
fn build_compound_putrootfh_getfh_getattr_lookup_setattr() -> Vec<u8> {
    let mut cur: Vec<u8> = Vec::new();
    // RPC Call header
    let call = RpcCallHeader {
        xid: 1,
        msg_type: RpcMessageType::Call,
        rpcvers: 2,
        prog: NFS4_PROGRAM,
        vers: NFS4_VERSION,
        proc: Nfs4Proc::Compound.code(),
    };
    call.xdr_serialize(&mut cur);

    // COMPOUND args
    let tag: XdrString = "t".into();
    let minor = 2u32;
    tag.xdr_serialize(&mut cur);
    minor.xdr_serialize(&mut cur);
    (5u32).xdr_serialize(&mut cur);

    // PUTROOTFH (no args)
    NfsOp4::OpPutrootfh.code().xdr_serialize(&mut cur);

    // GETFH (no args)
    NfsOp4::OpGetfh.code().xdr_serialize(&mut cur);

    // GETATTR with bitmap TYPE only
    NfsOp4::OpGetattr.code().xdr_serialize(&mut cur);
    let bm = bitmap4_with(&[FATTR4_TYPE]);
    bm.xdr_serialize(&mut cur);

    // LOOKUP("foo")
    NfsOp4::OpLookup.code().xdr_serialize(&mut cur);
    let name: XdrString = "foo".into();
    name.xdr_serialize(&mut cur);

    // SETATTR (empty bitmap, no attrs)
    NfsOp4::OpSetattr.code().xdr_serialize(&mut cur);
    let empty_bm: Vec<u32> = vec![];
    empty_bm.xdr_serialize(&mut cur);
    let empty_attrs: Vec<u8> = vec![];
    empty_attrs.xdr_serialize(&mut cur);

    cur
}

#[test]
fn test_compound_roundtrip() {
    let vfs = MemVfs::new();

    // The client frames its call
    let payload = build_compound_putrootfh_getfh_getattr_lookup_setattr();
    let mut framed = Vec::new();
    write_record_marked(&mut framed, &payload);

    // The server takes the record apart, answers, and frames the reply
    let msg = read_record_marked(&mut XdrCursor::new(framed)).unwrap();
    let reply_payload = handle_call(&*vfs, &msg).unwrap();
    let mut reply_framed = Vec::new();
    write_record_marked(&mut reply_framed, &reply_payload);

    // Read one record-marked reply
    let hdr = [reply_framed[0], reply_framed[1], reply_framed[2], reply_framed[3]];
    let len_hdr = u32::from_be_bytes(hdr);
    let len = (len_hdr & 0x7fff_ffff) as usize;
    let buf = reply_framed[4..].to_vec();
    assert!(buf.len() == len, "Failed to read reply payload");

    // Parse reply header and compound result
    let mut cur = XdrCursor::new(buf);
    let _reply_hdr = RpcReplyHeader::xdr_deserialize(&mut cur).unwrap();
    let _status = u32::xdr_deserialize(&mut cur).unwrap();
    let _tag = Vec::<u8>::xdr_deserialize(&mut cur).unwrap();
    let count = u32::xdr_deserialize(&mut cur).unwrap();
    assert_eq!(count, 5);
    let expected = [
        (NfsOp4::OpPutrootfh.code(), NFS4_OK, 0usize),
        (NfsOp4::OpGetfh.code(), NFS4_OK, 4 + 16),
        (NfsOp4::OpGetattr.code(), NFS4_OK, 8 + 8),
        (NfsOp4::OpLookup.code(), 10004u32, 0),
        (NfsOp4::OpSetattr.code(), 10004u32, 0),
    ];
    for (i, (exp_op, exp_st, body)) in expected.iter().enumerate() {
        let op = u32::xdr_deserialize(&mut cur).unwrap();
        assert_eq!(op, *exp_op, "op {}: expected {}, got {}", i, exp_op, op);
        let st = u32::xdr_deserialize(&mut cur).unwrap();
        assert_eq!(st, *exp_st, "status {}: expected {}, got {}", i, exp_st, st);
        // step over the result body
        for _ in 0..*body {
            let _ = cur.read_bytes(1).unwrap();
        }
    }
    assert_eq!(cur.remaining(), 0);
}
