use nfs_rs::error::{NfsError, Nfs4Status};
use nfs_rs::proto::nfs4::{
    bitmap4_with, Compound4args, Nfs4Proc, NfsOp4, Op4, FATTR4_CHANGE, FATTR4_FH_EXPIRE_TYPE,
    FATTR4_FILEHANDLE, FATTR4_SIZE, FATTR4_TYPE, NFS4ERR_NOFILEHANDLE, NFS4ERR_NOTSUPP, NFS4_OK,
};
use nfs_rs::rpc::{RpcCallHeader, RpcMessageType, RpcReplyHeader};
use nfs_rs::server::{apply_op, evaluate_compound, handle_call};
use nfs_rs::vfs::{encode_root_attrs, touch_attr, FileAttr, MemVfs, Vfs};
use nfs_rs::xdr::{serialize_to_vec, write_u32, XdrCursor, XdrDeserialize, XdrSerialize, XdrString};
use nfs_rs::NfsConfig;

fn args_of(ops: Vec<(NfsOp4, Vec<u8>)>) -> Compound4args {
    Compound4args {
        tag: XdrString::from("t"),
        minorversion: 2,
        operations: ops
            .into_iter()
            .map(|(op, opdata)| Op4 { opcode: op.code(), opdata })
            .collect(),
    }
}

fn root_fh_bytes() -> Vec<u8> {
    b"nfsrs-root-fh".to_vec()
}

#[test]
fn scenario_a_statuses() {
    let vfs = MemVfs::new();
    let lookup = serialize_to_vec(&XdrString::from("foo"));
    let mut setattr = serialize_to_vec(&Vec::<u32>::new());
    setattr.extend(serialize_to_vec(&Vec::<u8>::new()));
    let args = args_of(vec![
        (NfsOp4::OpPutrootfh, vec![]),
        (NfsOp4::OpGetfh, vec![]),
        (NfsOp4::OpGetattr, serialize_to_vec(&bitmap4_with(&[FATTR4_TYPE]))),
        (NfsOp4::OpLookup, lookup),
        (NfsOp4::OpSetattr, setattr),
    ]);
    let res = evaluate_compound(&*vfs, &args).unwrap();
    let statuses: Vec<u32> = res.resarray.iter().map(|r| r.status).collect();
    assert_eq!(statuses, vec![NFS4_OK, NFS4_OK, NFS4_OK, NFS4ERR_NOTSUPP, NFS4ERR_NOTSUPP]);
    assert_eq!(res.resarray.len(), 5);
    assert_eq!(res.status, NFS4ERR_NOTSUPP);
    assert_eq!(res.tag.0, b"t".to_vec());
    let opcodes: Vec<u32> = res.resarray.iter().map(|r| r.opcode).collect();
    let expected: Vec<u32> = args.operations.iter().map(|o| o.opcode).collect();
    assert_eq!(opcodes, expected);
    // GETFH returns the root handle as opaque data
    assert_eq!(res.resarray[1].payload, serialize_to_vec(&root_fh_bytes()));
    // GETATTR(type) returns the bitmap {type} and the directory type
    assert_eq!(
        res.resarray[2].payload,
        vec![0, 0, 0, 1, 0, 0, 0, 2, 0, 0, 0, 4, 0, 0, 0, 2]
    );
}

#[test]
fn scenario_b_no_filehandle() {
    let vfs = MemVfs::new();
    let res = evaluate_compound(&*vfs, &args_of(vec![(NfsOp4::OpGetfh, vec![])])).unwrap();
    assert_eq!(res.resarray.len(), 1);
    assert_eq!(res.resarray[0].status, NFS4ERR_NOFILEHANDLE);
    assert_eq!(res.status, NFS4ERR_NOFILEHANDLE);
    assert!(res.resarray[0].payload.is_empty());
}

#[test]
fn getattr_without_filehandle() {
    let vfs = MemVfs::new();
    let bm = serialize_to_vec(&bitmap4_with(&[FATTR4_SIZE]));
    let res = evaluate_compound(&*vfs, &args_of(vec![(NfsOp4::OpGetattr, bm)])).unwrap();
    assert_eq!(res.resarray[0].status, NFS4ERR_NOFILEHANDLE);
    assert_eq!(res.status, NFS4ERR_NOFILEHANDLE);
}

#[test]
fn overall_status_is_last_failure() {
    let vfs = MemVfs::new();
    // NOTSUPP first, then a missing filehandle: the later failure wins
    let res = evaluate_compound(
        &*vfs,
        &args_of(vec![(NfsOp4::OpRead, vec![]), (NfsOp4::OpGetfh, vec![])]),
    )
    .unwrap();
    assert_eq!(res.status, NFS4ERR_NOFILEHANDLE);
    // a missing filehandle first, then NOTSUPP, then a success
    let res = evaluate_compound(
        &*vfs,
        &args_of(vec![
            (NfsOp4::OpGetfh, vec![]),
            (NfsOp4::OpWrite, vec![]),
            (NfsOp4::OpPutrootfh, vec![]),
        ]),
    )
    .unwrap();
    assert_eq!(res.status, NFS4ERR_NOTSUPP);
    let statuses: Vec<u32> = res.resarray.iter().map(|r| r.status).collect();
    assert_eq!(statuses, vec![NFS4ERR_NOFILEHANDLE, NFS4ERR_NOTSUPP, NFS4_OK]);
}

#[test]
fn empty_compound_is_ok() {
    let vfs = MemVfs::new();
    let res = evaluate_compound(&*vfs, &args_of(vec![])).unwrap();
    assert_eq!(res.status, NFS4_OK);
    assert!(res.resarray.is_empty());
}

#[test]
fn putfh_sets_current_handle() {
    let vfs = MemVfs::new();
    let fh = serialize_to_vec(&b"abc".to_vec());
    let res = evaluate_compound(
        &*vfs,
        &args_of(vec![
            (NfsOp4::OpPutrootfh, vec![]),
            (NfsOp4::OpPutfh, fh.clone()),
            (NfsOp4::OpGetfh, vec![]),
        ]),
    )
    .unwrap();
    assert_eq!(res.status, NFS4_OK);
    assert_eq!(res.resarray[2].payload, fh);
    // an operand that holds no handle installs an empty one
    let res = evaluate_compound(
        &*vfs,
        &args_of(vec![(NfsOp4::OpPutfh, vec![]), (NfsOp4::OpGetfh, vec![])]),
    )
    .unwrap();
    assert_eq!(res.resarray[1].payload, vec![0, 0, 0, 0]);
}

#[test]
fn scenario_c_getattr_order() {
    let vfs = MemVfs::new();
    // requested in reverse order, with an unsupported bit (5)
    let bm = bitmap4_with(&[FATTR4_SIZE, 5, FATTR4_TYPE]);
    let reply = vfs.getattr_root(&bm).unwrap();
    let mut cur = XdrCursor::new(reply);
    let got = Vec::<u32>::xdr_deserialize(&mut cur).unwrap();
    assert_eq!(got, vec![(1 << FATTR4_TYPE) | (1 << FATTR4_SIZE)]);
    let vals = Vec::<u8>::xdr_deserialize(&mut cur).unwrap();
    // type = directory (2), then the 64-bit size 0
    assert_eq!(vals, vec![0, 0, 0, 2, 0, 0, 0, 0, 0, 0, 0, 0]);
    assert_eq!(cur.remaining(), 0);
}

#[test]
fn root_attrs_all_supported() {
    let attr = FileAttr { changeid: 0x0102, size: 7, mtime: 1, ctime: 1 };
    let fh = vec![9u8, 8, 7];
    let req = bitmap4_with(&[
        FATTR4_FILEHANDLE,
        FATTR4_SIZE,
        FATTR4_CHANGE,
        FATTR4_FH_EXPIRE_TYPE,
        FATTR4_TYPE,
        0,
    ]);
    let out = encode_root_attrs(&req, &fh, &attr);
    let mut cur = XdrCursor::new(out);
    let got = Vec::<u32>::xdr_deserialize(&mut cur).unwrap();
    assert_eq!(got, vec![(1 << 1) | (1 << 2) | (1 << 3) | (1 << 4) | (1 << 19)]);
    let vals = Vec::<u8>::xdr_deserialize(&mut cur).unwrap();
    let mut expect = vec![0, 0, 0, 2, 0, 0, 0, 0];
    expect.extend_from_slice(&[0, 0, 0, 0, 0, 0, 1, 2]);
    expect.extend_from_slice(&[0, 0, 0, 0, 0, 0, 0, 7]);
    expect.extend_from_slice(&[0, 0, 0, 3, 9, 8, 7, 0]);
    assert_eq!(vals, expect);
}

#[test]
fn root_attrs_empty_request() {
    let attr = FileAttr { changeid: 1, size: 2, mtime: 3, ctime: 4 };
    let out = encode_root_attrs(&vec![], &vec![1], &attr);
    // no granted attribute: a bitmap of no words and no values
    assert_eq!(out, vec![0, 0, 0, 0, 0, 0, 0, 0]);
}

#[test]
fn memvfs_getattr_unsupported_only() {
    let vfs = MemVfs::new();
    // only unsupported attributes asked for: nothing is granted
    let reply = vfs.getattr_root(&bitmap4_with(&[0, 5, 40])).unwrap();
    assert_eq!(reply, vec![0, 0, 0, 0, 0, 0, 0, 0]);
}

#[test]
fn touch_attr_coalesces() {
    let mut a = FileAttr { changeid: 5, size: 10, mtime: 100, ctime: 1 };
    touch_attr(&mut a, Some(10), 100);
    assert_eq!((a.changeid, a.size, a.mtime, a.ctime), (5, 10, 100, 1));
    touch_attr(&mut a, Some(11), 100);
    assert_eq!((a.changeid, a.size, a.mtime, a.ctime), (100, 11, 100, 1));
    touch_attr(&mut a, None, 200);
    assert_eq!((a.changeid, a.size, a.mtime, a.ctime), (200, 11, 200, 1));
}

#[test]
fn concurrent_writers_leave_one_value() {
    let vfs = MemVfs::new();
    let path = "/shared";
    let rt = tokio::runtime::Builder::new_multi_thread().worker_threads(4).build().unwrap();
    rt.block_on(async {
        let mut handles = vec![];
        for i in 0..32u64 {
            let vfs = vfs.clone();
            handles.push(tokio::spawn(async move {
                vfs.modify_file(path, 1000 + i).unwrap();
            }));
        }
        for h in handles {
            h.await.unwrap();
        }
    });
    let size = vfs.get_attr(path).unwrap().size;
    assert!((1000..1032).contains(&size));
}

fn call_bytes(prog: u32, vers: u32, proc: u32) -> Vec<u8> {
    let call = RpcCallHeader { xid: 77, msg_type: RpcMessageType::Call, rpcvers: 2, prog, vers, proc };
    serialize_to_vec(&call)
}

fn reply_head(xid: u32) -> Vec<u8> {
    serialize_to_vec(&RpcReplyHeader::success(xid))
}

#[test]
fn wrong_program_is_badtype() {
    let vfs = MemVfs::new();
    let reply = handle_call(&*vfs, &call_bytes(100005, 4, 1)).unwrap();
    let mut expect = reply_head(77);
    write_u32(&mut expect, 10007);
    assert_eq!(reply, expect);
    let reply = handle_call(&*vfs, &call_bytes(100003, 3, 1)).unwrap();
    assert_eq!(reply, expect);
}

#[test]
fn null_procedure_has_no_body() {
    let vfs = MemVfs::new();
    let reply = handle_call(&*vfs, &call_bytes(100003, 4, Nfs4Proc::Null.code())).unwrap();
    assert_eq!(reply, reply_head(77));
}

#[test]
fn unknown_procedure_is_notsupp() {
    let vfs = MemVfs::new();
    let reply = handle_call(&*vfs, &call_bytes(100003, 4, 9)).unwrap();
    let mut expect = reply_head(77);
    write_u32(&mut expect, 10004);
    assert_eq!(reply, expect);
}

#[test]
fn scenario_b_over_the_wire() {
    let vfs = MemVfs::new();
    let mut msg = call_bytes(100003, 4, Nfs4Proc::Compound.code());
    XdrString::from("b").xdr_serialize(&mut msg);
    2u32.xdr_serialize(&mut msg);
    1u32.xdr_serialize(&mut msg);
    NfsOp4::OpGetfh.code().xdr_serialize(&mut msg);
    let reply = handle_call(&*vfs, &msg).unwrap();
    let mut expect = reply_head(77);
    for w in [10020u32, 1] {
        write_u32(&mut expect, w);
    }
    expect.extend_from_slice(&[b'b', 0, 0, 0]);
    for w in [1u32, 10, 10020] {
        write_u32(&mut expect, w);
    }
    assert_eq!(reply, expect);
}

#[test]
fn malformed_messages_are_errors() {
    let vfs = MemVfs::new();
    assert!(matches!(handle_call(&*vfs, &[0, 0, 0, 1]), Err(NfsError::Xdr(_))));
    let mut bad_type = call_bytes(100003, 4, 1);
    bad_type[7] = 5;
    assert!(matches!(handle_call(&*vfs, &bad_type), Err(NfsError::Xdr(_))));
    // a compound whose body is cut short
    let mut msg = call_bytes(100003, 4, 1);
    msg.extend_from_slice(&[0, 0, 0, 1]);
    assert!(matches!(handle_call(&*vfs, &msg), Err(NfsError::Xdr(_))));
}

#[test]
fn status_mapping() {
    assert_eq!(Nfs4Status::from(NfsError::NotFound), Nfs4Status::Noent);
    assert_eq!(Nfs4Status::from(NfsError::PermissionDenied), Nfs4Status::Access);
    assert_eq!(Nfs4Status::from(NfsError::AlreadyExists), Nfs4Status::Exist);
    assert_eq!(Nfs4Status::from(NfsError::NotSupported), Nfs4Status::Notsupp);
    assert_eq!(Nfs4Status::from(NfsError::NoSpace), Nfs4Status::Nospc);
    assert_eq!(Nfs4Status::from(NfsError::ReadOnlyFs), Nfs4Status::Rofs);
    assert_eq!(Nfs4Status::from(NfsError::StaleHandle), Nfs4Status::Stale);
    assert_eq!(Nfs4Status::from(NfsError::BadStateid), Nfs4Status::Badhandle);
    assert_eq!(Nfs4Status::from(NfsError::InvalidArgument("x".into())), Nfs4Status::Inval);
    assert_eq!(
        Nfs4Status::from(NfsError::Io(std::io::Error::new(std::io::ErrorKind::Other, "e"))),
        Nfs4Status::Io
    );
    assert_eq!(Nfs4Status::from(NfsError::Grace), Nfs4Status::Serverfault);
    assert_eq!(Nfs4Status::from(NfsError::Xdr("x".into())), Nfs4Status::Serverfault);
    assert_eq!(Nfs4Status::Notsupp.code(), 10004);
    assert_eq!(Nfs4Status::Success.code(), 0);
    assert_eq!(Nfs4Status::Serverfault.code(), 10006);
    assert_eq!(Nfs4Status::WrongLfs.code(), 10092);
}

#[test]
fn opcode_codes() {
    assert_eq!(NfsOp4::OpPutrootfh.code(), 24);
    assert_eq!(NfsOp4::OpClone.code(), 71);
    assert_eq!(NfsOp4::from_code(9), Some(NfsOp4::OpGetattr));
    assert_eq!(NfsOp4::from_code(40), None);
    assert_eq!(NfsOp4::from_code(0), None);
    assert_eq!(Nfs4Proc::Compound.code(), 1);
}

#[test]
fn default_config() {
    let cfg = NfsConfig::default();
    assert_eq!(cfg.bind_addr, "0.0.0.0");
    assert_eq!(cfg.port, 2049);
}

#[test]
fn memvfs_root_handle() {
    let vfs = MemVfs::new();
    assert_eq!(vfs.root_fh().unwrap(), root_fh_bytes());
    assert!(vfs.get_attr("/").is_some());
    assert!(vfs.get_attr("/missing").is_none());
}

#[test]
fn backend_error_ends_operation() {
    let putroot = Op4 { opcode: NfsOp4::OpPutrootfh.code(), opdata: vec![] };
    let mut fh: Option<Vec<u8>> = Some(vec![1]);
    let r = apply_op(&mut fh, &putroot, Err(NfsError::NotFound));
    assert!(matches!(r, Err(NfsError::NotFound)));
    assert_eq!(fh, Some(vec![1]));
    let getattr = Op4 { opcode: NfsOp4::OpGetattr.code(), opdata: vec![] };
    assert!(matches!(apply_op(&mut fh, &getattr, Err(NfsError::ServerFault)), Err(NfsError::ServerFault)));
    // without a handle GETATTR asks nothing of the backend
    let mut none: Option<Vec<u8>> = None;
    let r = apply_op(&mut none, &getattr, Ok(vec![]));
    assert_eq!(r.unwrap().status, NFS4ERR_NOFILEHANDLE);
}

#[test]
fn apply_op_installs_root_reply() {
    let putroot = Op4 { opcode: NfsOp4::OpPutrootfh.code(), opdata: vec![] };
    let getfh = Op4 { opcode: NfsOp4::OpGetfh.code(), opdata: vec![] };
    let mut fh: Option<Vec<u8>> = None;
    let r = apply_op(&mut fh, &putroot, Ok(vec![5, 6])).unwrap();
    assert_eq!((r.opcode, r.status, r.payload.len()), (24, NFS4_OK, 0));
    assert_eq!(fh, Some(vec![5, 6]));
    let r = apply_op(&mut fh, &getfh, Ok(vec![])).unwrap();
    assert_eq!(r.payload, vec![0, 0, 0, 2, 5, 6, 0, 0]);
}

#[test]
fn modify_keeps_creation_time() {
    let vfs = MemVfs::new();
    vfs.create_file("/f", 3).unwrap();
    let first = vfs.get_attr("/f").unwrap();
    vfs.modify_file("/f", 8).unwrap();
    let after = vfs.get_attr("/f").unwrap();
    assert_eq!(after.size, 8);
    assert_eq!(after.ctime, first.ctime);
    assert!(after.mtime >= first.mtime);
}
