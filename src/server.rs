//! The compound evaluator and the handling of one RPC call.
//!
//! A compound request runs its operations in order against a current-filehandle
//! register that starts empty. A failed operation does not stop the ones after
//! it, and the overall status is that of the last operation that failed. This is
//! a deliberate departure from the usual convention of the protocol, which ends a
//! compound at its first failure; clients may depend on either behavior.
use crate::error::{NfsError, NfsResult};
use crate::proto::nfs4::{
    lemma_compound_args_of_be_bounds, compound_args_of_be, compound_res_be, Compound4args,
    Compound4argsModel, Compound4res, Compound4resModel, Nfs4Proc, NfsOp4, Op4, Op4Model, ResOp4,
    ResOp4Model, NFS4ERR_BADTYPE, NFS4ERR_NOFILEHANDLE, NFS4ERR_NOTSUPP, NFS4_OK, NFS4_PROGRAM,
    NFS4_VERSION, OP_GETATTR, OP_GETFH, OP_PUTFH, OP_PUTROOTFH,
};
use crate::rpc::{
    call_header_of_be, reply_header_words, RpcCallHeader, RpcMessageType,
    RpcReplyHeader,
};
use crate::vfs::Vfs;
use crate::xdr::{
    deserialize_from_slice, opaque_be, opaque_of_be, slice_to_vec, u32_array_of_be, u32_be,
    words_be, write_opaque, write_u32, XdrCursor, XdrDeserialize, XdrError, XdrSerialize,
};
use vstd::prelude::*;

verus! {

// ---------------------------------------------------------------------------
// The model of an evaluation
// ---------------------------------------------------------------------------

/// The handle PUTFH installs: the opaque data its operand holds, or an empty
/// handle when the operand does not hold any.
pub open spec fn putfh_handle(opdata: Seq<u8>) -> Seq<u8> {
    match opaque_of_be(opdata) {
        Some((h, _n)) => h,
        None => Seq::empty(),
    }
}

/// The bitmap GETATTR asks for: the one its operand holds, or an empty bitmap.
pub open spec fn getattr_request(opdata: Seq<u8>) -> Seq<u32> {
    match u32_array_of_be(opdata) {
        Some((bm, _n)) => bm,
        None => Seq::empty(),
    }
}

/// The current filehandle before operation `i` runs: set by PUTROOTFH to the
/// root handle and by PUTFH to its operand, unchanged by every other operation.
pub open spec fn fh_before(ops: Seq<Op4Model>, root: Seq<u8>, i: nat) -> Option<Seq<u8>>
    decreases i,
{
    if i == 0 {
        None
    } else {
        let o = ops[i - 1];
        if o.opcode == OP_PUTROOTFH {
            Some(root)
        } else if o.opcode == OP_PUTFH {
            Some(putfh_handle(o.opdata))
        } else {
            fh_before(ops, root, (i - 1) as nat)
        }
    }
}

/// The status of operation `i`: PUTROOTFH and PUTFH succeed; GETFH and GETATTR
/// succeed when a current filehandle is set and fail with "no filehandle"
/// otherwise; every other operation is not supported.
pub open spec fn op_status(ops: Seq<Op4Model>, root: Seq<u8>, i: int) -> u32 {
    let c = ops[i].opcode;
    if c == OP_PUTROOTFH || c == OP_PUTFH {
        NFS4_OK
    } else if c == OP_GETFH || c == OP_GETATTR {
        if fh_before(ops, root, i as nat) is Some {
            NFS4_OK
        } else {
            NFS4ERR_NOFILEHANDLE
        }
    } else {
        NFS4ERR_NOTSUPP
    }
}

/// The overall status after the first `n` operations: the status of the last one
/// that failed, or OK when none did.
pub open spec fn overall_status(ops: Seq<Op4Model>, root: Seq<u8>, n: nat) -> u32
    decreases n,
{
    if n == 0 {
        NFS4_OK
    } else {
        let s = op_status(ops, root, n - 1);
        if s != NFS4_OK {
            s
        } else {
            overall_status(ops, root, (n - 1) as nat)
        }
    }
}

/// Whether `payload` is a valid result body for operation `i`: the opaque
/// current handle for a GETFH that succeeds, an attribute reply of the backend
/// for a GETATTR that succeeds, and nothing otherwise.
pub open spec fn result_body_ok<V: Vfs + ?Sized>(
    vfs: &V,
    ops: Seq<Op4Model>,
    i: int,
    payload: Seq<u8>,
) -> bool {
    let root = vfs.spec_root_fh();
    let c = ops[i].opcode;
    let fh = fh_before(ops, root, i as nat);
    if c == OP_GETFH && fh is Some {
        payload == opaque_be(fh->Some_0)
    } else if c == OP_GETATTR && fh is Some {
        vfs.spec_getattr_reply(getattr_request(ops[i].opdata), payload)
    } else {
        payload == Seq::<u8>::empty()
    }
}

/// Whether operation `i` calls the backend: PUTROOTFH asks for the root handle,
/// and GETATTR with a current filehandle asks for attributes.
pub open spec fn calls_backend(ops: Seq<Op4Model>, root: Seq<u8>, i: int) -> bool {
    ||| ops[i].opcode == OP_PUTROOTFH
    ||| ops[i].opcode == OP_GETATTR && fh_before(ops, root, i as nat) is Some
}

/// Whether result `k` is the one operation `k` produces.
pub open spec fn result_ok<V: Vfs + ?Sized>(
    vfs: &V,
    ops: Seq<Op4Model>,
    k: int,
    res: ResOp4Model,
) -> bool {
    &&& res.opcode == ops[k].opcode
    &&& res.status == op_status(ops, vfs.spec_root_fh(), k)
    &&& result_body_ok(vfs, ops, k, res.payload)
}

/// Whether `res` is the result of evaluating `args` against `vfs`: the tag of
/// the request, one result per operation in request order, and the overall
/// status of the last failure.
pub open spec fn compound_reply_ok<V: Vfs + ?Sized>(
    vfs: &V,
    args: Compound4argsModel,
    res: Compound4resModel,
) -> bool {
    let ops = args.operations;
    &&& res.tag == args.tag
    &&& res.resarray.len() == ops.len()
    &&& forall|k: int|
        0 <= k < ops.len() ==> #[trigger] result_ok(vfs, ops, k, res.resarray[k])
    &&& res.status == overall_status(ops, vfs.spec_root_fh(), ops.len())
}

/// Whatever the backend does, the results line up with the request: as many
/// results as operations, each with the code of the operation at its position.
pub proof fn lemma_results_match_operations<V: Vfs + ?Sized>(
    vfs: &V,
    args: Compound4argsModel,
    res: Compound4resModel,
)
    requires
        compound_reply_ok(vfs, args, res),
    ensures
        res.resarray.len() == args.operations.len(),
        forall|k: int|
            0 <= k < args.operations.len() ==> #[trigger] res.resarray[k].opcode
                == args.operations[k].opcode,
{
    assert forall|k: int| 0 <= k < args.operations.len() implies #[trigger] res.resarray[k].opcode
        == args.operations[k].opcode by {
        assert(result_ok(vfs, args.operations, k, res.resarray[k]));
    }
}

// ---------------------------------------------------------------------------
// The evaluator
// ---------------------------------------------------------------------------

/// The bytes of an optional buffer.
pub open spec fn opt_bytes(o: Option<Vec<u8>>) -> Option<Seq<u8>> {
    match o {
        Some(v) => Some(v@),
        None => None,
    }
}

/// The handle a PUTFH operand holds, or an empty handle.
fn putfh_operand(opdata: &Vec<u8>) -> (r: Vec<u8>)
    ensures
        r@ == putfh_handle(opdata@),
        r@.len() <= u32::MAX,
{
    let fh: Vec<u8> = if opdata.len() != 0 {
        match deserialize_from_slice::<Vec<u8>>(opdata.as_slice()) {
            Ok(v) => v,
            Err(_) => Vec::new(),
        }
    } else {
        Vec::new()
    };
    fh
}

/// The bitmap a GETATTR operand holds, or an empty bitmap.
fn getattr_operand(opdata: &Vec<u8>) -> (r: Vec<u32>)
    ensures
        r@ == getattr_request(opdata@),
{
    if opdata.len() != 0 {
        match deserialize_from_slice::<Vec<u32>>(opdata.as_slice()) {
            Ok(v) => v,
            Err(_) => Vec::new(),
        }
    } else {
        Vec::new()
    }
}

/// Whether an operation with code `c` calls the backend when the current
/// filehandle is `fh`.
pub open spec fn step_calls_backend(c: u32, fh: Option<Seq<u8>>) -> bool {
    c == OP_PUTROOTFH || (c == OP_GETATTR && fh is Some)
}

/// The bytes of a backend reply, or nothing for an error.
pub open spec fn reply_bytes(backend: NfsResult<Vec<u8>>) -> Seq<u8> {
    match backend {
        Ok(v) => v@,
        Err(_) => Seq::empty(),
    }
}

/// The current filehandle after operation `o`, given the one before and the
/// backend's reply: PUTROOTFH installs the reply, PUTFH its operand, every other
/// operation keeps it.
pub open spec fn step_fh(o: Op4Model, fh: Option<Seq<u8>>, reply: Seq<u8>) -> Option<Seq<u8>> {
    if o.opcode == OP_PUTROOTFH {
        Some(reply)
    } else if o.opcode == OP_PUTFH {
        Some(putfh_handle(o.opdata))
    } else {
        fh
    }
}

/// The status of an operation with code `c` when the current filehandle is `fh`.
pub open spec fn step_status(c: u32, fh: Option<Seq<u8>>) -> u32 {
    if c == OP_PUTROOTFH || c == OP_PUTFH {
        NFS4_OK
    } else if c == OP_GETFH || c == OP_GETATTR {
        if fh is Some {
            NFS4_OK
        } else {
            NFS4ERR_NOFILEHANDLE
        }
    } else {
        NFS4ERR_NOTSUPP
    }
}

/// The result body of an operation with code `c`: the opaque current handle for
/// GETFH, the backend's reply for GETATTR, when a handle is set; else nothing.
pub open spec fn step_payload(c: u32, fh: Option<Seq<u8>>, reply: Seq<u8>) -> Seq<u8> {
    if c == OP_GETFH && fh is Some {
        opaque_be(fh->Some_0)
    } else if c == OP_GETATTR && fh is Some {
        reply
    } else {
        Seq::empty()
    }
}

/// Carries out one operation against the current filehandle, given what the
/// backend answered for it (`Ok` with no bytes when it was not asked). An error
/// of the backend call the operation needed ends the operation with that error
/// and leaves the handle as it was; otherwise the operation gives its result.
pub fn apply_op(fh: &mut Option<Vec<u8>>, op: &Op4, backend: NfsResult<Vec<u8>>) -> (r: NfsResult<
    ResOp4,
>)
    requires
        *old(fh) matches Some(h) ==> h@.len() <= u32::MAX,
        op.opcode == OP_PUTROOTFH ==> (backend matches Ok(v) ==> v@.len() <= u32::MAX),
    ensures
        match backend {
            Err(e) => step_calls_backend(op.opcode, opt_bytes(*old(fh))) ==> r == Err::<
                ResOp4,
                NfsError,
            >(e) && *final(fh) == *old(fh),
            Ok(_) => true,
        },
        !(backend is Err && step_calls_backend(op.opcode, opt_bytes(*old(fh)))) ==> (r matches Ok(
            res,
        ) && res@ == (ResOp4Model {
            opcode: op.opcode,
            status: step_status(op.opcode, opt_bytes(*old(fh))),
            payload: step_payload(op.opcode, opt_bytes(*old(fh)), reply_bytes(backend)),
        }) && opt_bytes(*final(fh)) == step_fh(op@, opt_bytes(*old(fh)), reply_bytes(backend))),
        *final(fh) matches Some(h) ==> h@.len() <= u32::MAX,
{
    match NfsOp4::from_code(op.opcode) {
        Some(NfsOp4::OpPutrootfh) => {
            match backend {
                Ok(root) => {
                    *fh = Some(root);
                    Ok(ResOp4 { opcode: op.opcode, status: NFS4_OK, payload: Vec::new() })
                },
                Err(e) => Err(e),
            }
        },
        Some(NfsOp4::OpPutfh) => {
            *fh = Some(putfh_operand(&op.opdata));
            Ok(ResOp4 { opcode: op.opcode, status: NFS4_OK, payload: Vec::new() })
        },
        Some(NfsOp4::OpGetfh) => {
            match fh {
                Some(h) => {
                    let mut payload: Vec<u8> = Vec::new();
                    write_opaque(&mut payload, h.as_slice());
                    Ok(ResOp4 { opcode: op.opcode, status: NFS4_OK, payload })
                },
                None => Ok(
                    ResOp4 { opcode: op.opcode, status: NFS4ERR_NOFILEHANDLE, payload: Vec::new() },
                ),
            }
        },
        Some(NfsOp4::OpGetattr) => {
            if fh.is_some() {
                match backend {
                    Ok(attrs) => Ok(ResOp4 { opcode: op.opcode, status: NFS4_OK, payload: attrs }),
                    Err(e) => Err(e),
                }
            } else {
                Ok(
                    ResOp4 { opcode: op.opcode, status: NFS4ERR_NOFILEHANDLE, payload: Vec::new() },
                )
            }
        },
        _ => {
            // unsupported: record the failure and go on with the next operation
            Ok(ResOp4 { opcode: op.opcode, status: NFS4ERR_NOTSUPP, payload: Vec::new() })
        },
    }
}

/// Runs the operations of a compound request in order. Every operation gives
/// one result, failed ones included; the evaluation stops only when a backend
/// call fails, and then the error is returned.
pub fn evaluate_compound<V: Vfs + ?Sized>(vfs: &V, args: &Compound4args) -> (r: NfsResult<Compound4res>)
    ensures
        r matches Ok(res) ==> compound_reply_ok(vfs, args@, res@),
        r is Err ==> exists|k: int|
            0 <= k < args@.operations.len() && #[trigger] calls_backend(
                args@.operations,
                vfs.spec_root_fh(),
                k,
            ),
{
    let ghost ops = args@.operations;
    let ghost root = vfs.spec_root_fh();
    let mut current_fh: Option<Vec<u8>> = None;
    let mut overall: u32 = NFS4_OK;
    let mut results: Vec<ResOp4> = Vec::new();
    let n = args.operations.len();
    let mut i: usize = 0;
    while i < n
        invariant
            n == args.operations@.len(),
            ops == args@.operations,
            ops.len() == n,
            root == vfs.spec_root_fh(),
            i <= n,
            opt_bytes(current_fh) == fh_before(ops, root, i as nat),
            current_fh matches Some(fh) ==> fh@.len() <= u32::MAX,
            overall == overall_status(ops, root, i as nat),
            results@.len() == i,
            forall|k: int| 0 <= k < i ==> #[trigger] result_ok(vfs, ops, k, results@[k]@),
        decreases n - i,
    {
        let op = &args.operations[i];
        proof {
            assert(ops[i as int] == op@);
        }
        // the one backend call this operation makes, if any
        let backend: NfsResult<Vec<u8>> = if op.opcode == OP_PUTROOTFH {
            vfs.root_fh()
        } else if op.opcode == OP_GETATTR && current_fh.is_some() {
            let req_bitmap = getattr_operand(&op.opdata);
            vfs.getattr_root(&req_bitmap)
        } else {
            Ok(Vec::new())
        };
        let res = match apply_op(&mut current_fh, op, backend) {
            Ok(res) => res,
            Err(e) => {
                assert(calls_backend(ops, root, i as int));
                return Err(e);
            },
        };
        if res.status != NFS4_OK {
            overall = res.status;
        }
        proof {
            assert(result_ok(vfs, ops, i as int, res@));
        }
        results.push(res);
        i = i + 1;
    }
    let tag = crate::xdr::XdrString(slice_to_vec(args.tag.0.as_slice()));
    let out = Compound4res { status: overall, tag, resarray: results };
    proof {
        assert forall|k: int| 0 <= k < ops.len() implies #[trigger] result_ok(
            vfs,
            ops,
            k,
            out@.resarray[k],
        ) by {
            assert(out@.resarray[k] == results@[k]@);
        }
    }
    Ok(out)
}

// ---------------------------------------------------------------------------
// One RPC call
// ---------------------------------------------------------------------------

/// The reply header that accepts and carries out call `xid`.
pub open spec fn reply_header_be(xid: u32) -> Seq<u8> {
    words_be(
        reply_header_words(
            RpcReplyHeader {
                xid,
                msg_type: RpcMessageType::Reply,
                reply_state: 0,
                verf_flavor: 0,
                verf_len: 0,
                accept_state: 0,
            },
        ),
    )
}

/// The error reported for a message that does not decode.
fn xdr_failure(e: XdrError) -> (r: NfsError)
    ensures
        r is Xdr,
{
    match e {
        XdrError::UnexpectedEof => NfsError::Xdr("unexpected end of message".to_owned()),
        XdrError::InvalidData => NfsError::Xdr("invalid field in message".to_owned()),
    }
}

/// Answers one RPC message (already taken out of its record): decodes the call
/// header, then replies with "bad type" to another program or version, with an
/// empty body to NULL, with the compound result to COMPOUND, and with "not
/// supported" to any other procedure. A message that does not decode, and a
/// failing backend call, give an error and no reply.
pub fn handle_call<V: Vfs + ?Sized>(vfs: &V, msg: &[u8]) -> (r: NfsResult<Vec<u8>>)
    ensures
        match call_header_of_be(msg@) {
            None => r is Err,
            Some((h, n)) => {
                let head = reply_header_be(h.xid);
                if h.prog != NFS4_PROGRAM || h.vers != NFS4_VERSION {
                    r matches Ok(v) && v@ == head + u32_be(NFS4ERR_BADTYPE)
                } else if h.proc == 0 {
                    r matches Ok(v) && v@ == head
                } else if h.proc == 1 {
                    match compound_args_of_be(msg@.skip(n as int)) {
                        None => r is Err,
                        Some((a, _m)) => {
                            &&& r matches Ok(v) ==> exists|res: Compound4resModel|
                                compound_reply_ok(vfs, a, res) && v@ == head + compound_res_be(res)
                            &&& r is Err ==> exists|k: int|
                                0 <= k < a.operations.len() && #[trigger] calls_backend(
                                    a.operations,
                                    vfs.spec_root_fh(),
                                    k,
                                )
                        },
                    }
                } else {
                    r matches Ok(v) && v@ == head + u32_be(NFS4ERR_NOTSUPP)
                }
            },
        },
{
    let mut cur = XdrCursor::new(slice_to_vec(msg));
    proof {
        assert(cur.rest() =~= msg@);
    }
    let call = match RpcCallHeader::xdr_deserialize(&mut cur) {
        Ok(c) => c,
        Err(e) => {
            return Err(xdr_failure(e));
        },
    };
    proof {
        assert(cur.rest() =~= msg@.skip(cur.pos() as int));
    }
    let mut reply: Vec<u8> = Vec::new();
    let reply_hdr = RpcReplyHeader::success(call.xid);
    reply_hdr.xdr_serialize(&mut reply);
    proof {
        assert(reply@ =~= reply_header_be(call.xid));
    }
    if call.prog != NFS4_PROGRAM || call.vers != NFS4_VERSION {
        write_u32(&mut reply, NFS4ERR_BADTYPE);
    } else if call.proc == Nfs4Proc::Null.code() {
        // NULL: the header alone
    } else if call.proc == Nfs4Proc::Compound.code() {
        let ghost rest = cur.rest();
        let args = match Compound4args::xdr_deserialize(&mut cur) {
            Ok(a) => a,
            Err(e) => {
                return Err(xdr_failure(e));
            },
        };
        proof {
            lemma_compound_args_of_be_bounds(rest);
        }
        let res = evaluate_compound(vfs, &args)?;
        let ghost head = reply@;
        res.xdr_serialize(&mut reply);
        proof {
            assert(compound_reply_ok(vfs, args@, res@) && reply@ == head + compound_res_be(res@));
        }
    } else {
        write_u32(&mut reply, NFS4ERR_NOTSUPP);
    }
    Ok(reply)
}

} // verus!
