//! ONC RPC record marking and the call and reply headers.
use crate::xdr::{
    append_bytes, lemma_u32_be_inverse, lemma_u32_of_be_append, lemma_words_be_read, opaque_of_be,
    pad_len, padding, read_opaque, u32_be, u32_of_be, words_be, write_u32, XdrCursor,
    XdrDeserialize, XdrError, XdrSerialize,
};
use vstd::prelude::*;

verus! {

// ---------------------------------------------------------------------------
// Record marking
// ---------------------------------------------------------------------------

/// The high bit of a record mark: this fragment is the last of its record.
pub const LAST_FRAGMENT: u32 = 0x8000_0000;

/// The low 31 bits of a record mark: the fragment length.
pub const FRAGMENT_LENGTH_MASK: u32 = 0x7fff_ffff;

/// The largest payload one fragment can carry.
pub const MAX_FRAGMENT_LEN: usize = 0x7fff_ffff;

/// A single-fragment record: a mark with the last-fragment bit and the payload
/// length, then the payload.
pub open spec fn record_be(payload: Seq<u8>) -> Seq<u8> {
    u32_be((0x8000_0000 + payload.len()) as u32) + payload
}

/// Reads one fragment: its payload, or `None` when the input ends before the
/// length that the mark declares. The last-fragment bit is not looked at.
pub open spec fn record_of_be(b: Seq<u8>) -> Option<Seq<u8>> {
    if b.len() < 4 {
        None
    } else {
        let n = (u32_of_be(b) % 0x8000_0000) as nat;
        if b.len() < 4 + n {
            None
        } else {
            Some(b.subrange(4, 4 + n as int))
        }
    }
}

/// Unframing a framed payload gives the payload back, whatever follows it.
pub proof fn lemma_record_round_trip(p: Seq<u8>, rest: Seq<u8>)
    requires
        p.len() <= MAX_FRAGMENT_LEN,
    ensures
        record_be(p).len() == 4 + p.len(),
        record_of_be(record_be(p) + rest) == Some(p),
{
    let h = (0x8000_0000 + p.len()) as u32;
    lemma_u32_be_inverse(h);
    assert(record_be(p) + rest =~= u32_be(h) + (p + rest));
    lemma_u32_of_be_append(u32_be(h), p + rest);
    assert(h % 0x8000_0000 == p.len());
    assert((record_be(p) + rest).subrange(4, 4 + p.len() as int) =~= p);
}

/// Splits a record mark into its last-fragment flag and its length.
pub fn parse_record_mark(mark: u32) -> (r: (bool, u32))
    ensures
        r.0 == (mark >= LAST_FRAGMENT),
        r.1 == mark % 0x8000_0000,
{
    let last = (mark & LAST_FRAGMENT) != 0;
    let len = mark & FRAGMENT_LENGTH_MASK;
    assert(((mark & 0x8000_0000u32) != 0) == (mark >= 0x8000_0000u32)) by (bit_vector);
    assert(mark & 0x7fff_ffffu32 == mark % 0x8000_0000u32) by (bit_vector);
    (last, len)
}

/// Appends `payload` framed as the last (and only) fragment of a record.
pub fn write_record_marked(out: &mut Vec<u8>, payload: &[u8])
    requires
        payload@.len() <= MAX_FRAGMENT_LEN,
    ensures
        final(out)@ == old(out)@ + record_be(payload@),
{
    let ghost start = out@;
    let len = payload.len() as u32;
    let header = LAST_FRAGMENT | len;
    assert(len < 0x8000_0000u32 ==> 0x8000_0000u32 | len == 0x8000_0000u32 + len) by (bit_vector);
    write_u32(out, header);
    append_bytes(out, payload);
    assert(out@ =~= start + record_be(payload@));
}

/// Reads one record-marked fragment and returns its payload.
pub fn read_record_marked(r: &mut XdrCursor) -> (res: Result<Vec<u8>, XdrError>)
    ensures
        final(r).data() == old(r).data(),
        match res {
            Ok(v) => record_of_be(old(r).rest()) == Some(v@) && final(r).pos() == old(r).pos() + 4
                + v@.len(),
            Err(_) => record_of_be(old(r).rest()) is None,
        },
{
    proof {
        use_type_invariant(&*r);
    }
    let ghost b = r.rest();
    let mark = r.read_u32()?;
    let (_last, len) = parse_record_mark(mark);
    proof {
        assert(r.rest() =~= b.skip(4));
    }
    let v = r.read_bytes(len as usize)?;
    proof {
        assert(v@ =~= b.subrange(4, 4 + len as int));
    }
    Ok(v)
}

// ---------------------------------------------------------------------------
// Message type
// ---------------------------------------------------------------------------

/// The direction of an RPC message.
#[derive(Debug, Clone, Copy, PartialEq, Eq, Structural)]
pub enum RpcMessageType {
    Call,
    Reply,
}

impl View for RpcMessageType {
    type V = RpcMessageType;

    open spec fn view(&self) -> RpcMessageType {
        *self
    }
}

/// The wire value of a message type.
pub open spec fn msg_type_code(t: RpcMessageType) -> u32 {
    match t {
        RpcMessageType::Call => 0,
        RpcMessageType::Reply => 1,
    }
}

/// The message type a wire value stands for, if any.
pub open spec fn msg_type_of_code(v: u32) -> Option<RpcMessageType> {
    if v == 0 {
        Some(RpcMessageType::Call)
    } else if v == 1 {
        Some(RpcMessageType::Reply)
    } else {
        None
    }
}

impl RpcMessageType {
    /// The wire value of the message type.
    pub fn code(&self) -> (r: u32)
        ensures
            r == msg_type_code(*self),
    {
        match self {
            RpcMessageType::Call => 0,
            RpcMessageType::Reply => 1,
        }
    }
}

impl XdrSerialize for RpcMessageType {
    open spec fn spec_encodable(v: RpcMessageType) -> bool {
        true
    }

    open spec fn spec_encode(v: RpcMessageType) -> Seq<u8> {
        u32_be(msg_type_code(v))
    }

    fn xdr_serialize(&self, w: &mut Vec<u8>) {
        write_u32(w, self.code());
    }
}

impl XdrDeserialize for RpcMessageType {
    /// Any word but 0 and 1 is rejected.
    open spec fn spec_decode(b: Seq<u8>) -> Option<(RpcMessageType, nat)> {
        if b.len() < 4 {
            None
        } else {
            match msg_type_of_code(u32_of_be(b)) {
                Some(t) => Some((t, 4)),
                None => None,
            }
        }
    }

    fn xdr_deserialize(r: &mut XdrCursor) -> (res: Result<RpcMessageType, XdrError>)
        ensures
            old(r).rest().len() < 4 ==> res == Err::<RpcMessageType, XdrError>(
                XdrError::UnexpectedEof,
            ),
            old(r).rest().len() >= 4 && msg_type_of_code(u32_of_be(old(r).rest())) is None ==> res
                == Err::<RpcMessageType, XdrError>(XdrError::InvalidData),
    {
        let v = r.read_u32()?;
        if v == 0 {
            Ok(RpcMessageType::Call)
        } else if v == 1 {
            Ok(RpcMessageType::Reply)
        } else {
            Err(XdrError::InvalidData)
        }
    }

    proof fn lemma_decode_encode(v: RpcMessageType, rest: Seq<u8>) {
        lemma_u32_be_inverse(msg_type_code(v));
        lemma_u32_of_be_append(u32_be(msg_type_code(v)), rest);
    }
}

// ---------------------------------------------------------------------------
// Call header
// ---------------------------------------------------------------------------

/// The header of an RPC call. Its credential and verifier are read and dropped.
#[derive(Debug, Clone, Copy)]
pub struct RpcCallHeader {
    pub xid: u32,
    pub msg_type: RpcMessageType,
    pub rpcvers: u32,
    pub prog: u32,
    pub vers: u32,
    pub proc: u32,
}

impl View for RpcCallHeader {
    type V = RpcCallHeader;

    open spec fn view(&self) -> RpcCallHeader {
        *self
    }
}

/// How many bytes an authentication field takes (a flavor, then opaque data),
/// or `None` when the input ends inside it.
pub open spec fn auth_len_of_be(b: Seq<u8>) -> Option<nat> {
    if b.len() < 4 {
        None
    } else {
        match opaque_of_be(b.skip(4)) {
            Some((_, n)) => Some(4 + n),
            None => None,
        }
    }
}

/// The words of an encoded call header; credential and verifier are both null.
pub open spec fn call_header_words(h: RpcCallHeader) -> Seq<u32> {
    seq![h.xid, msg_type_code(h.msg_type), h.rpcvers, h.prog, h.vers, h.proc, 0u32, 0u32, 0u32, 0u32]
}

/// Reads a call header: six words, a credential and a verifier.
pub open spec fn call_header_of_be(b: Seq<u8>) -> Option<(RpcCallHeader, nat)> {
    if b.len() < 24 {
        None
    } else {
        match msg_type_of_code(u32_of_be(b.skip(4))) {
            None => None,
            Some(t) => match auth_len_of_be(b.skip(24)) {
                None => None,
                Some(c) => match auth_len_of_be(b.skip(24 + c as int)) {
                    None => None,
                    Some(v) => Some(
                        (
                            RpcCallHeader {
                                xid: u32_of_be(b),
                                msg_type: t,
                                rpcvers: u32_of_be(b.skip(8)),
                                prog: u32_of_be(b.skip(12)),
                                vers: u32_of_be(b.skip(16)),
                                proc: u32_of_be(b.skip(20)),
                            },
                            24 + c + v,
                        ),
                    ),
                },
            },
        }
    }
}

/// Reads an authentication field and drops it.
fn skip_auth(r: &mut XdrCursor) -> (res: Result<(), XdrError>)
    ensures
        final(r).data() == old(r).data(),
        match res {
            Ok(_) => auth_len_of_be(old(r).rest()) matches Some(n) && final(r).pos() == old(r).pos()
                + n,
            Err(_) => auth_len_of_be(old(r).rest()) is None,
        },
{
    proof {
        use_type_invariant(&*r);
    }
    let ghost b = r.rest();
    let _flavor = r.read_u32()?;
    proof {
        assert(r.rest() =~= b.skip(4));
    }
    let _body = read_opaque(r)?;
    Ok(())
}

impl XdrSerialize for RpcCallHeader {
    open spec fn spec_encodable(v: RpcCallHeader) -> bool {
        true
    }

    open spec fn spec_encode(v: RpcCallHeader) -> Seq<u8> {
        words_be(call_header_words(v))
    }

    fn xdr_serialize(&self, w: &mut Vec<u8>) {
        let ghost start = w@;
        write_u32(w, self.xid);
        write_u32(w, self.msg_type.code());
        write_u32(w, self.rpcvers);
        write_u32(w, self.prog);
        write_u32(w, self.vers);
        write_u32(w, self.proc);
        // credential: null flavor, empty body
        write_u32(w, 0);
        write_u32(w, 0);
        // verifier: null flavor, empty body
        write_u32(w, 0);
        write_u32(w, 0);
        proof {
            let ws = call_header_words(*self);
            reveal_with_fuel(words_be, 11);
            assert(w@ =~= start + words_be(ws));
        }
    }
}

impl XdrDeserialize for RpcCallHeader {
    open spec fn spec_decode(b: Seq<u8>) -> Option<(RpcCallHeader, nat)> {
        call_header_of_be(b)
    }

    fn xdr_deserialize(r: &mut XdrCursor) -> (res: Result<RpcCallHeader, XdrError>) {
        proof {
            use_type_invariant(&*r);
        }
        let ghost b = r.rest();
        let xid = r.read_u32()?;
        proof {
            assert(r.rest() =~= b.skip(4));
        }
        let msg_type = RpcMessageType::xdr_deserialize(r)?;
        proof {
            assert(r.rest() =~= b.skip(8));
        }
        let rpcvers = r.read_u32()?;
        proof {
            assert(r.rest() =~= b.skip(12));
        }
        let prog = r.read_u32()?;
        proof {
            assert(r.rest() =~= b.skip(16));
        }
        let vers = r.read_u32()?;
        proof {
            assert(r.rest() =~= b.skip(20));
        }
        let proc = r.read_u32()?;
        proof {
            assert(r.rest() =~= b.skip(24));
        }
        let ghost p1 = r.pos();
        skip_auth(r)?;
        proof {
            use_type_invariant(&*r);
            assert(r.rest() =~= b.skip(24 + (r.pos() - p1)));
        }
        skip_auth(r)?;
        Ok(RpcCallHeader { xid, msg_type, rpcvers, prog, vers, proc })
    }

    proof fn lemma_decode_encode(v: RpcCallHeader, rest: Seq<u8>) {
        let ws = call_header_words(v);
        let e = words_be(ws) + rest;
        lemma_words_be_read(ws, rest);
        assert(ws[1] == msg_type_code(v.msg_type));
        assert(e.skip(4 * 0int) =~= e);
        assert(u32_of_be(e.skip(4 * 0int)) == ws[0]);
        assert(u32_of_be(e.skip(4 * 1int)) == ws[1]);
        assert(u32_of_be(e.skip(4 * 2int)) == ws[2]);
        assert(u32_of_be(e.skip(4 * 3int)) == ws[3]);
        assert(u32_of_be(e.skip(4 * 4int)) == ws[4]);
        assert(u32_of_be(e.skip(4 * 5int)) == ws[5]);
        assert(u32_of_be(e.skip(4 * 7int)) == ws[7]);
        assert(u32_of_be(e.skip(4 * 9int)) == ws[9]);
        assert(e.skip(24).skip(4) =~= e.skip(28));
        assert(e.skip(32).skip(4) =~= e.skip(36));
        assert(opaque_of_be(e.skip(28)) == Some((e.skip(28).subrange(4, 4), 4nat)));
        assert(opaque_of_be(e.skip(36)) == Some((e.skip(36).subrange(4, 4), 4nat)));
        assert(auth_len_of_be(e.skip(24)) == Some(8nat));
        assert(auth_len_of_be(e.skip(32)) == Some(8nat));
    }
}

// ---------------------------------------------------------------------------
// Reply header
// ---------------------------------------------------------------------------

/// The header of an accepted RPC reply.
#[derive(Debug, Clone, Copy)]
pub struct RpcReplyHeader {
    pub xid: u32,
    pub msg_type: RpcMessageType,
    /// 0: the call was accepted.
    pub reply_state: u32,
    /// 0: null verifier.
    pub verf_flavor: u32,
    pub verf_len: u32,
    /// 0: the call was carried out.
    pub accept_state: u32,
}

impl View for RpcReplyHeader {
    type V = RpcReplyHeader;

    open spec fn view(&self) -> RpcReplyHeader {
        *self
    }
}

/// The words of an encoded reply header (the verifier body is not written).
pub open spec fn reply_header_words(h: RpcReplyHeader) -> Seq<u32> {
    seq![h.xid, msg_type_code(h.msg_type), h.reply_state, h.verf_flavor, h.verf_len, h.accept_state]
}

/// Reads a reply header: five words, the verifier body with its padding, and the
/// accept state.
pub open spec fn reply_header_of_be(b: Seq<u8>) -> Option<(RpcReplyHeader, nat)> {
    if b.len() < 20 {
        None
    } else {
        match msg_type_of_code(u32_of_be(b.skip(4))) {
            None => None,
            Some(t) => {
                let vl = u32_of_be(b.skip(16)) as nat;
                let body = vl + pad_len(vl);
                if b.len() < 24 + body {
                    None
                } else {
                    Some(
                        (
                            RpcReplyHeader {
                                xid: u32_of_be(b),
                                msg_type: t,
                                reply_state: u32_of_be(b.skip(8)),
                                verf_flavor: u32_of_be(b.skip(12)),
                                verf_len: vl as u32,
                                accept_state: u32_of_be(b.skip(20 + body as int)),
                            },
                            24 + body,
                        ),
                    )
                }
            },
        }
    }
}

impl RpcReplyHeader {
    /// The header of a reply that accepts and carries out call `xid`, with a null
    /// verifier.
    pub fn success(xid: u32) -> (r: RpcReplyHeader)
        ensures
            r == (RpcReplyHeader {
                xid,
                msg_type: RpcMessageType::Reply,
                reply_state: 0,
                verf_flavor: 0,
                verf_len: 0,
                accept_state: 0,
            }),
    {
        RpcReplyHeader {
            xid,
            msg_type: RpcMessageType::Reply,
            reply_state: 0,
            verf_flavor: 0,
            verf_len: 0,
            accept_state: 0,
        }
    }
}

impl XdrSerialize for RpcReplyHeader {
    /// The encoder writes no verifier body, so its length must be zero.
    open spec fn spec_encodable(v: RpcReplyHeader) -> bool {
        v.verf_len == 0
    }

    open spec fn spec_encode(v: RpcReplyHeader) -> Seq<u8> {
        words_be(reply_header_words(v))
    }

    fn xdr_serialize(&self, w: &mut Vec<u8>) {
        let ghost start = w@;
        write_u32(w, self.xid);
        write_u32(w, self.msg_type.code());
        write_u32(w, self.reply_state);
        write_u32(w, self.verf_flavor);
        write_u32(w, self.verf_len);
        write_u32(w, self.accept_state);
        proof {
            let ws = reply_header_words(*self);
            reveal_with_fuel(words_be, 7);
            assert(w@ =~= start + words_be(ws));
        }
    }
}

impl XdrDeserialize for RpcReplyHeader {
    open spec fn spec_decode(b: Seq<u8>) -> Option<(RpcReplyHeader, nat)> {
        reply_header_of_be(b)
    }

    fn xdr_deserialize(r: &mut XdrCursor) -> (res: Result<RpcReplyHeader, XdrError>) {
        proof {
            use_type_invariant(&*r);
        }
        let ghost b = r.rest();
        let xid = r.read_u32()?;
        proof {
            assert(r.rest() =~= b.skip(4));
        }
        let msg_type = RpcMessageType::xdr_deserialize(r)?;
        proof {
            assert(r.rest() =~= b.skip(8));
        }
        let reply_state = r.read_u32()?;
        proof {
            assert(r.rest() =~= b.skip(12));
        }
        let verf_flavor = r.read_u32()?;
        proof {
            assert(r.rest() =~= b.skip(16));
        }
        let verf_len = r.read_u32()?;
        proof {
            assert(r.rest() =~= b.skip(20));
        }
        let _body = r.read_bytes(verf_len as usize)?;
        proof {
            assert(r.rest() =~= b.skip(20 + verf_len));
        }
        r.skip(padding(verf_len as usize))?;
        proof {
            assert(r.rest() =~= b.skip(20 + verf_len + pad_len(verf_len as nat)));
        }
        let accept_state = r.read_u32()?;
        Ok(RpcReplyHeader { xid, msg_type, reply_state, verf_flavor, verf_len, accept_state })
    }

    proof fn lemma_decode_encode(v: RpcReplyHeader, rest: Seq<u8>) {
        let ws = reply_header_words(v);
        let e = words_be(ws) + rest;
        lemma_words_be_read(ws, rest);
        assert(ws[1] == msg_type_code(v.msg_type));
        assert(e.skip(4 * 0int) =~= e);
        assert(u32_of_be(e.skip(4 * 0int)) == ws[0]);
        assert(u32_of_be(e.skip(4 * 1int)) == ws[1]);
        assert(u32_of_be(e.skip(4 * 2int)) == ws[2]);
        assert(u32_of_be(e.skip(4 * 3int)) == ws[3]);
        assert(u32_of_be(e.skip(4 * 4int)) == ws[4]);
        assert(u32_of_be(e.skip(4 * 5int)) == ws[5]);
        assert(pad_len(0) == 0);
    }
}

} // verus!
