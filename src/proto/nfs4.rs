//! The NFS version 4 program: constants, operation codes, compound arguments
//! and results.
use crate::xdr::{
    append_bytes, lemma_opaque_of_be_extend, lemma_opaque_reencode, lemma_opaque_round_trip,
    lemma_u32_array_of_be_extend, lemma_u32_array_reencode, lemma_u32_array_round_trip,
    opaque_padding_zero, lemma_u32_be_inverse, lemma_u32_of_be_append, opaque_be,
    opaque_of_be, read_opaque, read_u32_array, serialize_to_vec, u32_array_be, u32_array_of_be,
    u32_be, u32_of_be, write_opaque, write_u32, XdrCursor, XdrDeserialize, XdrError, XdrSerialize,
    XdrString,
};
use vstd::prelude::*;

verus! {

/// The RPC program number of NFS.
pub const NFS4_PROGRAM: u32 = 100003;

/// The major version this server speaks.
pub const NFS4_VERSION: u32 = 4;

/// Status: the operation succeeded.
pub const NFS4_OK: u32 = 0;

/// Status: the operation is not supported.
pub const NFS4ERR_NOTSUPP: u32 = 10004;

/// Status: the call names a program or version this server does not serve.
pub const NFS4ERR_BADTYPE: u32 = 10007;

/// Status: the operation needs a current filehandle and none is set.
pub const NFS4ERR_NOFILEHANDLE: u32 = 10020;

/// File type: regular file.
pub const NF4REG: u32 = 1;

/// File type: directory.
pub const NF4DIR: u32 = 2;

/// Filehandle expiry type: handles never expire.
pub const FH4_PERSISTENT: u32 = 0x0000_0000;

/// Attribute number: the set of supported attributes (never returned here).
pub const FATTR4_SUPPORTED_ATTRS: u32 = 0;

/// Attribute number: the object type.
pub const FATTR4_TYPE: u32 = 1;

/// Attribute number: the filehandle expiry type.
pub const FATTR4_FH_EXPIRE_TYPE: u32 = 2;

/// Attribute number: the change id.
pub const FATTR4_CHANGE: u32 = 3;

/// Attribute number: the size.
pub const FATTR4_SIZE: u32 = 4;

/// Attribute number: the filehandle.
pub const FATTR4_FILEHANDLE: u32 = 19;

/// The procedures of the program.
#[derive(Debug, Copy, Clone, PartialEq, Eq, Structural)]
pub enum Nfs4Proc {
    Null,
    /// Procedure 1 carries a compound request.
    Compound,
}

/// The wire value of a procedure.
pub open spec fn nfs_proc_code(p: Nfs4Proc) -> u32 {
    match p {
        Nfs4Proc::Null => 0,
        Nfs4Proc::Compound => 1,
    }
}

impl Nfs4Proc {
    /// The wire value of the procedure.
    pub fn code(&self) -> (r: u32)
        ensures
            r == nfs_proc_code(*self),
    {
        match self {
            Nfs4Proc::Null => 0,
            Nfs4Proc::Compound => 1,
        }
    }
}

/// The operations a compound request can hold.
#[derive(Debug, Copy, Clone, PartialEq, Eq, Structural)]
pub enum NfsOp4 {
    OpAccess,
    OpClose,
    OpCommit,
    OpCreate,
    OpDelegpurge,
    OpDelegreturn,
    OpGetattr,
    OpGetfh,
    OpLink,
    OpLock,
    OpLockt,
    OpLocku,
    OpLookup,
    OpLookupp,
    OpNverify,
    OpOpen,
    OpOpenattr,
    OpOpenConfirm,
    OpOpenDowngrade,
    OpPutfh,
    OpPutpubfh,
    OpPutrootfh,
    OpRead,
    OpReaddir,
    OpReadlink,
    OpRemove,
    OpRename,
    OpRenew,
    OpRestorefh,
    OpSavefh,
    OpSecinfo,
    OpSetattr,
    OpSetclientid,
    OpSetclientidConfirm,
    OpVerify,
    OpWrite,
    OpReleaseLockowner,
    // operations added by minor versions 1 and 2
    OpAllocate,
    OpCopy,
    OpCopyNotify,
    OpDeallocate,
    OpIoAdvise,
    OpLayouterror,
    OpLayoutstats,
    OpOffloadCancel,
    OpOffloadStatus,
    OpReadPlus,
    OpSeek,
    OpWriteSame,
    OpClone,
}

/// The wire value of an operation.
pub open spec fn nfs_op_code(op: NfsOp4) -> u32 {
    match op {
        NfsOp4::OpAccess => 3,
        NfsOp4::OpClose => 4,
        NfsOp4::OpCommit => 5,
        NfsOp4::OpCreate => 6,
        NfsOp4::OpDelegpurge => 7,
        NfsOp4::OpDelegreturn => 8,
        NfsOp4::OpGetattr => 9,
        NfsOp4::OpGetfh => 10,
        NfsOp4::OpLink => 11,
        NfsOp4::OpLock => 12,
        NfsOp4::OpLockt => 13,
        NfsOp4::OpLocku => 14,
        NfsOp4::OpLookup => 15,
        NfsOp4::OpLookupp => 16,
        NfsOp4::OpNverify => 17,
        NfsOp4::OpOpen => 18,
        NfsOp4::OpOpenattr => 19,
        NfsOp4::OpOpenConfirm => 20,
        NfsOp4::OpOpenDowngrade => 21,
        NfsOp4::OpPutfh => 22,
        NfsOp4::OpPutpubfh => 23,
        NfsOp4::OpPutrootfh => 24,
        NfsOp4::OpRead => 25,
        NfsOp4::OpReaddir => 26,
        NfsOp4::OpReadlink => 27,
        NfsOp4::OpRemove => 28,
        NfsOp4::OpRename => 29,
        NfsOp4::OpRenew => 30,
        NfsOp4::OpRestorefh => 31,
        NfsOp4::OpSavefh => 32,
        NfsOp4::OpSecinfo => 33,
        NfsOp4::OpSetattr => 34,
        NfsOp4::OpSetclientid => 35,
        NfsOp4::OpSetclientidConfirm => 36,
        NfsOp4::OpVerify => 37,
        NfsOp4::OpWrite => 38,
        NfsOp4::OpReleaseLockowner => 39,
        NfsOp4::OpAllocate => 59,
        NfsOp4::OpCopy => 60,
        NfsOp4::OpCopyNotify => 61,
        NfsOp4::OpDeallocate => 62,
        NfsOp4::OpIoAdvise => 63,
        NfsOp4::OpLayouterror => 64,
        NfsOp4::OpLayoutstats => 65,
        NfsOp4::OpOffloadCancel => 66,
        NfsOp4::OpOffloadStatus => 67,
        NfsOp4::OpReadPlus => 68,
        NfsOp4::OpSeek => 69,
        NfsOp4::OpWriteSame => 70,
        NfsOp4::OpClone => 71,
    }
}

/// The operation a wire value stands for, if it names one.
pub open spec fn nfs_op_of_code(c: u32) -> Option<NfsOp4> {
    match c {
        3 => Some(NfsOp4::OpAccess),
        4 => Some(NfsOp4::OpClose),
        5 => Some(NfsOp4::OpCommit),
        6 => Some(NfsOp4::OpCreate),
        7 => Some(NfsOp4::OpDelegpurge),
        8 => Some(NfsOp4::OpDelegreturn),
        9 => Some(NfsOp4::OpGetattr),
        10 => Some(NfsOp4::OpGetfh),
        11 => Some(NfsOp4::OpLink),
        12 => Some(NfsOp4::OpLock),
        13 => Some(NfsOp4::OpLockt),
        14 => Some(NfsOp4::OpLocku),
        15 => Some(NfsOp4::OpLookup),
        16 => Some(NfsOp4::OpLookupp),
        17 => Some(NfsOp4::OpNverify),
        18 => Some(NfsOp4::OpOpen),
        19 => Some(NfsOp4::OpOpenattr),
        20 => Some(NfsOp4::OpOpenConfirm),
        21 => Some(NfsOp4::OpOpenDowngrade),
        22 => Some(NfsOp4::OpPutfh),
        23 => Some(NfsOp4::OpPutpubfh),
        24 => Some(NfsOp4::OpPutrootfh),
        25 => Some(NfsOp4::OpRead),
        26 => Some(NfsOp4::OpReaddir),
        27 => Some(NfsOp4::OpReadlink),
        28 => Some(NfsOp4::OpRemove),
        29 => Some(NfsOp4::OpRename),
        30 => Some(NfsOp4::OpRenew),
        31 => Some(NfsOp4::OpRestorefh),
        32 => Some(NfsOp4::OpSavefh),
        33 => Some(NfsOp4::OpSecinfo),
        34 => Some(NfsOp4::OpSetattr),
        35 => Some(NfsOp4::OpSetclientid),
        36 => Some(NfsOp4::OpSetclientidConfirm),
        37 => Some(NfsOp4::OpVerify),
        38 => Some(NfsOp4::OpWrite),
        39 => Some(NfsOp4::OpReleaseLockowner),
        59 => Some(NfsOp4::OpAllocate),
        60 => Some(NfsOp4::OpCopy),
        61 => Some(NfsOp4::OpCopyNotify),
        62 => Some(NfsOp4::OpDeallocate),
        63 => Some(NfsOp4::OpIoAdvise),
        64 => Some(NfsOp4::OpLayouterror),
        65 => Some(NfsOp4::OpLayoutstats),
        66 => Some(NfsOp4::OpOffloadCancel),
        67 => Some(NfsOp4::OpOffloadStatus),
        68 => Some(NfsOp4::OpReadPlus),
        69 => Some(NfsOp4::OpSeek),
        70 => Some(NfsOp4::OpWriteSame),
        71 => Some(NfsOp4::OpClone),
        _ => None,
    }
}

impl NfsOp4 {
    /// The wire value of the operation.
    pub fn code(&self) -> (r: u32)
        ensures
            r == nfs_op_code(*self),
    {
        match self {
            NfsOp4::OpAccess => 3,
            NfsOp4::OpClose => 4,
            NfsOp4::OpCommit => 5,
            NfsOp4::OpCreate => 6,
            NfsOp4::OpDelegpurge => 7,
            NfsOp4::OpDelegreturn => 8,
            NfsOp4::OpGetattr => 9,
            NfsOp4::OpGetfh => 10,
            NfsOp4::OpLink => 11,
            NfsOp4::OpLock => 12,
            NfsOp4::OpLockt => 13,
            NfsOp4::OpLocku => 14,
            NfsOp4::OpLookup => 15,
            NfsOp4::OpLookupp => 16,
            NfsOp4::OpNverify => 17,
            NfsOp4::OpOpen => 18,
            NfsOp4::OpOpenattr => 19,
            NfsOp4::OpOpenConfirm => 20,
            NfsOp4::OpOpenDowngrade => 21,
            NfsOp4::OpPutfh => 22,
            NfsOp4::OpPutpubfh => 23,
            NfsOp4::OpPutrootfh => 24,
            NfsOp4::OpRead => 25,
            NfsOp4::OpReaddir => 26,
            NfsOp4::OpReadlink => 27,
            NfsOp4::OpRemove => 28,
            NfsOp4::OpRename => 29,
            NfsOp4::OpRenew => 30,
            NfsOp4::OpRestorefh => 31,
            NfsOp4::OpSavefh => 32,
            NfsOp4::OpSecinfo => 33,
            NfsOp4::OpSetattr => 34,
            NfsOp4::OpSetclientid => 35,
            NfsOp4::OpSetclientidConfirm => 36,
            NfsOp4::OpVerify => 37,
            NfsOp4::OpWrite => 38,
            NfsOp4::OpReleaseLockowner => 39,
            NfsOp4::OpAllocate => 59,
            NfsOp4::OpCopy => 60,
            NfsOp4::OpCopyNotify => 61,
            NfsOp4::OpDeallocate => 62,
            NfsOp4::OpIoAdvise => 63,
            NfsOp4::OpLayouterror => 64,
            NfsOp4::OpLayoutstats => 65,
            NfsOp4::OpOffloadCancel => 66,
            NfsOp4::OpOffloadStatus => 67,
            NfsOp4::OpReadPlus => 68,
            NfsOp4::OpSeek => 69,
            NfsOp4::OpWriteSame => 70,
            NfsOp4::OpClone => 71,
        }
    }

    /// The operation a wire value stands for; `None` for a value that names none.
    pub fn from_code(c: u32) -> (r: Option<NfsOp4>)
        ensures
            r == nfs_op_of_code(c),
    {
        match c {
            3 => Some(NfsOp4::OpAccess),
            4 => Some(NfsOp4::OpClose),
            5 => Some(NfsOp4::OpCommit),
            6 => Some(NfsOp4::OpCreate),
            7 => Some(NfsOp4::OpDelegpurge),
            8 => Some(NfsOp4::OpDelegreturn),
            9 => Some(NfsOp4::OpGetattr),
            10 => Some(NfsOp4::OpGetfh),
            11 => Some(NfsOp4::OpLink),
            12 => Some(NfsOp4::OpLock),
            13 => Some(NfsOp4::OpLockt),
            14 => Some(NfsOp4::OpLocku),
            15 => Some(NfsOp4::OpLookup),
            16 => Some(NfsOp4::OpLookupp),
            17 => Some(NfsOp4::OpNverify),
            18 => Some(NfsOp4::OpOpen),
            19 => Some(NfsOp4::OpOpenattr),
            20 => Some(NfsOp4::OpOpenConfirm),
            21 => Some(NfsOp4::OpOpenDowngrade),
            22 => Some(NfsOp4::OpPutfh),
            23 => Some(NfsOp4::OpPutpubfh),
            24 => Some(NfsOp4::OpPutrootfh),
            25 => Some(NfsOp4::OpRead),
            26 => Some(NfsOp4::OpReaddir),
            27 => Some(NfsOp4::OpReadlink),
            28 => Some(NfsOp4::OpRemove),
            29 => Some(NfsOp4::OpRename),
            30 => Some(NfsOp4::OpRenew),
            31 => Some(NfsOp4::OpRestorefh),
            32 => Some(NfsOp4::OpSavefh),
            33 => Some(NfsOp4::OpSecinfo),
            34 => Some(NfsOp4::OpSetattr),
            35 => Some(NfsOp4::OpSetclientid),
            36 => Some(NfsOp4::OpSetclientidConfirm),
            37 => Some(NfsOp4::OpVerify),
            38 => Some(NfsOp4::OpWrite),
            39 => Some(NfsOp4::OpReleaseLockowner),
            59 => Some(NfsOp4::OpAllocate),
            60 => Some(NfsOp4::OpCopy),
            61 => Some(NfsOp4::OpCopyNotify),
            62 => Some(NfsOp4::OpDeallocate),
            63 => Some(NfsOp4::OpIoAdvise),
            64 => Some(NfsOp4::OpLayouterror),
            65 => Some(NfsOp4::OpLayoutstats),
            66 => Some(NfsOp4::OpOffloadCancel),
            67 => Some(NfsOp4::OpOffloadStatus),
            68 => Some(NfsOp4::OpReadPlus),
            69 => Some(NfsOp4::OpSeek),
            70 => Some(NfsOp4::OpWriteSame),
            71 => Some(NfsOp4::OpClone),
            _ => None,
        }
    }
}

// ---------------------------------------------------------------------------
// Attribute bitmaps
// ---------------------------------------------------------------------------

/// The largest element of `bits`, or 0 when it is empty.
pub open spec fn seq_max(bits: Seq<u32>) -> u32
    decreases bits.len(),
{
    if bits.len() == 0 {
        0
    } else {
        let m = seq_max(bits.drop_last());
        if bits.last() > m {
            bits.last()
        } else {
            m
        }
    }
}

/// No element of `bits` exceeds `seq_max(bits)`.
pub proof fn lemma_seq_max(bits: Seq<u32>)
    ensures
        forall|j: int| 0 <= j < bits.len() ==> #[trigger] bits[j] <= seq_max(bits),
    decreases bits.len(),
{
    if bits.len() > 0 {
        lemma_seq_max(bits.drop_last());
        assert forall|j: int| 0 <= j < bits.len() implies #[trigger] bits[j] <= seq_max(bits) by {
            if j < bits.len() - 1 {
                assert(bits[j] == bits.drop_last()[j]);
            }
        }
    }
}

/// A bound on every element of `bits` bounds `seq_max(bits)`.
pub proof fn lemma_seq_max_bound(bits: Seq<u32>, bound: u32)
    requires
        forall|j: int| 0 <= j < bits.len() ==> #[trigger] bits[j] <= bound,
    ensures
        seq_max(bits) <= bound,
    decreases bits.len(),
{
    if bits.len() > 0 {
        let p = bits.drop_last();
        assert forall|j: int| 0 <= j < p.len() implies #[trigger] p[j] <= bound by {
            assert(p[j] == bits[j]);
        }
        lemma_seq_max_bound(p, bound);
        assert(bits.last() == bits[bits.len() - 1]);
    }
}

/// `words` with bit `b` set: bit `b % 32` of word `b / 32`.
pub open spec fn set_bit(words: Seq<u32>, b: u32) -> Seq<u32> {
    words.update((b / 32) as int, words[(b / 32) as int] | (1u32 << (b % 32)))
}

/// `words` with every bit of `bits` set, in order.
pub open spec fn set_bits(words: Seq<u32>, bits: Seq<u32>) -> Seq<u32>
    decreases bits.len(),
{
    if bits.len() == 0 {
        words
    } else {
        set_bit(set_bits(words, bits.drop_last()), bits.last())
    }
}

/// The number of words of the smallest bitmap that holds every bit of `bits`:
/// enough for the largest bit, and none when `bits` is empty.
pub open spec fn bitmap_len(bits: Seq<u32>) -> nat {
    if bits.len() == 0 {
        0
    } else {
        (seq_max(bits) / 32 + 1) as nat
    }
}

/// The smallest bitmap that holds every bit of `bits`, with exactly those bits
/// set.
pub open spec fn bitmap_of(bits: Seq<u32>) -> Seq<u32> {
    set_bits(Seq::new(bitmap_len(bits), |_i: int| 0u32), bits)
}

/// Whether bit `b` is set in a bitmap; bits past its last word are clear.
pub open spec fn bitmap_has(words: Seq<u32>, b: u32) -> bool {
    &&& (b / 32) < words.len()
    &&& words[(b / 32) as int] & (1u32 << (b % 32)) != 0
}

/// Setting bits never changes the number of words.
pub proof fn lemma_set_bits_len(words: Seq<u32>, bits: Seq<u32>)
    requires
        forall|j: int| 0 <= j < bits.len() ==> (#[trigger] bits[j] / 32) < words.len(),
    ensures
        set_bits(words, bits).len() == words.len(),
    decreases bits.len(),
{
    if bits.len() > 0 {
        let p = bits.drop_last();
        assert forall|j: int| 0 <= j < p.len() implies (#[trigger] p[j] / 32) < words.len() by {
            assert(p[j] == bits[j]);
        }
        lemma_set_bits_len(words, p);
        assert(bits.last() == bits[bits.len() - 1]);
    }
}

/// Builds the bitmap that holds exactly the given attribute numbers.
pub fn bitmap4_with(bits: &[u32]) -> (r: Vec<u32>)
    ensures
        r@ == bitmap_of(bits@),
        r@.len() == bitmap_len(bits@),
{
    if bits.len() == 0 {
        let empty: Vec<u32> = Vec::new();
        assert(empty@ =~= bitmap_of(bits@));
        return empty;
    }
    let mut max_bit: u32 = 0;
    let mut i: usize = 0;
    while i < bits.len()
        invariant
            i <= bits@.len(),
            max_bit == seq_max(bits@.take(i as int)),
        decreases bits@.len() - i,
    {
        proof {
            assert(bits@.take(i + 1).drop_last() =~= bits@.take(i as int));
        }
        if bits[i] > max_bit {
            max_bit = bits[i];
        }
        i = i + 1;
    }
    proof {
        assert(bits@.take(bits@.len() as int) =~= bits@);
        lemma_seq_max(bits@);
    }
    let words = (max_bit / 32) as usize + 1;
    let mut v: Vec<u32> = Vec::new();
    let mut k: usize = 0;
    while k < words
        invariant
            k <= words,
            v@ == Seq::new(k as nat, |_i: int| 0u32),
        decreases words - k,
    {
        v.push(0u32);
        k = k + 1;
        assert(v@ =~= Seq::new(k as nat, |_i: int| 0u32));
    }
    let ghost zero = v@;
    let mut i: usize = 0;
    while i < bits.len()
        invariant
            i <= bits@.len(),
            words == seq_max(bits@) / 32 + 1,
            zero.len() == words,
            zero == Seq::new(words as nat, |_i: int| 0u32),
            forall|j: int| 0 <= j < bits@.len() ==> #[trigger] bits@[j] <= seq_max(bits@),
            v@ == set_bits(zero, bits@.take(i as int)),
            v@.len() == words,
        decreases bits@.len() - i,
    {
        let b = bits[i];
        let idx = (b / 32) as usize;
        let off = b % 32;
        proof {
            assert(b <= seq_max(bits@));
            assert(bits@.take(i + 1).drop_last() =~= bits@.take(i as int));
            assert(bits@.take(i + 1).last() == b);
        }
        let w = v[idx] | (1u32 << off);
        v.set(idx, w);
        i = i + 1;
    }
    proof {
        assert(bits@.take(bits@.len() as int) =~= bits@);
    }
    v
}

// ---------------------------------------------------------------------------
// Operation arguments
// ---------------------------------------------------------------------------

/// Wire value of GETATTR.
pub const OP_GETATTR: u32 = 9;

/// Wire value of GETFH.
pub const OP_GETFH: u32 = 10;

/// Wire value of LOOKUP.
pub const OP_LOOKUP: u32 = 15;

/// Wire value of PUTFH.
pub const OP_PUTFH: u32 = 22;

/// Wire value of PUTROOTFH.
pub const OP_PUTROOTFH: u32 = 24;

/// Wire value of SETATTR.
pub const OP_SETATTR: u32 = 34;

/// Reads the operand of an operation with code `opcode`: its re-encoding (the
/// form kept in `Op4::opdata`) and how many input bytes it took. GETATTR takes
/// a bitmap, PUTFH an opaque filehandle, LOOKUP a name, SETATTR a bitmap and
/// opaque attribute values; every other operation takes nothing.
#[verifier::opaque]
pub open spec fn operand_of_be(opcode: u32, b: Seq<u8>) -> Option<(Seq<u8>, nat)> {
    if opcode == OP_GETATTR {
        match u32_array_of_be(b) {
            Some((bm, n)) => Some((u32_array_be(bm), n)),
            None => None,
        }
    } else if opcode == OP_PUTFH || opcode == OP_LOOKUP {
        match opaque_of_be(b) {
            Some((h, n)) => Some((opaque_be(h), n)),
            None => None,
        }
    } else if opcode == OP_SETATTR {
        match u32_array_of_be(b) {
            Some((bm, n)) => match opaque_of_be(b.skip(n as int)) {
                Some((a, m)) => Some((u32_array_be(bm) + opaque_be(a), n + m)),
                None => None,
            },
            None => None,
        }
    } else {
        Some((Seq::empty(), 0))
    }
}

/// Reads the operand of an operation with code `opcode` and returns its
/// re-encoding.
pub fn read_operand(r: &mut XdrCursor, opcode: u32) -> (res: Result<Vec<u8>, XdrError>)
    ensures
        final(r).data() == old(r).data(),
        match res {
            Ok(d) => operand_of_be(opcode, old(r).rest()) matches Some((w, n)) && w == d@
                && final(r).pos() == old(r).pos() + n,
            Err(_) => operand_of_be(opcode, old(r).rest()) is None,
        },
{
    proof {
        use_type_invariant(&*r);
        reveal(operand_of_be);
    }
    let ghost b = r.rest();
    if opcode == OP_GETATTR {
        let bm = read_u32_array(r)?;
        Ok(serialize_to_vec(&bm))
    } else if opcode == OP_PUTFH || opcode == OP_LOOKUP {
        let fh = read_opaque(r)?;
        Ok(serialize_to_vec(&fh))
    } else if opcode == OP_SETATTR {
        let ghost p0 = r.pos();
        let bm = read_u32_array(r)?;
        proof {
            use_type_invariant(&*r);
            assert(r.rest() =~= b.skip((r.pos() - p0) as int));
        }
        let attrs = read_opaque(r)?;
        let mut opdata = serialize_to_vec(&bm);
        let tail = serialize_to_vec(&attrs);
        append_bytes(&mut opdata, tail.as_slice());
        Ok(opdata)
    } else {
        Ok(Vec::new())
    }
}

/// Reading an operand looks at the bytes it takes and no further.
pub proof fn lemma_operand_of_be_extend(opcode: u32, b: Seq<u8>, more: Seq<u8>)
    requires
        operand_of_be(opcode, b) is Some,
    ensures
        operand_of_be(opcode, b + more) == operand_of_be(opcode, b),
        operand_of_be(opcode, b) matches Some((_d, n)) ==> n <= b.len(),
{
    reveal(operand_of_be);
    if opcode == OP_GETATTR {
        lemma_u32_array_of_be_extend(b, more);
    } else if opcode == OP_PUTFH || opcode == OP_LOOKUP {
        lemma_opaque_of_be_extend(b, more);
    } else if opcode == OP_SETATTR {
        lemma_u32_array_of_be_extend(b, more);
        let n = u32_array_of_be(b)->Some_0.1;
        assert((b + more).skip(n as int) =~= b.skip(n as int) + more);
        lemma_opaque_of_be_extend(b.skip(n as int), more);
    }
}

/// An operand in the form kept in `Op4::opdata`: it reads back as itself and
/// takes all of its bytes.
pub open spec fn operand_canonical(opcode: u32, d: Seq<u8>) -> bool {
    operand_of_be(opcode, d) == Some((d, d.len()))
}

/// What an operand reads to is itself canonical.
pub proof fn lemma_operand_reencoding_canonical(opcode: u32, b: Seq<u8>)
    requires
        operand_of_be(opcode, b) is Some,
    ensures
        operand_of_be(opcode, b) matches Some((d, _n)) && operand_canonical(opcode, d),
{
    reveal(operand_of_be);
    if opcode == OP_GETATTR {
        let bm = u32_array_of_be(b)->Some_0.0;
        lemma_u32_array_round_trip(bm, Seq::empty());
        assert(u32_array_be(bm) + Seq::<u8>::empty() =~= u32_array_be(bm));
    } else if opcode == OP_PUTFH || opcode == OP_LOOKUP {
        let h = opaque_of_be(b)->Some_0.0;
        lemma_opaque_round_trip(h, Seq::empty());
        assert(opaque_be(h) + Seq::<u8>::empty() =~= opaque_be(h));
    } else if opcode == OP_SETATTR {
        let (bm, n) = u32_array_of_be(b)->Some_0;
        let a = opaque_of_be(b.skip(n as int))->Some_0.0;
        let d = u32_array_be(bm) + opaque_be(a);
        lemma_u32_array_round_trip(bm, opaque_be(a));
        lemma_opaque_round_trip(a, Seq::empty());
        assert(d.skip(u32_array_be(bm).len() as int) =~= opaque_be(a) + Seq::<u8>::empty());
    } else {
    }
}

/// The opaque parts of the operand at the front of `b` end in zero padding: the
/// handle of PUTFH, the name of LOOKUP, the attribute values of SETATTR.
pub open spec fn operand_padding_zero(opcode: u32, b: Seq<u8>) -> bool {
    if opcode == OP_PUTFH || opcode == OP_LOOKUP {
        opaque_padding_zero(b)
    } else if opcode == OP_SETATTR {
        opaque_padding_zero(b.skip(4 + 4 * u32_of_be(b) as int))
    } else {
        true
    }
}

/// Decoding an operand and re-encoding it gives back exactly the bytes it was
/// decoded from, for every operand whose opaque parts carry zero padding (as
/// every encoder writes them); a bitmap operand has no padding and always comes
/// back exactly.
pub proof fn lemma_operand_reencode_exact(opcode: u32, b: Seq<u8>)
    requires
        operand_of_be(opcode, b) is Some,
        operand_padding_zero(opcode, b),
    ensures
        operand_of_be(opcode, b) matches Some((d, n)) && d == b.take(n as int),
{
    reveal(operand_of_be);
    if opcode == OP_GETATTR {
        lemma_u32_array_reencode(b);
    } else if opcode == OP_PUTFH || opcode == OP_LOOKUP {
        lemma_opaque_reencode(b);
    } else if opcode == OP_SETATTR {
        lemma_u32_array_reencode(b);
        let n = u32_array_of_be(b)->Some_0.1;
        assert(n == 4 + 4 * u32_of_be(b) as int);
        lemma_opaque_reencode(b.skip(n as int));
        let m = opaque_of_be(b.skip(n as int))->Some_0.1;
        assert(b.take((n + m) as int) =~= b.take(n as int) + b.skip(n as int).take(m as int));
    } else {
        assert(b.take(0) =~= Seq::<u8>::empty());
    }
}

/// One operation of a compound request: its code and its operand, kept in
/// encoded form (empty for operations that take no operand here).
#[derive(Debug, Clone)]
pub struct Op4 {
    pub opcode: u32,
    pub opdata: Vec<u8>,
}

/// The value of an `Op4`.
pub ghost struct Op4Model {
    pub opcode: u32,
    pub opdata: Seq<u8>,
}

impl View for Op4 {
    type V = Op4Model;

    open spec fn view(&self) -> Op4Model {
        Op4Model { opcode: self.opcode, opdata: self.opdata@ }
    }
}

/// The arguments of a compound request.
#[derive(Debug, Default, Clone)]
pub struct Compound4args {
    pub tag: XdrString,
    pub minorversion: u32,
    pub operations: Vec<Op4>,
}

/// The value of a `Compound4args`.
pub ghost struct Compound4argsModel {
    pub tag: Seq<u8>,
    pub minorversion: u32,
    pub operations: Seq<Op4Model>,
}

impl View for Compound4args {
    type V = Compound4argsModel;

    open spec fn view(&self) -> Compound4argsModel {
        Compound4argsModel {
            tag: self.tag@,
            minorversion: self.minorversion,
            operations: self.operations@.map_values(|o: Op4| o@),
        }
    }
}

/// One operation on the wire: its code, then its operand.
pub open spec fn op_be(o: Op4Model) -> Seq<u8> {
    u32_be(o.opcode) + o.opdata
}

/// A list of operations on the wire, with no count.
pub open spec fn ops_be(ops: Seq<Op4Model>) -> Seq<u8>
    decreases ops.len(),
{
    if ops.len() == 0 {
        Seq::empty()
    } else {
        ops_be(ops.drop_last()) + op_be(ops.last())
    }
}

/// Reads `n` operations from the front of `b`: the operations and the bytes they
/// took, or `None` when one of them is cut short or has a malformed operand.
pub open spec fn ops_of_be(b: Seq<u8>, n: nat) -> Option<(Seq<Op4Model>, nat)>
    decreases n,
{
    if n == 0 {
        Some((Seq::empty(), 0))
    } else {
        match ops_of_be(b, (n - 1) as nat) {
            None => None,
            Some((ops, m)) => {
                let at = b.skip(m as int);
                if at.len() < 4 {
                    None
                } else {
                    let c = u32_of_be(at);
                    match operand_of_be(c, at.skip(4)) {
                        None => None,
                        Some((d, k)) => Some(
                            (ops.push(Op4Model { opcode: c, opdata: d }), m + 4 + k),
                        ),
                    }
                }
            },
        }
    }
}

/// The encoding of compound arguments: tag, minor version, count, operations.
pub open spec fn compound_args_be(a: Compound4argsModel) -> Seq<u8> {
    opaque_be(a.tag) + u32_be(a.minorversion) + u32_be(a.operations.len() as u32) + ops_be(
        a.operations,
    )
}

/// Reads compound arguments: the tag, the minor version, the count of
/// operations, then that many operations.
pub open spec fn compound_args_of_be(b: Seq<u8>) -> Option<(Compound4argsModel, nat)> {
    match opaque_of_be(b) {
        None => None,
        Some((tag, t)) => {
            let b1 = b.skip(t as int);
            if b1.len() < 8 {
                None
            } else {
                match ops_of_be(b1.skip(8), u32_of_be(b1.skip(4)) as nat) {
                    None => None,
                    Some((ops, m)) => Some(
                        (
                            Compound4argsModel {
                                tag,
                                minorversion: u32_of_be(b1),
                                operations: ops,
                            },
                            t + 8 + m,
                        ),
                    ),
                }
            }
        },
    }
}

/// Once reading the first `i` operations fails, reading more fails too.
pub proof fn lemma_ops_of_be_none(b: Seq<u8>, i: nat, n: nat)
    requires
        i <= n,
        ops_of_be(b, i) is None,
    ensures
        ops_of_be(b, n) is None,
    decreases n - i,
{
    if i < n {
        assert(ops_of_be(b, (i + 1) as nat) is None);
        lemma_ops_of_be_none(b, (i + 1) as nat, n);
    }
}

/// Reading `n` operations gives `n` operations.
pub proof fn lemma_ops_of_be_len(b: Seq<u8>, n: nat)
    ensures
        ops_of_be(b, n) matches Some((ops, _m)) ==> ops.len() == n,
    decreases n,
{
    if n > 0 {
        lemma_ops_of_be_len(b, (n - 1) as nat);
    }
}

/// Decoded compound arguments have a tag and a list of operations whose lengths
/// fit 32-bit counts.
pub proof fn lemma_compound_args_of_be_bounds(b: Seq<u8>)
    ensures
        compound_args_of_be(b) matches Some((a, _n)) ==> a.tag.len() <= u32::MAX
            && a.operations.len() <= u32::MAX,
{
    if let Some((tag, t)) = opaque_of_be(b) {
        let b1 = b.skip(t as int);
        if b1.len() >= 8 {
            lemma_ops_of_be_len(b1.skip(8), u32_of_be(b1.skip(4)) as nat);
        }
    }
}

/// The encoding of a list of operations splits at any point.
pub proof fn lemma_ops_be_append(a: Seq<Op4Model>, b: Seq<Op4Model>)
    ensures
        ops_be(a + b) == ops_be(a) + ops_be(b),
    decreases b.len(),
{
    if b.len() == 0 {
        assert(a + b =~= a);
        assert(ops_be(a) + ops_be(b) =~= ops_be(a));
    } else {
        lemma_ops_be_append(a, b.drop_last());
        assert((a + b).drop_last() =~= a + b.drop_last());
        assert((a + b).last() == b.last());
        assert(ops_be(a + b) =~= ops_be(a) + ops_be(b));
    }
}

/// In the encoding of `ops`, operation `j` starts right after the encoding of
/// the operations before it, and reads back as itself.
pub proof fn lemma_op_read_at(ops: Seq<Op4Model>, rest: Seq<u8>, j: int)
    requires
        0 <= j < ops.len(),
        operand_canonical(ops[j].opcode, ops[j].opdata),
    ensures
        ({
            let at = (ops_be(ops) + rest).skip(ops_be(ops.take(j)).len() as int);
            &&& at.len() >= 4
            &&& u32_of_be(at) == ops[j].opcode
            &&& operand_of_be(ops[j].opcode, at.skip(4)) == Some(
                (ops[j].opdata, ops[j].opdata.len()),
            )
        }),
{
    let pre = ops.take(j);
    let o = ops[j];
    let post = ops.skip(j + 1);
    assert(ops =~= pre + (seq![o] + post));
    lemma_ops_be_append(pre, seq![o] + post);
    lemma_ops_be_append(seq![o], post);
    assert(seq![o].drop_last() =~= Seq::<Op4Model>::empty());
    assert(seq![o].last() == o);
    assert(ops_be(Seq::<Op4Model>::empty()) == Seq::<u8>::empty());
    assert(ops_be(seq![o]) =~= op_be(o));
    let m = ops_be(pre).len();
    let tail = o.opdata + (ops_be(post) + rest);
    let at = (ops_be(ops) + rest).skip(m as int);
    assert(at =~= u32_be(o.opcode) + tail);
    lemma_u32_be_inverse(o.opcode);
    lemma_u32_of_be_append(u32_be(o.opcode), tail);
    assert(at.skip(4) =~= tail);
    lemma_operand_of_be_extend(o.opcode, o.opdata, ops_be(post) + rest);
}

/// Operations whose operands are canonical read back from their encoding: the
/// first `k` of them take exactly the encoding of those `k`.
pub proof fn lemma_ops_round_trip(ops: Seq<Op4Model>, rest: Seq<u8>, k: nat)
    requires
        k <= ops.len(),
        forall|i: int|
            0 <= i < ops.len() ==> operand_canonical(#[trigger] ops[i].opcode, ops[i].opdata),
    ensures
        ops_of_be(ops_be(ops) + rest, k) == Some(
            (ops.take(k as int), ops_be(ops.take(k as int)).len()),
        ),
    decreases k,
{
    let b = ops_be(ops) + rest;
    if k == 0 {
        assert(ops.take(0) =~= Seq::<Op4Model>::empty());
    } else {
        let j = (k - 1) as int;
        lemma_ops_round_trip(ops, rest, (k - 1) as nat);
        assert(operand_canonical(ops[j].opcode, ops[j].opdata));
        lemma_op_read_at(ops, rest, j);
        let pre = ops.take(j);
        let o = ops[j];
        assert(ops.take(k as int) =~= pre.push(o));
        assert(pre.push(o).drop_last() =~= pre);
        assert(pre.push(o).last() == o);
    }
}

impl XdrSerialize for Compound4args {
    /// The tag and the list fit 32-bit counts and every operand is canonical.
    open spec fn spec_encodable(v: Compound4argsModel) -> bool {
        &&& v.tag.len() <= u32::MAX
        &&& v.operations.len() <= u32::MAX
        &&& forall|i: int|
            0 <= i < v.operations.len() ==> operand_canonical(
                #[trigger] v.operations[i].opcode,
                v.operations[i].opdata,
            )
    }

    open spec fn spec_encode(v: Compound4argsModel) -> Seq<u8> {
        compound_args_be(v)
    }

    fn xdr_serialize(&self, w: &mut Vec<u8>) {
        let ghost start = w@;
        let ghost ops = self@.operations;
        self.tag.xdr_serialize(w);
        write_u32(w, self.minorversion);
        write_u32(w, self.operations.len() as u32);
        let ghost head = w@;
        let mut i: usize = 0;
        while i < self.operations.len()
            invariant
                i <= self.operations@.len(),
                ops == self@.operations,
                ops.len() == self.operations@.len(),
                w@ == head + ops_be(ops.take(i as int)),
            decreases self.operations@.len() - i,
        {
            let op = &self.operations[i];
            write_u32(w, op.opcode);
            append_bytes(w, op.opdata.as_slice());
            proof {
                assert(ops[i as int] == op@);
                assert(ops.take(i + 1).drop_last() =~= ops.take(i as int));
                assert(ops.take(i + 1).last() == ops[i as int]);
                assert(w@ =~= head + ops_be(ops.take(i + 1)));
            }
            i = i + 1;
        }
        proof {
            assert(ops.take(ops.len() as int) =~= ops);
            assert(w@ =~= start + compound_args_be(self@));
        }
    }
}

impl XdrDeserialize for Compound4args {
    open spec fn spec_decode(b: Seq<u8>) -> Option<(Compound4argsModel, nat)> {
        compound_args_of_be(b)
    }

    #[verifier::loop_isolation(false)]
    fn xdr_deserialize(r: &mut XdrCursor) -> (res: Result<Compound4args, XdrError>) {
        proof {
            use_type_invariant(&*r);
        }
        let ghost b = r.rest();
        let ghost d0 = r.data();
        let ghost p0 = r.pos();
        let tag = XdrString::xdr_deserialize(r)?;
        let ghost t = (r.pos() - p0) as nat;
        let ghost b1 = b.skip(t as int);
        proof {
            use_type_invariant(&*r);
            assert(r.rest() =~= b1);
        }
        let minorversion = r.read_u32()?;
        proof {
            assert(r.rest() =~= b1.skip(4));
        }
        let numops = r.read_u32()?;
        let ghost b2 = b1.skip(8);
        let ghost p2 = r.pos();
        proof {
            assert(r.rest() =~= b2);
        }
        let mut operations: Vec<Op4> = Vec::new();
        let mut i: u32 = 0;
        while i < numops
            invariant
                i <= numops,
                r.data() == d0,
                p2 <= d0.len(),
                d0.skip(p2 as int) == b2,
                r.pos() >= p2,
                ops_of_be(b2, i as nat) == Some(
                    (operations@.map_values(|o: Op4| o@), (r.pos() - p2) as nat),
                ),
            decreases numops - i,
        {
            proof {
                use_type_invariant(&*r);
                assert(r.rest() =~= b2.skip((r.pos() - p2) as int));
            }
            let ghost before = r.pos();
            let opcode = match r.read_u32() {
                Ok(c) => c,
                Err(e) => {
                    proof {
                        lemma_ops_of_be_none(b2, (i + 1) as nat, numops as nat);
                    }
                    return Err(e);
                },
            };
            proof {
                assert(r.rest() =~= b2.skip((before - p2) as int).skip(4));
            }
            let opdata = match read_operand(r, opcode) {
                Ok(d) => d,
                Err(e) => {
                    proof {
                        lemma_ops_of_be_none(b2, (i + 1) as nat, numops as nat);
                    }
                    return Err(e);
                },
            };
            let ghost prev = operations@.map_values(|o: Op4| o@);
            operations.push(Op4 { opcode, opdata });
            proof {
                assert(operations@.map_values(|o: Op4| o@) =~= prev.push(
                    Op4Model { opcode, opdata: opdata@ },
                ));
            }
            i = i + 1;
        }
        let args = Compound4args { tag, minorversion, operations };
        proof {
            assert(args@.operations == operations@.map_values(|o: Op4| o@));
        }
        Ok(args)
    }

    proof fn lemma_decode_encode(v: Compound4argsModel, rest: Seq<u8>) {
        let n = v.operations.len();
        let tail = u32_be(v.minorversion) + u32_be(n as u32) + ops_be(v.operations) + rest;
        let b = compound_args_be(v) + rest;
        assert(b =~= opaque_be(v.tag) + tail);
        lemma_opaque_round_trip(v.tag, tail);
        let t = opaque_be(v.tag).len();
        let b1 = b.skip(t as int);
        assert(b1 =~= tail);
        lemma_u32_be_inverse(v.minorversion);
        lemma_u32_be_inverse(n as u32);
        assert(tail =~= u32_be(v.minorversion) + (u32_be(n as u32) + (ops_be(v.operations)
            + rest)));
        lemma_u32_of_be_append(u32_be(v.minorversion), u32_be(n as u32) + (ops_be(v.operations)
            + rest));
        assert(b1.skip(4) =~= u32_be(n as u32) + (ops_be(v.operations) + rest));
        lemma_u32_of_be_append(u32_be(n as u32), ops_be(v.operations) + rest);
        assert(b1.skip(8) =~= ops_be(v.operations) + rest);
        lemma_ops_round_trip(v.operations, rest, n);
        assert(v.operations.take(n as int) =~= v.operations);
    }
}

/// The result of one operation: its code, its status and its result body, which
/// is already encoded and is written as it is.
#[derive(Debug, Clone)]
pub struct ResOp4 {
    pub opcode: u32,
    pub status: u32,
    pub payload: Vec<u8>,
}

/// The value of a `ResOp4`.
pub ghost struct ResOp4Model {
    pub opcode: u32,
    pub status: u32,
    pub payload: Seq<u8>,
}

impl View for ResOp4 {
    type V = ResOp4Model;

    open spec fn view(&self) -> ResOp4Model {
        ResOp4Model { opcode: self.opcode, status: self.status, payload: self.payload@ }
    }
}

/// The result of a compound request: the overall status, the tag of the request
/// and one result per operation.
#[derive(Debug, Default, Clone)]
pub struct Compound4res {
    pub status: u32,
    pub tag: XdrString,
    pub resarray: Vec<ResOp4>,
}

/// The value of a `Compound4res`.
pub ghost struct Compound4resModel {
    pub status: u32,
    pub tag: Seq<u8>,
    pub resarray: Seq<ResOp4Model>,
}

impl View for Compound4res {
    type V = Compound4resModel;

    open spec fn view(&self) -> Compound4resModel {
        Compound4resModel {
            status: self.status,
            tag: self.tag@,
            resarray: self.resarray@.map_values(|r: ResOp4| r@),
        }
    }
}

/// One operation result on the wire: code, status, then the body as it is.
pub open spec fn resop_be(r: ResOp4Model) -> Seq<u8> {
    u32_be(r.opcode) + u32_be(r.status) + r.payload
}

/// A list of operation results on the wire, with no count.
pub open spec fn resops_be(rs: Seq<ResOp4Model>) -> Seq<u8>
    decreases rs.len(),
{
    if rs.len() == 0 {
        Seq::empty()
    } else {
        resops_be(rs.drop_last()) + resop_be(rs.last())
    }
}

/// The encoding of a compound result: status, tag, count, results.
pub open spec fn compound_res_be(r: Compound4resModel) -> Seq<u8> {
    u32_be(r.status) + opaque_be(r.tag) + u32_be(r.resarray.len() as u32) + resops_be(r.resarray)
}

impl XdrSerialize for Compound4res {
    open spec fn spec_encodable(v: Compound4resModel) -> bool {
        &&& v.tag.len() <= u32::MAX
        &&& v.resarray.len() <= u32::MAX
    }

    open spec fn spec_encode(v: Compound4resModel) -> Seq<u8> {
        compound_res_be(v)
    }

    fn xdr_serialize(&self, w: &mut Vec<u8>) {
        let ghost start = w@;
        let ghost rs = self@.resarray;
        write_u32(w, self.status);
        write_opaque(w, self.tag.0.as_slice());
        write_u32(w, self.resarray.len() as u32);
        let ghost head = w@;
        let mut i: usize = 0;
        while i < self.resarray.len()
            invariant
                i <= self.resarray@.len(),
                rs == self@.resarray,
                rs.len() == self.resarray@.len(),
                w@ == head + resops_be(rs.take(i as int)),
            decreases self.resarray@.len() - i,
        {
            let res = &self.resarray[i];
            write_u32(w, res.opcode);
            write_u32(w, res.status);
            append_bytes(w, res.payload.as_slice());
            proof {
                assert(rs[i as int] == res@);
                assert(rs.take(i + 1).drop_last() =~= rs.take(i as int));
                assert(rs.take(i + 1).last() == rs[i as int]);
                assert(w@ =~= head + resops_be(rs.take(i + 1)));
            }
            i = i + 1;
        }
        proof {
            assert(rs.take(rs.len() as int) =~= rs);
            assert(w@ =~= start + compound_res_be(self@));
        }
    }
}

/// Every operation read from `b` carries a canonical operand.
pub proof fn lemma_ops_of_be_canonical(b: Seq<u8>, n: nat)
    ensures
        ops_of_be(b, n) matches Some((ops, _m)) ==> forall|i: int|
            0 <= i < ops.len() ==> operand_canonical(#[trigger] ops[i].opcode, ops[i].opdata),
    decreases n,
{
    if n > 0 {
        lemma_ops_of_be_canonical(b, (n - 1) as nat);
        if let Some((ops, m)) = ops_of_be(b, (n - 1) as nat) {
            let at = b.skip(m as int);
            if at.len() >= 4 {
                let c = u32_of_be(at);
                if operand_of_be(c, at.skip(4)) is Some {
                    lemma_operand_reencoding_canonical(c, at.skip(4));
                    let d = operand_of_be(c, at.skip(4))->Some_0.0;
                    let all = ops.push(Op4Model { opcode: c, opdata: d });
                    assert forall|i: int| 0 <= i < all.len() implies operand_canonical(
                        #[trigger] all[i].opcode,
                        all[i].opdata,
                    ) by {
                        if i < ops.len() {
                            assert(all[i] == ops[i]);
                        }
                    }
                }
            }
        }
    }
}

/// Compound arguments that were decoded can be encoded again, and decoding that
/// encoding gives the same arguments: re-encoding what was decoded is stable.
pub proof fn lemma_compound_args_redecode(b: Seq<u8>)
    requires
        compound_args_of_be(b) is Some,
    ensures
        compound_args_of_be(b) matches Some((a, _n)) && Compound4args::spec_encodable(a)
            && compound_args_of_be(compound_args_be(a)) == Some((a, compound_args_be(a).len())),
{
    lemma_compound_args_of_be_bounds(b);
    let (tag, t) = opaque_of_be(b)->Some_0;
    let b1 = b.skip(t as int);
    lemma_ops_of_be_canonical(b1.skip(8), u32_of_be(b1.skip(4)) as nat);
    let a = compound_args_of_be(b)->Some_0.0;
    Compound4args::lemma_decode_encode(a, Seq::empty());
    assert(compound_args_be(a) + Seq::<u8>::empty() =~= compound_args_be(a));
}

/// Setting one bit of a word: bit `bo` of the result is set exactly when it was
/// set before or it is the bit `co` that was set.
pub proof fn lemma_or_bit(w: u32, co: u32, bo: u32)
    requires
        co < 32,
        bo < 32,
    ensures
        ((w | (1u32 << co)) & (1u32 << bo) != 0) == ((w & (1u32 << bo) != 0) || co == bo),
{
    assert(((w | (1u32 << co)) & (1u32 << bo) != 0) == ((w & (1u32 << bo) != 0) || co == bo))
        by (bit_vector)
        requires
            co < 32,
            bo < 32,
    ;
}

/// After setting the bits of `bits` in `words`, a bit is set exactly when it was
/// set before or it is one of `bits`.
pub proof fn lemma_set_bits_has(words: Seq<u32>, bits: Seq<u32>, b: u32)
    requires
        forall|j: int| 0 <= j < bits.len() ==> (#[trigger] bits[j] / 32) < words.len(),
        (b / 32) < words.len(),
    ensures
        bitmap_has(set_bits(words, bits), b) == (bitmap_has(words, b) || bits.contains(b)),
    decreases bits.len(),
{
    if bits.len() > 0 {
        let p = bits.drop_last();
        let c = bits.last();
        assert forall|j: int| 0 <= j < p.len() implies (#[trigger] p[j] / 32) < words.len() by {
            assert(p[j] == bits[j]);
        }
        lemma_set_bits_has(words, p, b);
        lemma_set_bits_len(words, p);
        assert(c == bits[bits.len() - 1]);
        let ws = set_bits(words, p);
        let idx = (b / 32) as int;
        if c / 32 == b / 32 {
            lemma_or_bit(ws[idx], c % 32, b % 32);
            assert((c % 32 == b % 32) == (c == b));
        }
        assert(bits.contains(b) == (p.contains(b) || c == b)) by {
            if bits.contains(b) {
                let j = choose|j: int| 0 <= j < bits.len() && bits[j] == b;
                if j < p.len() {
                    assert(p[j] == b);
                }
            }
            if p.contains(b) {
                let j = choose|j: int| 0 <= j < p.len() && p[j] == b;
                assert(bits[j] == b);
            }
        }
    }
}

/// The bitmap built from `bits` has bit `b` set exactly when `b` is one of
/// `bits`.
pub proof fn lemma_bitmap_of_has(bits: Seq<u32>, b: u32)
    ensures
        bitmap_has(bitmap_of(bits), b) == bits.contains(b),
{
    let words = Seq::new(bitmap_len(bits), |_i: int| 0u32);
    lemma_seq_max(bits);
    assert forall|j: int| 0 <= j < bits.len() implies (#[trigger] bits[j] / 32) < words.len() by {
        assert(bits[j] <= seq_max(bits));
    }
    lemma_set_bits_len(words, bits);
    if (b / 32) < words.len() {
        lemma_set_bits_has(words, bits, b);
        let bo = b % 32;
        assert(0u32 & (1u32 << bo) == 0) by (bit_vector);
        assert(words[(b / 32) as int] == 0);
    } else {
        if bits.contains(b) {
            let j = choose|j: int| 0 <= j < bits.len() && bits[j] == b;
            assert(bits[j] <= seq_max(bits));
        }
    }
}

/// How many bytes the first `i` operations read from `b` take (0 when they do
/// not read).
pub open spec fn ops_offset(b: Seq<u8>, i: nat) -> nat {
    match ops_of_be(b, i) {
        Some((_ops, m)) => m,
        None => 0,
    }
}

/// The operations read from `b` take no more than `b`.
pub proof fn lemma_ops_of_be_offset(b: Seq<u8>, n: nat)
    ensures
        ops_of_be(b, n) matches Some((_ops, m)) ==> m <= b.len(),
    decreases n,
{
    if n > 0 {
        let p = (n - 1) as nat;
        lemma_ops_of_be_offset(b, p);
        if let Some((ops, m)) = ops_of_be(b, p) {
            let at = b.skip(m as int);
            if at.len() >= 4 {
                let c = u32_of_be(at);
                if operand_of_be(c, at.skip(4)) is Some {
                    lemma_operand_of_be_extend(c, at.skip(4), Seq::empty());
                }
            }
        }
    }
}

/// Reading more operations keeps the ones read before.
pub proof fn lemma_ops_of_be_prefix(b: Seq<u8>, i: nat, n: nat)
    requires
        i <= n,
        ops_of_be(b, n) is Some,
    ensures
        ops_of_be(b, i) is Some,
        ops_of_be(b, n)->Some_0.0.take(i as int) == ops_of_be(b, i)->Some_0.0,
    decreases n - i,
{
    lemma_ops_of_be_len(b, n);
    lemma_ops_of_be_len(b, i);
    if i == n {
        assert(ops_of_be(b, n)->Some_0.0.take(n as int) =~= ops_of_be(b, n)->Some_0.0);
    } else {
        let p = (n - 1) as nat;
        assert(ops_of_be(b, p) is Some);
        lemma_ops_of_be_prefix(b, i, p);
        lemma_ops_of_be_len(b, p);
        let all = ops_of_be(b, n)->Some_0.0;
        let pre = ops_of_be(b, p)->Some_0.0;
        assert(all.take(i as int) =~= pre.take(i as int));
    }
}

/// In a list of operations read from `b`, operation `i` has the code at its
/// offset, and its operand, when its opaque parts carry zero padding, is
/// exactly the bytes that follow the code: decoding and re-encoding give back
/// the input bytes of every operand.
pub proof fn lemma_ops_operands_exact(b: Seq<u8>, n: nat, i: nat)
    requires
        ops_of_be(b, n) is Some,
        i < n,
        operand_padding_zero(
            u32_of_be(b.skip(ops_offset(b, i) as int)),
            b.skip(ops_offset(b, i) + 4int),
        ),
    ensures
        ({
            let o = ops_of_be(b, n)->Some_0.0[i as int];
            let a = ops_offset(b, i);
            &&& o.opcode == u32_of_be(b.skip(a as int))
            &&& o.opdata == b.subrange(a + 4int, a + 4int + o.opdata.len())
        }),
{
    lemma_ops_of_be_prefix(b, i + 1, n);
    lemma_ops_of_be_len(b, i + 1);
    lemma_ops_of_be_len(b, n);
    lemma_ops_of_be_offset(b, i);
    assert(ops_of_be(b, i) is Some);
    let m = ops_offset(b, i);
    let at = b.skip(m as int);
    assert(at.skip(4) =~= b.skip(m + 4int));
    let c = u32_of_be(at);
    lemma_operand_of_be_extend(c, at.skip(4), Seq::empty());
    lemma_operand_reencode_exact(c, at.skip(4));
    let all = ops_of_be(b, n)->Some_0.0;
    let first = ops_of_be(b, i + 1)->Some_0.0;
    assert(all[i as int] == all.take(i + 1int)[i as int]);
    assert(all[i as int] == first[i as int]);
    let d = operand_of_be(c, at.skip(4))->Some_0.0;
    assert(at.skip(4).take(d.len() as int) =~= b.subrange(m + 4int, m + 4int + d.len()));
}

} // verus!
