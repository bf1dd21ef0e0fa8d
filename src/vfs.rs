//! The attribute backend: the interface the compound evaluator calls, and an
//! in-memory backend whose attribute store is shared by all connections.
use crate::constants::NFS4_FHSIZE;
use crate::error::{NfsError, NfsResult};
use crate::proto::nfs4::{
    bitmap4_with, bitmap_has, bitmap_of, lemma_bitmap_of_has, lemma_seq_max_bound, FATTR4_CHANGE,
    FATTR4_FH_EXPIRE_TYPE, FATTR4_FILEHANDLE, FATTR4_SIZE, FATTR4_TYPE, FH4_PERSISTENT, NF4DIR,
};
use crate::xdr::{
    encode_fattr4, fattr4_be, opaque_be, slice_to_vec, u32_be, u64_be, write_opaque,
    write_u32, XdrSerialize,
};
use dashmap::DashMap;
use std::sync::Arc;
use std::time::{Duration, SystemTime, SystemTimeError, UNIX_EPOCH};
use vstd::prelude::*;

verus! {

/// The attributes kept for one path.
#[derive(Clone, Copy, Debug)]
pub struct FileAttr {
    pub changeid: u64,
    pub size: u64,
    pub mtime: u64,
    pub ctime: u64,
}

/// A filesystem backend, shared by every connection.
pub trait Vfs: Send + Sync {
    /// The filehandle of the root.
    spec fn spec_root_fh(&self) -> Seq<u8>;

    /// Whether `reply` is an attribute reply the backend may give for the root
    /// when asked for the attributes in bitmap `request`.
    spec fn spec_getattr_reply(&self, request: Seq<u32>, reply: Seq<u8>) -> bool;

    /// The filehandle of the root; no longer than `NFS4_FHSIZE`.
    fn root_fh(&self) -> (r: NfsResult<Vec<u8>>)
        ensures
            r matches Ok(v) ==> v@ == self.spec_root_fh() && v@.len() <= NFS4_FHSIZE,
    ;

    /// The attributes of the root that `attr_request` asks for, encoded as an
    /// attribute set.
    fn getattr_root(&self, attr_request: &Vec<u32>) -> (r: NfsResult<Vec<u8>>)
        ensures
            r matches Ok(v) ==> self.spec_getattr_reply(attr_request@, v@),
    ;

    /// Creates a file of the given size, or resizes it.
    fn create_file(&self, path: &str, size: u64) -> NfsResult<()>;

    /// Sets the size of a file, creating it when it is missing.
    fn modify_file(&self, path: &str, new_size: u64) -> NfsResult<()>;

    /// Creates a directory.
    fn create_dir(&self, path: &str) -> NfsResult<()>;

    /// Removes an entry.
    fn remove_entry(&self, path: &str) -> NfsResult<()>;
}

// ---------------------------------------------------------------------------
// Attribute replies
// ---------------------------------------------------------------------------

/// The attributes the in-memory backend reports, in the order their values are
/// written: type, filehandle expiry type, change id, size, filehandle.
pub open spec fn supported_attrs() -> Seq<u32> {
    seq![FATTR4_TYPE, FATTR4_FH_EXPIRE_TYPE, FATTR4_CHANGE, FATTR4_SIZE, FATTR4_FILEHANDLE]
}

/// `seq![bit]` when `request` asks for `bit`, else nothing.
pub open spec fn bit_if_requested(request: Seq<u32>, bit: u32) -> Seq<u32> {
    if bitmap_has(request, bit) {
        seq![bit]
    } else {
        Seq::empty()
    }
}

/// `value` when `request` asks for `bit`, else nothing.
pub open spec fn value_if_requested(request: Seq<u32>, bit: u32, value: Seq<u8>) -> Seq<u8> {
    if bitmap_has(request, bit) {
        value
    } else {
        Seq::empty()
    }
}

/// The supported attributes that `request` asks for, in ascending order.
pub open spec fn granted_attrs(request: Seq<u32>) -> Seq<u32> {
    bit_if_requested(request, FATTR4_TYPE) + bit_if_requested(request, FATTR4_FH_EXPIRE_TYPE)
        + bit_if_requested(request, FATTR4_CHANGE) + bit_if_requested(request, FATTR4_SIZE)
        + bit_if_requested(request, FATTR4_FILEHANDLE)
}

/// The values of the granted attributes of the root, in the fixed order: the
/// type (a directory), the expiry type (persistent), the change id, the size,
/// the filehandle.
pub open spec fn root_attr_values(request: Seq<u32>, fh: Seq<u8>, attr: FileAttr) -> Seq<u8> {
    value_if_requested(request, FATTR4_TYPE, u32_be(NF4DIR)) + value_if_requested(
        request,
        FATTR4_FH_EXPIRE_TYPE,
        u32_be(FH4_PERSISTENT),
    ) + value_if_requested(request, FATTR4_CHANGE, u64_be(attr.changeid)) + value_if_requested(
        request,
        FATTR4_SIZE,
        u64_be(attr.size),
    ) + value_if_requested(request, FATTR4_FILEHANDLE, opaque_be(fh))
}

/// The attribute reply for the root: the bitmap of the granted attributes, then
/// their values.
pub open spec fn root_fattr_be(request: Seq<u32>, fh: Seq<u8>, attr: FileAttr) -> Seq<u8> {
    fattr4_be(bitmap_of(granted_attrs(request)), root_attr_values(request, fh, attr))
}

/// The bitmap of an attribute reply for the root holds exactly the attributes
/// that were requested and are supported, and they are granted in ascending
/// order; the values follow in that same order.
pub proof fn lemma_root_reply_bits(request: Seq<u32>, b: u32)
    ensures
        bitmap_has(bitmap_of(granted_attrs(request)), b) == (bitmap_has(request, b)
            && supported_attrs().contains(b)),
        forall|i: int, j: int|
            0 <= i < j < granted_attrs(request).len() ==> #[trigger] granted_attrs(request)[i]
                < #[trigger] granted_attrs(request)[j],
{
    let g = granted_attrs(request);
    lemma_bitmap_of_has(g, b);
    let s = supported_attrs();
    assert(s[0] == FATTR4_TYPE && s[1] == FATTR4_FH_EXPIRE_TYPE && s[2] == FATTR4_CHANGE && s[3]
        == FATTR4_SIZE && s[4] == FATTR4_FILEHANDLE);
    assert(forall|i: int| 0 <= i < g.len() ==> s.contains(#[trigger] g[i]) && bitmap_has(request, g[i]));
    if bitmap_has(request, b) && s.contains(b) {
        let k = choose|k: int| 0 <= k < s.len() && s[k] == b;
        let p1 = bit_if_requested(request, FATTR4_TYPE);
        let p2 = bit_if_requested(request, FATTR4_FH_EXPIRE_TYPE);
        let p3 = bit_if_requested(request, FATTR4_CHANGE);
        let p4 = bit_if_requested(request, FATTR4_SIZE);
        let at: int = if k == 0 {
            0
        } else if k == 1 {
            p1.len() as int
        } else if k == 2 {
            (p1.len() + p2.len()) as int
        } else if k == 3 {
            (p1.len() + p2.len() + p3.len()) as int
        } else {
            (p1.len() + p2.len() + p3.len() + p4.len()) as int
        };
        assert(g[at] == b);
    }
}

/// Whether bitmap `attr_request` asks for attribute `bit`.
pub fn req_has(attr_request: &Vec<u32>, bit: u32) -> (r: bool)
    ensures
        r == bitmap_has(attr_request@, bit),
{
    let idx = (bit / 32) as usize;
    let off = bit % 32;
    if idx >= attr_request.len() {
        return false;
    }
    (attr_request[idx] & (1u32 << off)) != 0
}

/// Encodes the attribute reply for the root from the request, the root handle
/// and the root's attributes.
pub fn encode_root_attrs(attr_request: &Vec<u32>, fh: &Vec<u8>, attr: &FileAttr) -> (r: Vec<u8>)
    requires
        fh@.len() + 32 <= u32::MAX,
    ensures
        r@ == root_fattr_be(attr_request@, fh@, *attr),
{
    let mut mask_bits: Vec<u32> = Vec::new();
    let mut w: Vec<u8> = Vec::new();
    if req_has(attr_request, FATTR4_TYPE) {
        mask_bits.push(FATTR4_TYPE);
        write_u32(&mut w, NF4DIR);
    }
    if req_has(attr_request, FATTR4_FH_EXPIRE_TYPE) {
        mask_bits.push(FATTR4_FH_EXPIRE_TYPE);
        write_u32(&mut w, FH4_PERSISTENT);
    }
    if req_has(attr_request, FATTR4_CHANGE) {
        mask_bits.push(FATTR4_CHANGE);
        attr.changeid.xdr_serialize(&mut w);
    }
    if req_has(attr_request, FATTR4_SIZE) {
        mask_bits.push(FATTR4_SIZE);
        attr.size.xdr_serialize(&mut w);
    }
    if req_has(attr_request, FATTR4_FILEHANDLE) {
        mask_bits.push(FATTR4_FILEHANDLE);
        write_opaque(&mut w, fh.as_slice());
    }
    proof {
        let req = attr_request@;
        assert(mask_bits@ =~= granted_attrs(req));
        assert(w@ =~= root_attr_values(req, fh@, *attr));
    }
    let bitmap = bitmap4_with(mask_bits.as_slice());
    proof {
        lemma_seq_max_bound(mask_bits@, 19);
    }
    let mut out: Vec<u8> = Vec::new();
    encode_fattr4(&mut out, &bitmap, w.as_slice());
    proof {
        assert(out@ =~= root_fattr_be(attr_request@, fh@, *attr));
    }
    out
}

// ---------------------------------------------------------------------------
// The attribute store
// ---------------------------------------------------------------------------

/// Declares `dashmap::DashMap`, the concurrent map that holds the attributes.
/// Its contents change through shared references from every connection, so no
/// contract speaks of them.
#[verifier::external_type_specification]
#[verifier::external_body]
#[verifier::reject_recursive_types(K)]
#[verifier::reject_recursive_types(V)]
#[verifier::reject_recursive_types(S)]
pub struct ExDashMap<K, V, S>(DashMap<K, V, S>);

/// Relies on `DashMap::new`: a new, empty map.
#[verifier::external_body]
fn attr_map_new() -> DashMap<String, FileAttr> {
    DashMap::new()
}

/// Relies on `DashMap::insert`: stores `value` under `key`, replacing any
/// earlier value, under the lock of the key's shard.
#[verifier::external_body]
fn attr_map_insert(map: &DashMap<String, FileAttr>, key: String, value: FileAttr) {
    map.insert(key, value);
}

/// Relies on `DashMap::get`: a copy of the value stored under `key`, if any.
#[verifier::external_body]
fn attr_map_get(map: &DashMap<String, FileAttr>, key: &str) -> Option<FileAttr> {
    map.get(key).map(|entry| *entry)
}

/// Relies on `DashMap::entry` with `and_modify` and `or_insert_with`: under the
/// lock of the key's shard, the stored value is updated by `touch_attr`, or, when
/// the key is missing, `fresh_attr` is stored; the returned guard gives a copy of
/// the value now stored.
#[verifier::external_body]
fn attr_map_upsert(
    map: &DashMap<String, FileAttr>,
    key: String,
    size: Option<u64>,
    now: u64,
) -> (r: FileAttr)
    ensures
        stored_by_update(r, size, now),
{
    *map.entry(key).and_modify(|entry| touch_attr(entry, size, now)).or_insert_with(
        || fresh_attr(size, now),
    )
}

/// Relies on `DashMap::remove`: drops the value stored under `key`, if any.
#[verifier::external_body]
fn attr_map_remove(map: &DashMap<String, FileAttr>, key: &str) {
    map.remove(key);
}

/// Declares `std::time::SystemTime`, a reading of the system clock.
#[verifier::external_type_specification]
#[verifier::external_body]
pub struct ExSystemTime(SystemTime);

/// Declares `std::time::SystemTimeError`, a clock reading before the epoch.
#[verifier::external_type_specification]
#[verifier::external_body]
pub struct ExSystemTimeError(SystemTimeError);

/// Relies on `SystemTime::now`: a reading of the system clock.
#[verifier::external_body]
fn clock_now() -> SystemTime {
    SystemTime::now()
}

/// Relies on `SystemTime::duration_since`: the time elapsed from the Unix epoch
/// to `t`, or an error when `t` lies before it.
#[verifier::external_body]
fn since_unix_epoch(t: &SystemTime) -> Result<Duration, SystemTimeError> {
    t.duration_since(UNIX_EPOCH)
}

/// Relies on `Duration::as_secs`: the whole seconds of a duration.
#[verifier::external_body]
fn whole_secs(d: &Duration) -> u64 {
    d.as_secs()
}

/// The seconds since the Unix epoch, 0 for a clock set before it.
fn now_secs() -> u64 {
    let t = clock_now();
    match since_unix_epoch(&t) {
        Ok(d) => whole_secs(&d),
        Err(_) => 0,
    }
}

/// The attributes of a new entry at time `now`: the given size (0 when none is
/// given) and every time set to `now`.
pub open spec fn fresh_value(size: Option<u64>, now: u64) -> FileAttr {
    FileAttr {
        changeid: now,
        size: match size {
            Some(s) => s,
            None => 0,
        },
        mtime: now,
        ctime: now,
    }
}

/// An existing entry updated at time `now`: a given size replaces the old one,
/// the modification time becomes `now`, the creation time stays, and the change
/// id becomes `now` only when the size or the modification time changed.
pub open spec fn touched_value(old: FileAttr, size: Option<u64>, now: u64) -> FileAttr {
    FileAttr {
        changeid: if touch_changes(old, size, now) {
            now
        } else {
            old.changeid
        },
        size: match size {
            Some(s) => s,
            None => old.size,
        },
        mtime: now,
        ctime: old.ctime,
    }
}

/// Whether `r` is what an update at time `now` leaves stored: a fresh entry, or
/// some earlier entry updated.
pub open spec fn stored_by_update(r: FileAttr, size: Option<u64>, now: u64) -> bool {
    ||| r == fresh_value(size, now)
    ||| exists|old: FileAttr| r == #[trigger] touched_value(old, size, now)
}

/// The attributes of a new entry at time `now`.
pub fn fresh_attr(size: Option<u64>, now: u64) -> (r: FileAttr)
    ensures
        r == fresh_value(size, now),
{
    FileAttr {
        changeid: now,
        size: match size {
            Some(s) => s,
            None => 0,
        },
        mtime: now,
        ctime: now,
    }
}

/// Whether an update at time `now` changes the size or the modification time.
pub open spec fn touch_changes(old: FileAttr, size: Option<u64>, now: u64) -> bool {
    (size matches Some(s) && s != old.size) || old.mtime != now
}

/// Updates an existing entry at time `now`: a given size replaces the old one,
/// the modification time becomes `now`, and the change id becomes `now` only
/// when the size or the modification time changed.
pub fn touch_attr(entry: &mut FileAttr, size: Option<u64>, now: u64)
    ensures
        *final(entry) == touched_value(*old(entry), size, now),
{
    let mut changed = false;
    if let Some(s) = size {
        if entry.size != s {
            entry.size = s;
            changed = true;
        }
    }
    if entry.mtime != now {
        entry.mtime = now;
        changed = true;
    }
    if changed {
        entry.changeid = now;
    }
}

/// The filehandle of the in-memory root: the bytes of "nfsrs-root-fh".
pub open spec fn mem_root_fh() -> Seq<u8> {
    seq![110u8, 102, 115, 114, 115, 45, 114, 111, 111, 116, 45, 102, 104]
}

/// An in-memory backend: one root and a concurrent map from paths to attributes.
pub struct MemVfs {
    root_fh: Vec<u8>,
    attrs: Arc<DashMap<String, FileAttr>>,
}

impl MemVfs {
    #[verifier::type_invariant]
    spec fn inv(self) -> bool {
        self.root_fh@ == mem_root_fh()
    }

    /// A copy of the attributes stored for `path`, if any.
    pub fn get_attr(&self, path: &str) -> Option<FileAttr> {
        attr_map_get(&self.attrs, path)
    }

    /// A backend whose root "/" has size 0 and all times set to now.
    pub fn new() -> (r: Arc<MemVfs>)
        ensures
            r.spec_root_fh() == mem_root_fh(),
    {
        let fh: Vec<u8> = vec![110u8, 102, 115, 114, 115, 45, 114, 111, 111, 116, 45, 102, 104];
        let attrs = attr_map_new();
        let now = now_secs();
        attr_map_insert(&attrs, "/".to_owned(), FileAttr { changeid: now, size: 0, mtime: now, ctime: now });
        proof {
            assert(fh@ =~= mem_root_fh());
        }
        Arc::new(MemVfs { root_fh: fh, attrs: Arc::new(attrs) })
    }

    /// Creates or updates the entry of `path` at the current time, and returns
    /// the value it stored.
    fn update_attr(&self, path: &str, size: Option<u64>) -> (r: FileAttr)
        ensures
            exists|now: u64| stored_by_update(r, size, now),
    {
        let now = now_secs();
        attr_map_upsert(&self.attrs, path.to_owned(), size, now)
    }

    /// Removes the entry of `path`.
    fn remove_attr(&self, path: &str) {
        attr_map_remove(&self.attrs, path);
    }
}

impl Vfs for MemVfs {
    /// The root handle is always the fixed in-memory one.
    open spec fn spec_root_fh(&self) -> Seq<u8> {
        mem_root_fh()
    }

    /// The attribute reply for the root, built from some attribute values of its
    /// entry in the shared store.
    open spec fn spec_getattr_reply(&self, request: Seq<u32>, reply: Seq<u8>) -> bool {
        exists|attr: FileAttr| reply == root_fattr_be(request, mem_root_fh(), attr)
    }

    fn root_fh(&self) -> (r: NfsResult<Vec<u8>>)
        ensures
            r matches Ok(v) && v@ == mem_root_fh(),
    {
        proof {
            use_type_invariant(self);
        }
        Ok(slice_to_vec(self.root_fh.as_slice()))
    }

    /// Fails only when the entry of the root has been removed.
    fn getattr_root(&self, attr_request: &Vec<u32>) -> (r: NfsResult<Vec<u8>>)
        ensures
            r matches Ok(v) ==> exists|attr: FileAttr|
                v@ == root_fattr_be(attr_request@, mem_root_fh(), attr),
            r matches Err(e) ==> e is ServerFault,
    {
        proof {
            use_type_invariant(self);
        }
        match attr_map_get(&self.attrs, "/") {
            Some(attr) => {
                let v = encode_root_attrs(attr_request, &self.root_fh, &attr);
                Ok(v)
            },
            None => Err(NfsError::ServerFault),
        }
    }

    fn create_file(&self, path: &str, size: u64) -> (r: NfsResult<()>)
        ensures
            r is Ok,
    {
        self.update_attr(path, Some(size));
        Ok(())
    }

    fn modify_file(&self, path: &str, new_size: u64) -> (r: NfsResult<()>)
        ensures
            r is Ok,
    {
        self.update_attr(path, Some(new_size));
        Ok(())
    }

    fn create_dir(&self, path: &str) -> (r: NfsResult<()>)
        ensures
            r is Ok,
    {
        self.update_attr(path, Some(0));
        Ok(())
    }

    fn remove_entry(&self, path: &str) -> (r: NfsResult<()>)
        ensures
            r is Ok,
    {
        self.remove_attr(path);
        Ok(())
    }
}

} // verus!
