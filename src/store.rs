//! The cache store: what to hand the key-value service on a write, and what
//! to make of its reply on a read. The service itself (and the expiry of its
//! entries) lives outside this library; `MemoryStore` is a plain in-process
//! service with the same contract.
use vstd::prelude::*;
use crate::codec::{decode, decode_post, encode, encode_spec, CodecError};
use crate::shape::{ResultShape, ShapeTag, ShapeV};

verus! {

/// Why a cache read or write did not give a result.
#[derive(Clone, Copy, Debug, PartialEq, Eq, Structural)]
pub enum StoreError {
    /// No entry under the key: an ordinary outcome, not a fault.
    Miss,
    /// The entry could not be decoded.
    Codec(CodecError),
    /// The key-value service failed.
    Transport,
}

/// A write for the key-value service: store `value` under `key`, and let it
/// expire after `expire_seconds` when that is `Some`. A time to live of zero
/// asks for no expiry.
#[derive(Debug)]
pub struct SetCommand {
    pub key: String,
    pub value: Vec<u8>,
    pub expire_seconds: Option<u64>,
}

/// What the key-value service answered to a read.
#[derive(Debug)]
pub enum KvReply {
    Hit(Vec<u8>),
    Miss,
    Failed,
}

/// The write that caches `v` under `key` for `ttl_seconds` (zero: no expiry).
pub fn put_command(key: &str, v: &ResultShape, ttl_seconds: u64) -> (c: SetCommand)
    ensures
        c.key@ == key@,
        c.value@ == encode_spec(v@),
        c.expire_seconds == (if ttl_seconds == 0 { None } else { Some(ttl_seconds) }),
{
    SetCommand {
        key: key.to_owned(),
        value: encode(v),
        expire_seconds: if ttl_seconds == 0 { None } else { Some(ttl_seconds) },
    }
}

/// What `read_reply` promises of its outcome `r`.
pub open spec fn read_post(reply: Option<Seq<u8>>, expected: ShapeTag, r: Result<ResultShape, StoreError>) -> bool {
    match reply {
        None => r == Err::<ResultShape, StoreError>(StoreError::Miss),
        Some(bytes) => decode_post(bytes, expected, codec_outcome(r)) && (r is Ok || r matches Err(StoreError::Codec(_))),
    }
}

pub open spec fn codec_outcome(r: Result<ResultShape, StoreError>) -> Result<ResultShape, CodecError> {
    match r {
        Ok(v) => Ok(v),
        Err(StoreError::Codec(e)) => Err(e),
        Err(_) => Err(CodecError::Malformed),
    }
}

pub open spec fn reply_bytes(reply: &KvReply) -> Option<Seq<u8>> {
    match reply {
        KvReply::Hit(b) => Some(b@),
        _ => None,
    }
}

/// Turns the service's answer to a read into a result of the shape
/// `expected`: a miss is `Miss`, a failure `Transport`, and bytes are decoded.
pub fn read_reply(reply: KvReply, expected: ShapeTag) -> (r: Result<ResultShape, StoreError>)
    ensures
        reply is Failed ==> r == Err::<ResultShape, StoreError>(StoreError::Transport),
        !(reply is Failed) ==> read_post(reply_bytes(&reply), expected, r),
{
    match reply {
        KvReply::Miss => Err(StoreError::Miss),
        KvReply::Failed => Err(StoreError::Transport),
        KvReply::Hit(bytes) => match decode(&bytes, expected) {
            Ok(v) => Ok(v),
            Err(e) => Err(StoreError::Codec(e)),
        },
    }
}

/// The entry that a key finds: the last one written under it.
pub open spec fn lookup(entries: Seq<(Seq<char>, Seq<u8>)>, key: Seq<char>) -> Option<Seq<u8>>
    decreases entries.len(),
{
    if entries.len() == 0 {
        None
    } else if entries.last().0 == key {
        Some(entries.last().1)
    } else {
        lookup(entries.drop_last(), key)
    }
}

/// A key-value service held in memory. It keeps every entry until it is
/// overwritten: expiry is the business of a real service.
pub struct MemoryStore {
    entries: Vec<(String, Vec<u8>)>,
}

impl MemoryStore {
    pub closed spec fn entries_view(&self) -> Seq<(Seq<char>, Seq<u8>)> {
        self.entries@.map_values(|e: (String, Vec<u8>)| (e.0@, e.1@))
    }

    /// What the store holds under `key`.
    pub open spec fn holds(&self, key: Seq<char>) -> Option<Seq<u8>> {
        lookup(self.entries_view(), key)
    }

    pub fn new() -> (s: MemoryStore)
        ensures
            forall|k: Seq<char>| s.holds(k) is None,
    {
        let s = MemoryStore { entries: Vec::new() };
        assert(s.entries_view().len() == 0);
        s
    }

    /// Stores the command's value under its key.
    pub fn apply(&mut self, c: SetCommand)
        ensures
            final(self).holds(c.key@) == Some(c.value@),
            forall|k: Seq<char>| k != c.key@ ==> final(self).holds(k) == old(self).holds(k),
    {
        let ghost before = self.entries_view();
        let ghost kv = (c.key@, c.value@);
        self.entries.push((c.key, c.value));
        assert(self.entries_view() =~= before.push(kv));
        assert(self.entries_view().drop_last() =~= before);
    }

    /// The bytes stored under `key`, as the service would answer.
    pub fn fetch(&self, key: &str) -> (r: KvReply)
        ensures
            reply_bytes(&r) == self.holds(key@),
            !(r is Failed),
    {
        let ghost ev = self.entries_view();
        let wanted = String::from_str(key);
        let mut i: usize = self.entries.len();
        assert(ev.take(i as int) =~= ev);
        while i > 0
            invariant
                i <= self.entries.len(),
                ev == self.entries_view(),
                wanted@ == key@,
                lookup(ev, key@) == lookup(ev.take(i as int), key@),
            decreases i,
        {
            let ghost pre = ev.take(i as int);
            assert(pre.drop_last() =~= ev.take(i as int - 1));
            assert(pre.last() == (self.entries@[i - 1].0@, self.entries@[i - 1].1@));
            assert(pre.len() > 0);
            assert(lookup(pre, key@) == if pre.last().0 == key@ {
                Some(pre.last().1)
            } else {
                lookup(pre.drop_last(), key@)
            });
            let same = self.entries[i - 1].0.eq(&wanted);
            if same {
                return KvReply::Hit(copy_bytes(&self.entries[i - 1].1));
            }
            i = i - 1;
        }
        KvReply::Miss
    }
}

fn copy_bytes(b: &Vec<u8>) -> (r: Vec<u8>)
    ensures
        r@ == b@,
{
    let mut out: Vec<u8> = Vec::new();
    let mut i: usize = 0;
    while i < b.len()
        invariant
            0 <= i <= b.len(),
            out@ == b@.take(i as int),
        decreases b.len() - i,
    {
        out.push(b[i]);
        assert(b@.take(i as int + 1) =~= b@.take(i as int).push(b@[i as int]));
        i = i + 1;
    }
    assert(b@.take(i as int) =~= b@);
    out
}

/// Caches `v` under `key` in the store.
pub fn put(store: &mut MemoryStore, key: &str, v: &ResultShape, ttl_seconds: u64)
    ensures
        final(store).holds(key@) == Some(encode_spec(v@)),
        forall|k: Seq<char>| k != key@ ==> final(store).holds(k) == old(store).holds(k),
{
    store.apply(put_command(key, v, ttl_seconds));
}

/// Reads the result of the shape `expected` cached under `key`.
pub fn get(store: &MemoryStore, key: &str, expected: ShapeTag) -> (r: Result<ResultShape, StoreError>)
    ensures
        read_post(store.holds(key@), expected, r),
{
    read_reply(store.fetch(key), expected)
}

/// A well-formed result cached under a key is read back equal under that
/// key with its own shape, and a key that holds nothing reads as `Miss`.
pub proof fn lemma_cache_round_trip(
    v: ShapeV,
    stored: Option<Seq<u8>>,
    r: Result<ResultShape, StoreError>,
    empty_r: Result<ResultShape, StoreError>,
    expected: ShapeTag,
)
    requires
        v.wf(),
        stored == Some(encode_spec(v)),
        read_post(stored, v.tag(), r),
        read_post(None, expected, empty_r),
    ensures
        r matches Ok(x) && x@ == v,
        empty_r == Err::<ResultShape, StoreError>(StoreError::Miss),
{
    crate::codec::lemma_round_trip(v, codec_outcome(r));
}

} // verus!
