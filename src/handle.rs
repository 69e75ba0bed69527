//! The owning handle through which callers reach a result: it carries the
//! shape with the value, dispatches each operation on that shape, gives up
//! the value to an operation that succeeds and gets it back unchanged from
//! one that is refused.
use vstd::prelude::*;
use crate::shape::{FieldValue, ResultShape, ShapeTag, ShapeV};
use crate::store::{put_command, read_post, read_reply, reply_bytes, KvReply, SetCommand, StoreError};
use crate::codec::{encode_spec, to_text};
use vstd::utf8::encode_utf8;
use crate::transform::{accumulate_spec, range_spec, select_spec, TransformError};

verus! {

/// A transformation and its arguments.
#[derive(Clone, Debug)]
pub enum TransformOp {
    /// Sum towards the target shape.
    Accumulate(ShapeTag),
    /// Project the items whose field `key` holds `value`, towards the target shape.
    Select { key: String, value: FieldValue, target: ShapeTag },
    /// Keep the days in `[from, to]`.
    Range { from: i64, to: i64 },
}

/// What `op` makes of `v`.
pub open spec fn op_spec(v: ShapeV, op: TransformOp) -> Result<ShapeV, TransformError> {
    match op {
        TransformOp::Accumulate(target) => accumulate_spec(v, target),
        TransformOp::Select { key, value, target } => select_spec(v, key@, value@, target),
        TransformOp::Range { from, to } => range_spec(v, from, to),
    }
}

/// The single owner of one result.
#[derive(Debug)]
pub struct Handle {
    value: ResultShape,
}

/// A refused operation: the handle, still owning its unchanged value, and
/// the reason.
#[derive(Debug)]
pub struct Refused {
    pub handle: Handle,
    pub error: TransformError,
}

impl View for Handle {
    type V = ShapeV;

    closed spec fn view(&self) -> ShapeV {
        self.value@
    }
}

impl Handle {
    /// Takes ownership of a result.
    pub fn new(value: ResultShape) -> (h: Handle)
        ensures
            h@ == value@,
    {
        Handle { value }
    }

    /// The shape of the owned result.
    pub fn tag(&self) -> (t: ShapeTag)
        ensures
            t == self@.tag(),
    {
        self.value.tag()
    }

    /// The owned result.
    pub fn value(&self) -> (v: &ResultShape)
        ensures
            v@ == self@,
    {
        &self.value
    }

    /// Gives up the handle and returns its result.
    pub fn into_value(self) -> (v: ResultShape)
        ensures
            v@ == self@,
    {
        self.value
    }

    /// Applies `op`. On success the handle is consumed and a new one owns
    /// the new result; on refusal the same result comes back in the
    /// `Refused`, with the reason.
    pub fn transform(self, op: TransformOp) -> (r: Result<Handle, Refused>)
        ensures
            match r {
                Ok(h) => op_spec(self@, op) == Ok::<ShapeV, TransformError>(h@),
                Err(f) => op_spec(self@, op) == Err::<ShapeV, TransformError>(f.error) && f.handle@ == self@,
            },
    {
        let outcome = match op {
            TransformOp::Accumulate(target) => self.value.accumulate(target),
            TransformOp::Select { key, value, target } => self.value.select(key.as_str(), &value, target),
            TransformOp::Range { from, to } => self.value.range(from, to),
        };
        match outcome {
            Ok(v) => Ok(Handle { value: v }),
            Err(rej) => Err(Refused { handle: Handle { value: rej.value }, error: rej.error }),
        }
    }

    /// The owned result as text: the string whose UTF-8 bytes are its
    /// encoding.
    pub fn to_text(&self) -> (s: String)
        ensures
            encode_utf8(s@) == encode_spec(self@),
    {
        to_text(&self.value)
    }

    /// The write that caches the owned result under `key` for `ttl_seconds`
    /// (zero: no expiry). The handle keeps its result.
    pub fn to_cache(&self, key: &str, ttl_seconds: u64) -> (c: SetCommand)
        ensures
            c.key@ == key@,
            c.value@ == encode_spec(self@),
            c.expire_seconds == (if ttl_seconds == 0 { None } else { Some(ttl_seconds) }),
    {
        put_command(key, &self.value, ttl_seconds)
    }

    /// A handle on the result of the shape `expected` that the key-value
    /// service answered.
    pub fn from_cache(reply: KvReply, expected: ShapeTag) -> (r: Result<Handle, StoreError>)
        ensures
            reply is Failed ==> r == Err::<Handle, StoreError>(StoreError::Transport),
            !(reply is Failed) ==> read_post(reply_bytes(&reply), expected, handle_outcome(r)),
            r matches Ok(h) ==> h.value_spec()@ == h@,
    {
        match read_reply(reply, expected) {
            Ok(v) => Ok(Handle { value: v }),
            Err(e) => Err(e),
        }
    }
}

pub open spec fn handle_outcome(r: Result<Handle, StoreError>) -> Result<ResultShape, StoreError> {
    match r {
        Ok(h) => Ok(h.value_spec()),
        Err(e) => Err(e),
    }
}

impl Handle {
    /// The owned result itself.
    pub closed spec fn value_spec(&self) -> ResultShape {
        self.value
    }
}

} // verus!
