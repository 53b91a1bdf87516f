//! The wire protocol between server and client: requests carry a
//! single-byte opcode and fixed-width fields; reply chunks carry a
//! single-byte opcode and a payload whose shape the opcode fixes. Both
//! directions share the opcode space and are told apart by direction.

use crate::kvstorage::be_val;
use crate::kvstorage::Key;
use crate::kvstorage::Value;
use crate::kvstorage::KEY_SIZE;
use crate::kvstorage::VALUE_SIZE;
use vstd::prelude::*;
use vstd::slice::slice_subrange;

verus! {

/// Serialized width of one key-value pair inside a `KVPairs` chunk.
pub const KV_PAIR_SERIALIZED_SIZE: usize = 264;

/// Request opcode: scan, `'S'`.
pub const OP_SCAN: u8 = 0x53;

/// Request opcode: put, `'P'`.
pub const OP_PUT: u8 = 0x50;

/// Request opcode: get, `'G'`.
pub const OP_GET: u8 = 0x47;

/// Request opcode: delete, `'D'`.
pub const OP_DEL: u8 = 0x44;

/// Request opcode: close, `'C'`.
pub const OP_CLOSE: u8 = 0x43;

/// The error of this module: a malformed request or reply.
#[derive(Debug)]
pub struct ProtocolError {
    description: String,
}

impl View for ProtocolError {
    type V = Seq<char>;

    closed spec fn view(&self) -> Seq<char> {
        self.description@
    }
}

impl ProtocolError {
    /// Wrap a description into an error value.
    pub fn new(description: &str) -> (ret: Self)
        ensures
            ret@ == description@,
    {
        ProtocolError { description: description.to_owned() }
    }

    /// The description this error carries.
    pub fn description(&self) -> (ret: &str)
        ensures
            ret@ == self@,
    {
        self.description.as_str()
    }
}

/// A request, as the client sends it and the server receives it.
#[derive(Copy, Clone, Debug, PartialEq, Eq)]
pub enum Request {
    Scan(Key, Key),
    Put(Key, Value),
    Get(Key),
    Del(Key),
    Close,
}

/// The exact bytes that encode one request.
pub open spec fn request_bytes(r: Request) -> Seq<u8> {
    match r {
        Request::Scan(k1, k2) => seq![OP_SCAN] + k1@ + k2@,
        Request::Put(k, v) => seq![OP_PUT] + k@ + v@,
        Request::Get(k) => seq![OP_GET] + k@,
        Request::Del(k) => seq![OP_DEL] + k@,
        Request::Close => seq![OP_CLOSE],
    }
}

/// Whether a byte sequence is the encoding of some request: a known
/// opcode with the exact payload width that opcode demands.
pub open spec fn request_wf(s: Seq<u8>) -> bool {
    s.len() > 0 && ((s.first() == OP_SCAN && s.len() == 1 + 2 * KEY_SIZE) || (s.first() == OP_PUT
        && s.len() == 1 + KEY_SIZE + VALUE_SIZE) || (s.first() == OP_GET && s.len() == 1 + KEY_SIZE)
        || (s.first() == OP_DEL && s.len() == 1 + KEY_SIZE) || (s.first() == OP_CLOSE && s.len()
        == 1))
}

/// An encoding is well-formed.
pub proof fn lemma_request_bytes_wf(r: Request)
    ensures
        request_wf(request_bytes(r)),
{
}

/// Codec round trip for requests: the encoding determines the request,
/// so deserializing a serialized request gives the request back.
pub proof fn lemma_request_bytes_injective(r1: Request, r2: Request)
    requires
        request_bytes(r1) == request_bytes(r2),
    ensures
        r1 == r2,
{
    broadcast use vstd::array::group_array_axioms;

    let b1 = request_bytes(r1);
    let b2 = request_bytes(r2);
    match (r1, r2) {
        (Request::Scan(a1, a2), Request::Scan(c1, c2)) => {
            assert(a1@ =~= b1.subrange(1, 1 + KEY_SIZE as int));
            assert(a2@ =~= b1.subrange(1 + KEY_SIZE as int, 1 + 2 * KEY_SIZE as int));
            assert(c1@ =~= b2.subrange(1, 1 + KEY_SIZE as int));
            assert(c2@ =~= b2.subrange(1 + KEY_SIZE as int, 1 + 2 * KEY_SIZE as int));
            assert(a1.data == c1.data);
            assert(a2.data == c2.data);
        },
        (Request::Put(a1, av), Request::Put(c1, cv)) => {
            assert(a1@ =~= b1.subrange(1, 1 + KEY_SIZE as int));
            assert(av@ =~= b1.subrange(1 + KEY_SIZE as int, (1 + KEY_SIZE + VALUE_SIZE) as int));
            assert(c1@ =~= b2.subrange(1, 1 + KEY_SIZE as int));
            assert(cv@ =~= b2.subrange(1 + KEY_SIZE as int, (1 + KEY_SIZE + VALUE_SIZE) as int));
            assert(a1.data == c1.data);
            assert(av.data == cv.data);
        },
        (Request::Get(a1), Request::Get(c1)) => {
            assert(a1@ =~= b1.subrange(1, 1 + KEY_SIZE as int));
            assert(c1@ =~= b2.subrange(1, 1 + KEY_SIZE as int));
            assert(a1.data == c1.data);
        },
        (Request::Del(a1), Request::Del(c1)) => {
            assert(a1@ =~= b1.subrange(1, 1 + KEY_SIZE as int));
            assert(c1@ =~= b2.subrange(1, 1 + KEY_SIZE as int));
            assert(a1.data == c1.data);
        },
        (Request::Close, Request::Close) => {
        },
        _ => {
            assert(b1.first() == b2.first());
            assert(false);
        },
    }
}

impl Request {
    /// Serialize this request into the bytes [`request_bytes`] describes.
    pub fn serialize(&self) -> (ret: Vec<u8>)
        ensures
            ret@ == request_bytes(*self),
            request_wf(ret@),
    {
        let ret = match self {
            Request::Scan(key1, key2) => {
                let mut ret: Vec<u8> = Vec::new();
                ret.push(OP_SCAN);
                let mut b1 = key1.serialize();
                ret.append(&mut b1);
                let mut b2 = key2.serialize();
                ret.append(&mut b2);
                ret
            },
            Request::Put(key, value) => {
                let mut ret: Vec<u8> = Vec::new();
                ret.push(OP_PUT);
                let mut b1 = key.serialize();
                ret.append(&mut b1);
                let mut b2 = value.serialize();
                ret.append(&mut b2);
                ret
            },
            Request::Get(key) => {
                let mut ret: Vec<u8> = Vec::new();
                ret.push(OP_GET);
                let mut b1 = key.serialize();
                ret.append(&mut b1);
                ret
            },
            Request::Del(key) => {
                let mut ret: Vec<u8> = Vec::new();
                ret.push(OP_DEL);
                let mut b1 = key.serialize();
                ret.append(&mut b1);
                ret
            },
            Request::Close => {
                let mut ret: Vec<u8> = Vec::new();
                ret.push(OP_CLOSE);
                ret
            },
        };
        proof {
            assert(ret@ =~= request_bytes(*self));
        }
        ret
    }

    /// Deserialize a request from a non-empty buffer. Succeeds exactly on
    /// well-formed encodings and returns the request those bytes encode;
    /// a wrong payload width or an unknown opcode is an error.
    pub fn deserialize_from(raw: Vec<u8>) -> (ret: Result<Self, ProtocolError>)
        requires
            raw@.len() > 0,
        ensures
            match ret {
                Ok(r) => request_bytes(r) == raw@,
                Err(_) => !request_wf(raw@),
            },
    {
        let opcode = raw[0];
        if opcode == OP_SCAN {
            if raw.len() != 1 + KEY_SIZE * 2 {
                Err(ProtocolError::new("incorrect content length"))
            } else {
                let key1 = Key::from_slice(slice_subrange(raw.as_slice(), 1, 1 + KEY_SIZE));
                let key2 = Key::from_slice(
                    slice_subrange(raw.as_slice(), 1 + KEY_SIZE, 1 + KEY_SIZE * 2),
                );
                let r = Request::Scan(key1, key2);
                proof {
                    assert(request_bytes(r) =~= raw@);
                }
                Ok(r)
            }
        } else if opcode == OP_PUT {
            if raw.len() != 1 + KEY_SIZE + VALUE_SIZE {
                Err(ProtocolError::new("incorrect content length"))
            } else {
                let key = Key::from_slice(slice_subrange(raw.as_slice(), 1, 1 + KEY_SIZE));
                let value = Value::from_slice(
                    slice_subrange(raw.as_slice(), 1 + KEY_SIZE, 1 + KEY_SIZE + VALUE_SIZE),
                );
                let r = Request::Put(key, value);
                proof {
                    assert(request_bytes(r) =~= raw@);
                }
                Ok(r)
            }
        } else if opcode == OP_GET {
            if raw.len() != 1 + KEY_SIZE {
                Err(ProtocolError::new("incorrect content length"))
            } else {
                let key = Key::from_slice(slice_subrange(raw.as_slice(), 1, 1 + KEY_SIZE));
                let r = Request::Get(key);
                proof {
                    assert(request_bytes(r) =~= raw@);
                }
                Ok(r)
            }
        } else if opcode == OP_DEL {
            if raw.len() != 1 + KEY_SIZE {
                Err(ProtocolError::new("incorrect content length"))
            } else {
                let key = Key::from_slice(slice_subrange(raw.as_slice(), 1, 1 + KEY_SIZE));
                let r = Request::Del(key);
                proof {
                    assert(request_bytes(r) =~= raw@);
                }
                Ok(r)
            }
        } else if opcode == OP_CLOSE {
            if raw.len() != 1 {
                Err(ProtocolError::new("incorrect content length"))
            } else {
                let r = Request::Close;
                proof {
                    assert(request_bytes(r) =~= raw@);
                }
                Ok(r)
            }
        } else {
            Err(ProtocolError::new("incorrect request identifier"))
        }
    }
}


/// Reply opcode: a single optional value, `'S'`.
pub const REPLY_SINGLE_VALUE: u8 = 0x53;

/// Reply opcode: an unsigned number, `'N'`.
pub const REPLY_NUMBER: u8 = 0x4e;

/// Reply opcode: a run of key-value pairs, `'P'`.
pub const REPLY_KV_PAIRS: u8 = 0x50;

/// Reply opcode: failure, `'E'`.
pub const REPLY_ERROR: u8 = 0x45;

/// Reply opcode: success, `'A'`.
pub const REPLY_SUCCESS: u8 = 0x41;

/// The payload bytes of a run of key-value pairs: each pair contributes
/// its 8 key bytes then its 256 value bytes, in order.
pub open spec fn pairs_payload(ps: Seq<(Key, Value)>) -> Seq<u8>
    decreases ps.len(),
{
    if ps.len() == 0 {
        Seq::empty()
    } else {
        pairs_payload(ps.drop_last()) + ps.last().0@ + ps.last().1@
    }
}

/// The payload of `n` pairs is `n` stretches of 264 bytes, and the `i`th
/// stretch is the `i`th pair.
pub proof fn lemma_pairs_payload_index(ps: Seq<(Key, Value)>)
    ensures
        pairs_payload(ps).len() == ps.len() * KV_PAIR_SERIALIZED_SIZE,
        forall|i: int|
            0 <= i < ps.len() ==> ps[i].0@ == pairs_payload(ps).subrange(
                i * KV_PAIR_SERIALIZED_SIZE,
                i * KV_PAIR_SERIALIZED_SIZE + KEY_SIZE,
            ) && ps[i].1@ == pairs_payload(ps).subrange(
                i * KV_PAIR_SERIALIZED_SIZE + KEY_SIZE,
                (i + 1) * KV_PAIR_SERIALIZED_SIZE,
            ),
    decreases ps.len(),
{
    if ps.len() > 0 {
        let pre = ps.drop_last();
        lemma_pairs_payload_index(pre);
        let pay = pairs_payload(ps);
        let w = KV_PAIR_SERIALIZED_SIZE as int;
        assert forall|i: int|
            0 <= i < ps.len() implies ps[i].0@ == pay.subrange(i * w, i * w + KEY_SIZE) && ps[i].1@
            == pay.subrange(i * w + KEY_SIZE, (i + 1) * w) by {
            if i < ps.len() - 1 {
                assert(pre[i] == ps[i]);
                assert(pay.subrange(i * w, i * w + KEY_SIZE) =~= pairs_payload(pre).subrange(
                    i * w,
                    i * w + KEY_SIZE,
                ));
                assert(pay.subrange(i * w + KEY_SIZE, (i + 1) * w) =~= pairs_payload(pre).subrange(
                    i * w + KEY_SIZE,
                    (i + 1) * w,
                ));
            } else {
                assert(pay.subrange(i * w, i * w + KEY_SIZE) =~= ps.last().0@);
                assert(pay.subrange(i * w + KEY_SIZE, (i + 1) * w) =~= ps.last().1@);
            }
        }
    }
}

/// A reply chunk as the server builds it: the pair run borrows the
/// server's scan snapshot so that serialization copies nothing early.
#[derive(Copy, Clone, Debug)]
pub enum ServerReplyChunk<'a> {
    SingleValue(Option<Value>),
    Number(u64),
    KVPairs(&'a [(Key, Value)]),
    Error,
    Success,
}

/// The exact bytes that encode one server reply chunk.
pub open spec fn server_reply_bytes(c: ServerReplyChunk<'_>) -> Seq<u8> {
    match c {
        ServerReplyChunk::SingleValue(None) => seq![REPLY_SINGLE_VALUE],
        ServerReplyChunk::SingleValue(Some(v)) => seq![REPLY_SINGLE_VALUE] + v@,
        ServerReplyChunk::Number(n) => seq![REPLY_NUMBER] + crate::kvstorage::be_bytes(
            n as nat,
            KEY_SIZE as nat,
        ),
        ServerReplyChunk::KVPairs(ps) => seq![REPLY_KV_PAIRS] + pairs_payload(ps@),
        ServerReplyChunk::Success => seq![REPLY_SUCCESS],
        ServerReplyChunk::Error => seq![REPLY_ERROR],
    }
}

impl ServerReplyChunk<'_> {
    /// Serialize this chunk into the bytes [`server_reply_bytes`]
    /// describes.
    pub fn serialize(&self) -> (ret: Vec<u8>)
        ensures
            ret@ == server_reply_bytes(*self),
    {
        match self {
            ServerReplyChunk::SingleValue(value) => {
                let mut ret: Vec<u8> = Vec::new();
                ret.push(REPLY_SINGLE_VALUE);
                if let Some(value) = value {
                    let mut vb = value.serialize();
                    ret.append(&mut vb);
                }
                proof {
                    assert(ret@ =~= server_reply_bytes(*self));
                }
                ret
            },
            ServerReplyChunk::Number(number) => {
                let mut ret: Vec<u8> = Vec::new();
                ret.push(REPLY_NUMBER);
                let digits = Key::decode(*number);
                let mut db = digits.serialize();
                ret.append(&mut db);
                proof {
                    crate::kvstorage::lemma_be_bytes_val(*number as nat, KEY_SIZE as nat);
                    crate::kvstorage::lemma_pow256_key(8);
                    vstd::arithmetic::div_mod::lemma_small_mod(
                        *number as nat,
                        crate::kvstorage::pow256(KEY_SIZE as nat),
                    );
                    crate::kvstorage::lemma_be_val_injective(
                        digits@,
                        crate::kvstorage::be_bytes(*number as nat, KEY_SIZE as nat),
                    );
                    assert(ret@ =~= server_reply_bytes(*self));
                }
                ret
            },
            ServerReplyChunk::KVPairs(pairs) => {
                let mut ret: Vec<u8> = Vec::new();
                ret.push(REPLY_KV_PAIRS);
                let len = pairs.len();
                let mut i: usize = 0;
                while i < len
                    invariant
                        i <= len,
                        len == pairs@.len(),
                        ret@ == seq![REPLY_KV_PAIRS] + pairs_payload(pairs@.take(i as int)),
                    decreases len - i,
                {
                    let (k, v) = pairs[i];
                    let mut kb = k.serialize();
                    ret.append(&mut kb);
                    let mut vb = v.serialize();
                    ret.append(&mut vb);
                    proof {
                        assert(pairs@.take(i + 1).drop_last() =~= pairs@.take(i as int));
                        assert(pairs@.take(i + 1).last() == pairs@[i as int]);
                        assert(ret@ =~= seq![REPLY_KV_PAIRS] + pairs_payload(pairs@.take(i + 1)));
                    }
                    i += 1;
                }
                proof {
                    assert(pairs@.take(len as int) =~= pairs@);
                }
                ret
            },
            ServerReplyChunk::Success => {
                let mut ret: Vec<u8> = Vec::new();
                ret.push(REPLY_SUCCESS);
                proof {
                    assert(ret@ =~= server_reply_bytes(*self));
                }
                ret
            },
            ServerReplyChunk::Error => {
                let mut ret: Vec<u8> = Vec::new();
                ret.push(REPLY_ERROR);
                proof {
                    assert(ret@ =~= server_reply_bytes(*self));
                }
                ret
            },
        }
    }
}


/// A reply chunk as the client receives it, owning its data.
#[derive(Clone, Debug)]
pub enum ReplyChunk {
    SingleValue(Option<Value>),
    Number(u64),
    KVPairs(Vec<(Key, Value)>),
    Success,
    Error,
}

/// The exact bytes that encode one client-side reply chunk.
pub open spec fn reply_chunk_bytes(c: ReplyChunk) -> Seq<u8> {
    match c {
        ReplyChunk::SingleValue(None) => seq![REPLY_SINGLE_VALUE],
        ReplyChunk::SingleValue(Some(v)) => seq![REPLY_SINGLE_VALUE] + v@,
        ReplyChunk::Number(n) => seq![REPLY_NUMBER] + crate::kvstorage::be_bytes(
            n as nat,
            KEY_SIZE as nat,
        ),
        ReplyChunk::KVPairs(ps) => seq![REPLY_KV_PAIRS] + pairs_payload(ps@),
        ReplyChunk::Success => seq![REPLY_SUCCESS],
        ReplyChunk::Error => seq![REPLY_ERROR],
    }
}

/// Whether a byte sequence is the encoding of some reply chunk: a known
/// opcode with a payload width its opcode allows.
pub open spec fn reply_chunk_wf(s: Seq<u8>) -> bool {
    s.len() > 0 && ((s.first() == REPLY_SINGLE_VALUE && (s.len() == 1 || s.len() == 1 + VALUE_SIZE))
        || (s.first() == REPLY_NUMBER && s.len() == 1 + KEY_SIZE) || (s.first() == REPLY_KV_PAIRS
        && (s.len() - 1) % (KV_PAIR_SERIALIZED_SIZE as int) == 0) || (s.first() == REPLY_SUCCESS
        && s.len() == 1) || (s.first() == REPLY_ERROR && s.len() == 1))
}

impl ReplyChunk {
    /// Deserialize a reply chunk from a non-empty buffer. Succeeds
    /// exactly on well-formed encodings and returns the chunk those
    /// bytes encode; a wrong payload width or an unknown opcode is an
    /// error.
    pub fn deserialize(raw: Vec<u8>) -> (ret: Result<Self, ProtocolError>)
        requires
            raw@.len() > 0,
        ensures
            match ret {
                Ok(c) => reply_chunk_bytes(c) == raw@,
                Err(_) => !reply_chunk_wf(raw@),
            },
    {
        let opcode = raw[0];
        if opcode == REPLY_SINGLE_VALUE {
            if raw.len() == 1 {
                let c = ReplyChunk::SingleValue(None);
                proof {
                    assert(reply_chunk_bytes(c) =~= raw@);
                }
                Ok(c)
            } else if raw.len() == 1 + VALUE_SIZE {
                let v = Value::from_slice(slice_subrange(raw.as_slice(), 1, 1 + VALUE_SIZE));
                let c = ReplyChunk::SingleValue(Some(v));
                proof {
                    assert(reply_chunk_bytes(c) =~= raw@);
                }
                Ok(c)
            } else {
                Err(ProtocolError::new("incorrect content length"))
            }
        } else if opcode == REPLY_NUMBER {
            if raw.len() != 1 + KEY_SIZE {
                Err(ProtocolError::new("incorrect content length"))
            } else {
                let digits = Key::from_slice(slice_subrange(raw.as_slice(), 1, 1 + KEY_SIZE));
                let n = digits.encode();
                let c = ReplyChunk::Number(n);
                proof {
                    crate::kvstorage::lemma_be_bytes_val(n as nat, KEY_SIZE as nat);
                    crate::kvstorage::lemma_pow256_key(8);
                    vstd::arithmetic::div_mod::lemma_small_mod(
                        n as nat,
                        crate::kvstorage::pow256(KEY_SIZE as nat),
                    );
                    crate::kvstorage::lemma_be_val_injective(
                        digits@,
                        crate::kvstorage::be_bytes(n as nat, KEY_SIZE as nat),
                    );
                    assert(reply_chunk_bytes(c) =~= raw@);
                }
                Ok(c)
            }
        } else if opcode == REPLY_KV_PAIRS {
            if (raw.len() - 1) % KV_PAIR_SERIALIZED_SIZE != 0 {
                Err(ProtocolError::new("incorrect content length"))
            } else {
                let count = (raw.len() - 1) / KV_PAIR_SERIALIZED_SIZE;
                proof {
                    vstd::arithmetic::div_mod::lemma_fundamental_div_mod(
                        raw@.len() - 1,
                        KV_PAIR_SERIALIZED_SIZE as int,
                    );
                }
                let mut pairs: Vec<(Key, Value)> = Vec::new();
                let mut c: usize = 0;
                while c < count
                    invariant
                        c <= count,
                        raw@.len() <= usize::MAX,
                        raw@.len() == 1 + count * KV_PAIR_SERIALIZED_SIZE,
                        pairs@.len() == c,
                        pairs_payload(pairs@) == raw@.subrange(
                            1,
                            1 + c * KV_PAIR_SERIALIZED_SIZE,
                        ),
                    decreases count - c,
                {
                    let off = 1 + c * KV_PAIR_SERIALIZED_SIZE;
                    let key = Key::from_slice(slice_subrange(raw.as_slice(), off, off + KEY_SIZE));
                    let value = Value::from_slice(
                        slice_subrange(
                            raw.as_slice(),
                            off + KEY_SIZE,
                            off + KV_PAIR_SERIALIZED_SIZE,
                        ),
                    );
                    let ghost pairs_old = pairs@;
                    pairs.push((key, value));
                    proof {
                        assert(pairs@.drop_last() =~= pairs_old);
                        assert(pairs@.last() == (key, value));
                        assert(pairs_payload(pairs@) =~= raw@.subrange(
                            1,
                            1 + (c + 1) * KV_PAIR_SERIALIZED_SIZE,
                        ));
                    }
                    c += 1;
                }
                let ck = ReplyChunk::KVPairs(pairs);
                proof {
                    assert(raw@.subrange(1, 1 + count * KV_PAIR_SERIALIZED_SIZE) =~= raw@.skip(1));
                    assert(reply_chunk_bytes(ck) =~= raw@);
                }
                Ok(ck)
            }
        } else if opcode == REPLY_SUCCESS {
            if raw.len() != 1 {
                Err(ProtocolError::new("incorrect content length"))
            } else {
                let c = ReplyChunk::Success;
                proof {
                    assert(reply_chunk_bytes(c) =~= raw@);
                }
                Ok(c)
            }
        } else if opcode == REPLY_ERROR {
            if raw.len() != 1 {
                Err(ProtocolError::new("incorrect content length"))
            } else {
                let c = ReplyChunk::Error;
                proof {
                    assert(reply_chunk_bytes(c) =~= raw@);
                }
                Ok(c)
            }
        } else {
            Err(ProtocolError::new("incorrect reply chunk identifier"))
        }
    }
}

/// Whether a server-side chunk and a client-side chunk carry the same
/// content: same variant, and byte-equal fields.
pub open spec fn reply_corresponds(sc: ServerReplyChunk<'_>, cc: ReplyChunk) -> bool {
    match (sc, cc) {
        (ServerReplyChunk::SingleValue(a), ReplyChunk::SingleValue(b)) => match (a, b) {
            (Some(x), Some(y)) => x@ == y@,
            (None, None) => true,
            _ => false,
        },
        (ServerReplyChunk::Number(a), ReplyChunk::Number(b)) => a == b,
        (ServerReplyChunk::KVPairs(ps), ReplyChunk::KVPairs(qs)) => ps@.len() == qs@.len()
            && forall|i: int|
            0 <= i < ps@.len() ==> ps@[i].0@ == qs@[i].0@ && ps@[i].1@ == qs@[i].1@,
        (ServerReplyChunk::Success, ReplyChunk::Success) => true,
        (ServerReplyChunk::Error, ReplyChunk::Error) => true,
        _ => false,
    }
}

/// Codec round trip for reply chunks: a server chunk and a client chunk
/// with one encoding carry the same content, so deserializing what the
/// server serialized reconstructs the reply.
pub proof fn lemma_reply_codec_round_trip(sc: ServerReplyChunk<'_>, cc: ReplyChunk)
    requires
        server_reply_bytes(sc) == reply_chunk_bytes(cc),
    ensures
        reply_corresponds(sc, cc),
{
    let b = server_reply_bytes(sc);
    match (sc, cc) {
        (ServerReplyChunk::SingleValue(a), ReplyChunk::SingleValue(c)) => {
            match (a, c) {
                (Some(x), Some(y)) => {
                    assert(x@ =~= b.subrange(1, 1 + VALUE_SIZE as int));
                    assert(y@ =~= b.subrange(1, 1 + VALUE_SIZE as int));
                },
                (Some(x), None) => {
                    assert(b.len() == 1 + VALUE_SIZE);
                    assert(false);
                },
                (None, Some(y)) => {
                    assert(b.len() == 1);
                    assert(false);
                },
                (None, None) => {
                },
            }
        },
        (ServerReplyChunk::Number(a), ReplyChunk::Number(c)) => {
            crate::kvstorage::lemma_be_bytes_val(a as nat, KEY_SIZE as nat);
            crate::kvstorage::lemma_be_bytes_val(c as nat, KEY_SIZE as nat);
            crate::kvstorage::lemma_pow256_key(8);
            vstd::arithmetic::div_mod::lemma_small_mod(
                a as nat,
                crate::kvstorage::pow256(KEY_SIZE as nat),
            );
            vstd::arithmetic::div_mod::lemma_small_mod(
                c as nat,
                crate::kvstorage::pow256(KEY_SIZE as nat),
            );
            assert(crate::kvstorage::be_bytes(a as nat, KEY_SIZE as nat) =~= b.skip(1));
            assert(crate::kvstorage::be_bytes(c as nat, KEY_SIZE as nat) =~= b.skip(1));
        },
        (ServerReplyChunk::KVPairs(ps), ReplyChunk::KVPairs(qs)) => {
            lemma_pairs_payload_index(ps@);
            lemma_pairs_payload_index(qs@);
            assert(pairs_payload(ps@) =~= b.skip(1));
            assert(pairs_payload(qs@) =~= b.skip(1));
            assert(ps@.len() * KV_PAIR_SERIALIZED_SIZE == qs@.len() * KV_PAIR_SERIALIZED_SIZE);
            assert(ps@.len() == qs@.len()) by (nonlinear_arith)
                requires
                    ps@.len() * KV_PAIR_SERIALIZED_SIZE == qs@.len() * KV_PAIR_SERIALIZED_SIZE,
                    KV_PAIR_SERIALIZED_SIZE > 0,
            ;
            assert forall|i: int|
                0 <= i < ps@.len() implies ps@[i].0@ == qs@[i].0@ && ps@[i].1@ == qs@[i].1@ by {
                assert(pairs_payload(ps@).subrange(
                    i * KV_PAIR_SERIALIZED_SIZE,
                    i * KV_PAIR_SERIALIZED_SIZE + KEY_SIZE,
                ) == pairs_payload(qs@).subrange(
                    i * KV_PAIR_SERIALIZED_SIZE,
                    i * KV_PAIR_SERIALIZED_SIZE + KEY_SIZE,
                ));
                assert(pairs_payload(ps@).subrange(
                    i * KV_PAIR_SERIALIZED_SIZE + KEY_SIZE,
                    (i + 1) * KV_PAIR_SERIALIZED_SIZE,
                ) == pairs_payload(qs@).subrange(
                    i * KV_PAIR_SERIALIZED_SIZE + KEY_SIZE,
                    (i + 1) * KV_PAIR_SERIALIZED_SIZE,
                ));
            }
        },
        (ServerReplyChunk::Success, ReplyChunk::Success) => {
        },
        (ServerReplyChunk::Error, ReplyChunk::Error) => {
        },
        _ => {
            assert(b.first() == reply_chunk_bytes(cc).first());
            if b.len() == 1 && reply_chunk_bytes(cc).len() == 1 {
            }
            assert(false);
        },
    }
}

} // verus!
