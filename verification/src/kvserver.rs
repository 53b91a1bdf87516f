//! The server side: its configuration, the request/reply codec, and the
//! per-request dispatch with scan chunking.

use crate::kvserver::protocol::pairs_payload;
use crate::kvserver::protocol::ServerReplyChunk;
use crate::kvserver::protocol::Request;
use crate::kvserver::protocol::REPLY_KV_PAIRS;
use crate::kvserver::protocol::REPLY_NUMBER;
use crate::kvserver::protocol::REPLY_SINGLE_VALUE;
use crate::kvserver::protocol::REPLY_SUCCESS;
use crate::kvstorage::be_bytes;
use crate::kvstorage::be_val;
use crate::kvstorage::disklog::msg_bytes;
use crate::kvstorage::disklog::DiskLogMessage;
use crate::kvstorage::scan_result_ok;
use crate::kvstorage::InternKey;
use crate::kvstorage::Key;
use crate::kvstorage::KVStorage;
use crate::kvstorage::Value;
use crate::kvstorage::KEY_SIZE;
use vstd::prelude::*;
use vstd::slice::slice_subrange;

pub mod config;
pub mod protocol;

pub use config::KVServerConfig;

verus! {

/// How many key-value pairs one reply chunk can carry: the chunk opcode
/// takes one byte of the chunk budget, each pair takes 264.
pub const ROW_PER_CHUNK: usize = 248;

/// The bytes of the `c`-th scan reply chunk: a `KVPairs` chunk carrying
/// the `c`-th run of up to [`ROW_PER_CHUNK`] pairs.
pub open spec fn chunk_of(ps: Seq<(Key, Value)>, c: int) -> Seq<u8> {
    seq![REPLY_KV_PAIRS] + pairs_payload(
        ps.subrange(
            c * ROW_PER_CHUNK,
            if (c + 1) * ROW_PER_CHUNK <= ps.len() {
                (c + 1) * ROW_PER_CHUNK
            } else {
                ps.len() as int
            },
        ),
    )
}

/// How a scan result must travel: one `KVPairs` chunk per full or final
/// partial run of [`ROW_PER_CHUNK`] pairs — none for an empty result —
/// followed by exactly one empty chunk as the end-of-stream sentinel.
pub open spec fn chunked_scan_reply(chunks: Seq<Vec<u8>>, ps: Seq<(Key, Value)>) -> bool {
    &&& chunks.len() == (ps.len() + ROW_PER_CHUNK - 1) / (ROW_PER_CHUNK as int) + 1
    &&& chunks[chunks.len() - 1]@ == Seq::<u8>::empty()
    &&& forall|c: int| 0 <= c < chunks.len() - 1 ==> chunks[c]@ == chunk_of(ps, c)
}

/// Serialize a scan result into its reply chunks: ⌈len/248⌉ non-empty
/// `KVPairs` chunks in order, then one empty sentinel chunk.
pub fn scan_reply_chunks(pairs: &Vec<(Key, Value)>) -> (ret: Vec<Vec<u8>>)
    ensures
        chunked_scan_reply(ret@, pairs@),
{
    let m = pairs.len();
    let mut ret: Vec<Vec<u8>> = Vec::new();
    let mut i: usize = 0;
    while i < m
        invariant
            i <= m,
            m == pairs@.len(),
            m <= usize::MAX,
            i < m ==> i == ret@.len() * ROW_PER_CHUNK,
            i == m ==> (m == 0 && ret@.len() == 0) || ((ret@.len() - 1) * ROW_PER_CHUNK < m
                && m <= ret@.len() * ROW_PER_CHUNK),
            forall|c: int| 0 <= c < ret@.len() ==> ret@[c]@ == chunk_of(pairs@, c),
        decreases m - i,
    {
        let hi = if m - i > ROW_PER_CHUNK {
            i + ROW_PER_CHUNK
        } else {
            m
        };
        let slice = slice_subrange(pairs.as_slice(), i, hi);
        let chunk = ServerReplyChunk::KVPairs(slice).serialize();
        let ghost c_old = ret@.len() as int;
        ret.push(chunk);
        proof {
            assert(slice@ == pairs@.subrange(c_old * ROW_PER_CHUNK, hi as int));
            assert(ret@[c_old]@ == chunk_of(pairs@, c_old));
        }
        i = hi;
    }
    let empty: Vec<u8> = Vec::new();
    ret.push(empty);
    proof {
        let n = ret@.len() - 1;
        let m_i = m as int;
        let w = ROW_PER_CHUNK as int;
        if m == 0 {
            assert((m_i + w - 1) / w == 0) by {
                vstd::arithmetic::div_mod::lemma_fundamental_div_mod_converse(
                    m_i + w - 1,
                    w,
                    0,
                    m_i + w - 1,
                );
            }
        } else {
            assert((n - 1) * w < m_i && m_i <= n * w);
            assert((m_i + w - 1) / w == n) by {
                vstd::arithmetic::div_mod::lemma_fundamental_div_mod_converse(
                    m_i + w - 1,
                    w,
                    n,
                    m_i + w - 1 - n * w,
                );
            }
        }
    }
    ret
}

/// Serve one request against the engine: the reply chunks to send, in
/// order, and whether the connection must now close. `Get` and `Scan`
/// leave the engine untouched; `Put` and `Del` mutate it under the
/// engine's own contracts; `Close` only ends the conversation.
pub fn handle_request(storage: &mut KVStorage, req: Request) -> (ret: (Vec<Vec<u8>>, bool))
    requires
        old(storage).wf(),
    ensures
        final(storage).wf(),
        match req {
            Request::Get(k) => {
                &&& *final(storage) == *old(storage)
                &&& ret.1 == false
                &&& ret.0@.len() == 1
                &&& (old(storage).live().contains_key(be_val(k@) as InternKey) ==> ret.0@[0]@
                    == seq![REPLY_SINGLE_VALUE] + old(storage).live()[be_val(k@) as InternKey])
                &&& (!old(storage).live().contains_key(be_val(k@) as InternKey) ==> ret.0@[0]@
                    == seq![REPLY_SINGLE_VALUE])
            },
            Request::Put(k, v) => {
                &&& final(storage).live() == old(storage).live().insert(
                    be_val(k@) as InternKey,
                    v@,
                )
                &&& final(storage).log() == old(storage).log() + msg_bytes(
                    DiskLogMessage::Put(k, v),
                )
                &&& ret.1 == false
                &&& ret.0@.len() == 1
                &&& ret.0@[0]@ == seq![REPLY_SUCCESS]
            },
            Request::Del(k) => {
                &&& ret.1 == false
                &&& ret.0@.len() == 1
                &&& (old(storage).known(be_val(k@) as InternKey) ==> {
                    &&& final(storage).live() == old(storage).live().remove(
                        be_val(k@) as InternKey,
                    )
                    &&& final(storage).log() == old(storage).log() + msg_bytes(
                        DiskLogMessage::Delete(k),
                    )
                    &&& ret.0@[0]@ == seq![REPLY_NUMBER] + be_bytes(1, KEY_SIZE as nat)
                })
                &&& (!old(storage).known(be_val(k@) as InternKey) ==> {
                    &&& *final(storage) == *old(storage)
                    &&& ret.0@[0]@ == seq![REPLY_NUMBER] + be_bytes(0, KEY_SIZE as nat)
                })
            },
            Request::Scan(k1, k2) => {
                &&& *final(storage) == *old(storage)
                &&& ret.1 == false
                &&& exists|ps: Seq<(Key, Value)>|
                    #[trigger] scan_result_ok(*old(storage), k1, k2, ps) && chunked_scan_reply(
                        ret.0@,
                        ps,
                    )
            },
            Request::Close => {
                &&& *final(storage) == *old(storage)
                &&& ret.1 == true
                &&& ret.0@.len() == 0
            },
        },
{
    match req {
        Request::Get(key) => {
            let maybe_value = storage.get(&key);
            let chunk = ServerReplyChunk::SingleValue(maybe_value).serialize();
            let mut chunks: Vec<Vec<u8>> = Vec::new();
            chunks.push(chunk);
            (chunks, false)
        },
        Request::Put(key, value) => {
            let r = storage.put(&key, &value);
            let chunk = match r {
                Ok(_) => ServerReplyChunk::Success.serialize(),
                Err(_) => ServerReplyChunk::Error.serialize(),
            };
            let mut chunks: Vec<Vec<u8>> = Vec::new();
            chunks.push(chunk);
            (chunks, false)
        },
        Request::Del(key) => {
            let affected = match storage.delete(&key) {
                Ok(n) => n,
                Err(_) => 0,
            };
            let chunk = ServerReplyChunk::Number(affected as u64).serialize();
            let mut chunks: Vec<Vec<u8>> = Vec::new();
            chunks.push(chunk);
            (chunks, false)
        },
        Request::Scan(key1, key2) => {
            let pairs = storage.scan(&key1, &key2);
            let chunks = scan_reply_chunks(&pairs);
            proof {
                assert(scan_result_ok(*old(storage), key1, key2, pairs@));
                assert(chunked_scan_reply(chunks@, pairs@));
            }
            (chunks, false)
        },
        Request::Close => {
            let chunks: Vec<Vec<u8>> = Vec::new();
            (chunks, true)
        },
    }
}

} // verus!
