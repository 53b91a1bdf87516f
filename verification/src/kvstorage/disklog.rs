//! The on-disk log: record codec, replay semantics, and a reader that
//! consumes records one at a time from a byte buffer.
//!
//! A log is a concatenation of records with no separator. A `PUT` record
//! is the tag byte 0x50 (`'P'`), 8 key bytes and 256 value bytes; a `DEL`
//! record is the tag byte 0x44 (`'D'`) and 8 key bytes.

use crate::kvstorage::be_val;
use crate::kvstorage::Key;
use crate::kvstorage::Value;
use crate::kvstorage::KEY_SIZE;
use crate::kvstorage::VALUE_SIZE;
use vstd::prelude::*;
use vstd::slice::slice_subrange;

verus! {

/// Tag byte of a `PUT` record: `'P'`.
pub const DISK_PUT: u8 = 0x50;

/// Tag byte of a `DEL` record: `'D'`.
pub const DISK_DELETE: u8 = 0x44;

/// Total width of a `PUT` record.
pub const PUT_RECORD_SIZE: usize = 265;

/// Total width of a `DEL` record.
pub const DEL_RECORD_SIZE: usize = 9;

/// The error of this module: a malformed or truncated log.
#[derive(Debug)]
pub struct DiskLogError {
    description: String,
}

impl View for DiskLogError {
    type V = Seq<char>;

    closed spec fn view(&self) -> Seq<char> {
        self.description@
    }
}

impl DiskLogError {
    /// Wrap a description into an error value.
    pub fn new(description: &str) -> (ret: Self)
        ensures
            ret@ == description@,
    {
        DiskLogError { description: description.to_owned() }
    }

    /// The description this error carries.
    pub fn description(&self) -> (ret: &str)
        ensures
            ret@ == self@,
    {
        self.description.as_str()
    }
}

/// One log record: a key bound to a value, or a key deleted.
#[derive(Copy, Clone, Debug, PartialEq, Eq)]
pub enum DiskLogMessage {
    Put(Key, Value),
    Delete(Key),
}

/// The exact bytes that encode one record.
pub open spec fn msg_bytes(msg: DiskLogMessage) -> Seq<u8> {
    match msg {
        DiskLogMessage::Put(k, v) => seq![DISK_PUT] + k@ + v@,
        DiskLogMessage::Delete(k) => seq![DISK_DELETE] + k@,
    }
}

/// Whether a byte sequence begins with a complete record.
pub open spec fn starts_with_record(s: Seq<u8>) -> bool {
    s.len() > 0 && ((s.first() == DISK_PUT && s.len() >= PUT_RECORD_SIZE) || (s.first()
        == DISK_DELETE && s.len() >= DEL_RECORD_SIZE))
}

/// Replaying `bytes` over the accumulated contents `acc`: each `PUT`
/// installs its key, each `DEL` removes its key outright, and anything
/// else — an unknown tag or a trailing partial record — is corrupt.
pub open spec fn replay_acc(bytes: Seq<u8>, acc: Map<u64, Seq<u8>>) -> Option<Map<u64, Seq<u8>>>
    decreases bytes.len(),
{
    if bytes.len() == 0 {
        Some(acc)
    } else if bytes.first() == DISK_PUT && bytes.len() >= PUT_RECORD_SIZE {
        replay_acc(
            bytes.skip(PUT_RECORD_SIZE as int),
            acc.insert(
                be_val(bytes.subrange(1, 1 + KEY_SIZE as int)) as u64,
                bytes.subrange(1 + KEY_SIZE as int, PUT_RECORD_SIZE as int),
            ),
        )
    } else if bytes.first() == DISK_DELETE && bytes.len() >= DEL_RECORD_SIZE {
        replay_acc(
            bytes.skip(DEL_RECORD_SIZE as int),
            acc.remove(be_val(bytes.subrange(1, 1 + KEY_SIZE as int)) as u64),
        )
    } else {
        None
    }
}

/// The contents a log denotes: replay from the empty map, or `None` for a
/// corrupt log.
pub open spec fn replay(bytes: Seq<u8>) -> Option<Map<u64, Seq<u8>>> {
    replay_acc(bytes, Map::empty())
}

/// The effect of appending one record to a log whose replay yields `m`.
pub open spec fn apply_msg(m: Map<u64, Seq<u8>>, msg: DiskLogMessage) -> Map<u64, Seq<u8>> {
    match msg {
        DiskLogMessage::Put(k, v) => m.insert(be_val(k@) as u64, v@),
        DiskLogMessage::Delete(k) => m.remove(be_val(k@) as u64),
    }
}

/// Appending one well-formed record to a replayable log replays to the
/// stepped contents: the log is a fold of its records.
pub proof fn lemma_replay_acc_append(bytes: Seq<u8>, msg: DiskLogMessage, acc: Map<u64, Seq<u8>>)
    requires
        replay_acc(bytes, acc) is Some,
    ensures
        replay_acc(bytes + msg_bytes(msg), acc) == Some(
            apply_msg(replay_acc(bytes, acc).unwrap(), msg),
        ),
    decreases bytes.len(),
{
    let rec = msg_bytes(msg);
    let cat = bytes + rec;
    if bytes.len() == 0 {
        assert(cat =~= rec);
        match msg {
            DiskLogMessage::Put(k, v) => {
                assert(rec.first() == DISK_PUT);
                assert(rec.len() == PUT_RECORD_SIZE);
                assert(rec.subrange(1, 1 + KEY_SIZE as int) =~= k@);
                assert(rec.subrange(1 + KEY_SIZE as int, PUT_RECORD_SIZE as int) =~= v@);
                let acc2 = acc.insert(
                    be_val(cat.subrange(1, 1 + KEY_SIZE as int)) as u64,
                    cat.subrange(1 + KEY_SIZE as int, PUT_RECORD_SIZE as int),
                );
                assert(replay_acc(cat, acc) == replay_acc(cat.skip(PUT_RECORD_SIZE as int), acc2));
                assert(cat.skip(PUT_RECORD_SIZE as int) =~= Seq::<u8>::empty());
                assert(replay_acc(Seq::<u8>::empty(), acc2) == Some(acc2));
            },
            DiskLogMessage::Delete(k) => {
                assert(rec.first() == DISK_DELETE);
                assert(rec.len() == DEL_RECORD_SIZE);
                assert(rec.subrange(1, 1 + KEY_SIZE as int) =~= k@);
                let acc2 = acc.remove(be_val(cat.subrange(1, 1 + KEY_SIZE as int)) as u64);
                assert(replay_acc(cat, acc) == replay_acc(cat.skip(DEL_RECORD_SIZE as int), acc2));
                assert(cat.skip(DEL_RECORD_SIZE as int) =~= Seq::<u8>::empty());
                assert(replay_acc(Seq::<u8>::empty(), acc2) == Some(acc2));
            },
        }
    } else {
        assert(cat.first() == bytes.first());
        if bytes.first() == DISK_PUT && bytes.len() >= PUT_RECORD_SIZE {
            assert(cat.subrange(1, 1 + KEY_SIZE as int) =~= bytes.subrange(1, 1 + KEY_SIZE as int));
            assert(cat.subrange(1 + KEY_SIZE as int, PUT_RECORD_SIZE as int) =~= bytes.subrange(
                1 + KEY_SIZE as int,
                PUT_RECORD_SIZE as int,
            ));
            assert(cat.skip(PUT_RECORD_SIZE as int) =~= bytes.skip(PUT_RECORD_SIZE as int) + rec);
            lemma_replay_acc_append(
                bytes.skip(PUT_RECORD_SIZE as int),
                msg,
                acc.insert(
                    be_val(bytes.subrange(1, 1 + KEY_SIZE as int)) as u64,
                    bytes.subrange(1 + KEY_SIZE as int, PUT_RECORD_SIZE as int),
                ),
            );
        } else if bytes.first() == DISK_DELETE && bytes.len() >= DEL_RECORD_SIZE {
            assert(cat.subrange(1, 1 + KEY_SIZE as int) =~= bytes.subrange(1, 1 + KEY_SIZE as int));
            assert(cat.skip(DEL_RECORD_SIZE as int) =~= bytes.skip(DEL_RECORD_SIZE as int) + rec);
            lemma_replay_acc_append(
                bytes.skip(DEL_RECORD_SIZE as int),
                msg,
                acc.remove(be_val(bytes.subrange(1, 1 + KEY_SIZE as int)) as u64),
            );
        }
    }
}


/// Replaying a log that begins with one record equals replaying the rest
/// over the stepped contents.
pub proof fn lemma_replay_acc_step(msg: DiskLogMessage, rest: Seq<u8>, acc: Map<u64, Seq<u8>>)
    ensures
        replay_acc(msg_bytes(msg) + rest, acc) == replay_acc(rest, apply_msg(acc, msg)),
{
    let cat = msg_bytes(msg) + rest;
    match msg {
        DiskLogMessage::Put(k, v) => {
            assert(cat.first() == DISK_PUT);
            assert(cat.len() >= PUT_RECORD_SIZE);
            assert(cat.subrange(1, 1 + KEY_SIZE as int) =~= k@);
            assert(cat.subrange(1 + KEY_SIZE as int, PUT_RECORD_SIZE as int) =~= v@);
            assert(cat.skip(PUT_RECORD_SIZE as int) =~= rest);
        },
        DiskLogMessage::Delete(k) => {
            assert(cat.first() == DISK_DELETE);
            assert(cat.len() >= DEL_RECORD_SIZE);
            assert(cat.subrange(1, 1 + KEY_SIZE as int) =~= k@);
            assert(cat.skip(DEL_RECORD_SIZE as int) =~= rest);
        },
    }
}

impl DiskLogMessage {
    /// Serialize one record into the bytes [`msg_bytes`] describes.
    pub fn serialize(&self) -> (ret: Vec<u8>)
        ensures
            ret@ == msg_bytes(*self),
    {
        match self {
            DiskLogMessage::Put(key, value) => {
                let mut ret: Vec<u8> = Vec::new();
                ret.push(DISK_PUT);
                let mut kb = key.serialize();
                ret.append(&mut kb);
                let mut vb = value.serialize();
                ret.append(&mut vb);
                proof {
                    assert(ret@ =~= msg_bytes(*self));
                }
                ret
            },
            DiskLogMessage::Delete(key) => {
                let mut ret: Vec<u8> = Vec::new();
                ret.push(DISK_DELETE);
                let mut kb = key.serialize();
                ret.append(&mut kb);
                proof {
                    assert(ret@ =~= msg_bytes(*self));
                }
                ret
            },
        }
    }
}

/// Reads records in order from the start of a log held in memory.
pub struct DiskLogReader {
    data: Vec<u8>,
    pos: usize,
}

impl DiskLogReader {
    /// The bytes not yet consumed.
    pub closed spec fn remaining(self) -> Seq<u8> {
        self.data@.skip(self.pos as int)
    }

    /// The whole log this reader walks.
    pub closed spec fn log(self) -> Seq<u8> {
        self.data@
    }

    /// A reader is positioned inside its buffer.
    pub closed spec fn wf(self) -> bool {
        self.pos <= self.data@.len()
    }

    /// Start reading a log from its first byte.
    pub fn new(data: Vec<u8>) -> (ret: Self)
        ensures
            ret.wf(),
            ret.log() == data@,
            ret.remaining() == data@,
    {
        let ret = DiskLogReader { data, pos: 0 };
        proof {
            assert(ret.remaining() =~= ret.data@);
        }
        ret
    }

    /// Give back the underlying log bytes.
    pub fn into_log(self) -> (ret: Vec<u8>)
        ensures
            ret@ == self.log(),
    {
        self.data
    }

    /// Read the next record. Returns `Ok(None)` exactly at the end of the
    /// log, `Ok(Some(msg))` when a complete record starts here, and an
    /// error when the head is an unknown tag or a truncated record.
    pub fn next_log(&mut self) -> (ret: Result<Option<DiskLogMessage>, DiskLogError>)
        requires
            old(self).wf(),
        ensures
            final(self).wf(),
            final(self).log() == old(self).log(),
            match ret {
                Ok(None) => old(self).remaining().len() == 0 && final(self).remaining() == old(
                    self,
                ).remaining(),
                Ok(Some(msg)) => starts_with_record(old(self).remaining()) && old(self).remaining()
                    == msg_bytes(msg) + final(self).remaining(),
                Err(_) => old(self).remaining().len() > 0 && !starts_with_record(
                    old(self).remaining(),
                ) && final(self).remaining() == old(self).remaining(),
            },
    {
        let len = self.data.len();
        if self.pos == len {
            return Ok(None);
        }
        let tag = self.data[self.pos];
        if tag == DISK_PUT {
            if len - self.pos < PUT_RECORD_SIZE {
                return Err(DiskLogError::new("incorrect disk log format"));
            }
            let key = Key::from_slice(slice_subrange(self.data.as_slice(), self.pos + 1, self.pos + 1 + KEY_SIZE));
            let value = Value::from_slice(slice_subrange(
                self.data.as_slice(),
                self.pos + 1 + KEY_SIZE,
                self.pos + PUT_RECORD_SIZE,
            ));
            let ghost old_rem = self.remaining();
            self.pos = self.pos + PUT_RECORD_SIZE;
            let msg = DiskLogMessage::Put(key, value);
            proof {
                assert(old_rem =~= msg_bytes(msg) + self.remaining());
            }
            Ok(Some(msg))
        } else if tag == DISK_DELETE {
            if len - self.pos < DEL_RECORD_SIZE {
                return Err(DiskLogError::new("incorrect disk log format"));
            }
            let key = Key::from_slice(slice_subrange(self.data.as_slice(), self.pos + 1, self.pos + 1 + KEY_SIZE));
            let ghost old_rem = self.remaining();
            self.pos = self.pos + DEL_RECORD_SIZE;
            let msg = DiskLogMessage::Delete(key);
            proof {
                assert(old_rem =~= msg_bytes(msg) + self.remaining());
            }
            Ok(Some(msg))
        } else {
            Err(DiskLogError::new("incorrect disk log format"))
        }
    }
}

} // verus!
