//! The client side: parsing typed commands into requests, and reading
//! the server's reply chunks back into results.

use crate::kvserver::protocol::ReplyChunk;
use crate::kvstorage::Key;
use crate::kvstorage::Value;
use crate::kvstorage::KEY_SIZE;
use crate::kvstorage::VALUE_SIZE;
use vstd::prelude::*;
use vstd::slice::slice_subrange;
use vstd::string::StringSliceAdditionalSpecFns;

verus! {

/// An error the server reported, or an answer the client cannot use.
#[derive(Debug)]
pub struct ServerError {
    description: String,
}

impl View for ServerError {
    type V = Seq<char>;

    closed spec fn view(&self) -> Seq<char> {
        self.description@
    }
}

impl ServerError {
    /// Wrap a description into an error value.
    pub fn new(description: &str) -> (ret: Self)
        ensures
            ret@ == description@,
    {
        ServerError { description: description.to_owned() }
    }

    /// The description this error carries.
    pub fn description(&self) -> (ret: &str)
        ensures
            ret@ == self@,
    {
        self.description.as_str()
    }
}

/// A command line the user typed that the client cannot accept.
#[derive(Debug)]
pub struct ClientError {
    description: String,
}

impl View for ClientError {
    type V = Seq<char>;

    closed spec fn view(&self) -> Seq<char> {
        self.description@
    }
}

impl ClientError {
    /// Wrap a description into an error value.
    pub fn new(description: &str) -> (ret: Self)
        ensures
            ret@ == description@,
    {
        ClientError { description: description.to_owned() }
    }

    /// The description this error carries.
    pub fn description(&self) -> (ret: &str)
        ensures
            ret@ == self@,
    {
        self.description.as_str()
    }
}

/// One parsed command from the client prompt.
#[derive(Copy, Clone, Debug)]
pub enum Command {
    Get(Key),
    Put(Key, Value),
    Scan(Key, Key),
    Delete(Key),
    Close,
}

/// The whitespace that separates command words.
pub open spec fn is_space(b: u8) -> bool {
    b == 32 || b == 9 || b == 10 || b == 13
}

/// The first position at or after `i` holding a non-space byte, or the
/// end of the input.
pub open spec fn skip_spaces(s: Seq<u8>, i: int) -> int
    decreases s.len() - i when 0 <= i <= s.len()
{
    if i >= s.len() {
        i
    } else if is_space(s[i]) {
        skip_spaces(s, i + 1)
    } else {
        i
    }
}

/// The first position at or after `i` holding a space byte, or the end
/// of the input: the end of the word starting at `i`.
pub open spec fn word_end(s: Seq<u8>, i: int) -> int
    decreases s.len() - i when 0 <= i <= s.len()
{
    if i >= s.len() {
        i
    } else if !is_space(s[i]) {
        word_end(s, i + 1)
    } else {
        i
    }
}

/// `skip_spaces` stays inside the input and moves only forward.
pub proof fn lemma_skip_spaces_bounds(s: Seq<u8>, i: int)
    requires
        0 <= i <= s.len(),
    ensures
        i <= skip_spaces(s, i) <= s.len(),
        skip_spaces(s, i) < s.len() ==> !is_space(s[skip_spaces(s, i)]),
    decreases s.len() - i,
{
    if i < s.len() && is_space(s[i]) {
        lemma_skip_spaces_bounds(s, i + 1);
    }
}

/// `word_end` stays inside the input, moves forward, and stops exactly
/// at the first space after its word.
pub proof fn lemma_word_end_bounds(s: Seq<u8>, i: int)
    requires
        0 <= i <= s.len(),
    ensures
        i <= word_end(s, i) <= s.len(),
        i < s.len() && !is_space(s[i]) ==> i < word_end(s, i),
        word_end(s, i) < s.len() ==> is_space(s[word_end(s, i)]),
        forall|j: int| i <= j < word_end(s, i) ==> !is_space(s[j]),
    decreases s.len() - i,
{
    if i < s.len() && !is_space(s[i]) {
        lemma_word_end_bounds(s, i + 1);
    }
}

/// The words of the input from position `i` on: maximal runs of
/// non-space bytes, in order.
pub open spec fn words_from(s: Seq<u8>, i: int) -> Seq<Seq<u8>>
    decreases s.len() - i when 0 <= i <= s.len() via words_from_decreases
{
    let j = skip_spaces(s, i);
    if j >= s.len() {
        Seq::empty()
    } else {
        seq![s.subrange(j, word_end(s, j))] + words_from(s, word_end(s, j))
    }
}

#[via_fn]
proof fn words_from_decreases(s: Seq<u8>, i: int) {
    lemma_skip_spaces_bounds(s, i);
    if skip_spaces(s, i) < s.len() {
        lemma_word_end_bounds(s, skip_spaces(s, i));
    }
}

/// The words of a whole command line.
pub open spec fn words(s: Seq<u8>) -> Seq<Seq<u8>> {
    words_from(s, 0)
}

/// Split a command line into its whitespace-separated words.
pub fn split_words(s: &[u8]) -> (ret: Vec<Vec<u8>>)
    ensures
        ret@.map_values(|w: Vec<u8>| w@) == words(s@),
{
    let len = s.len();
    let mut ret: Vec<Vec<u8>> = Vec::new();
    let mut i: usize = 0;
    while i < len
        invariant
            i <= len,
            len == s@.len(),
            words(s@) == ret@.map_values(|w: Vec<u8>| w@) + words_from(s@, i as int),
        decreases len - i,
    {
        if is_space_byte(s[i]) {
            proof {
                assert(skip_spaces(s@, i as int) == skip_spaces(s@, i + 1));
            }
            i += 1;
        } else {
            let start = i;
            let ghost j0 = i as int;
            proof {
                assert(skip_spaces(s@, j0) == j0);
            }
            while i < len && !is_space_byte(s[i])
                invariant
                    start <= i <= len,
                    len == s@.len(),
                    j0 == start as int,
                    forall|j: int| j0 <= j < i ==> !is_space(s@[j]),
                    word_end(s@, j0) == word_end(s@, i as int),
                decreases len - i,
            {
                proof {
                    assert(word_end(s@, i as int) == word_end(s@, i + 1));
                }
                i += 1;
            }
            proof {
                assert(word_end(s@, i as int) == i as int);
                assert(word_end(s@, j0) == i as int);
            }
            let word = vstd::slice::slice_to_vec(slice_subrange(s, start, i));
            let ghost ret_old = ret@;
            ret.push(word);
            proof {
                assert(ret@.map_values(|w: Vec<u8>| w@) =~= ret_old.map_values(|w: Vec<u8>| w@)
                    + seq![s@.subrange(j0, i as int)]);
                assert(words_from(s@, j0) == seq![s@.subrange(j0, word_end(s@, j0))] + words_from(
                    s@,
                    word_end(s@, j0),
                ));
                assert(words(s@) =~= ret@.map_values(|w: Vec<u8>| w@) + words_from(
                    s@,
                    i as int,
                ));
            }
        }
    }
    proof {
        assert(skip_spaces(s@, len as int) == len as int);
        assert(words_from(s@, len as int) =~= Seq::<Seq<u8>>::empty());
        assert(ret@.map_values(|w: Vec<u8>| w@) =~= ret@.map_values(|w: Vec<u8>| w@) + words_from(
            s@,
            len as int,
        ));
    }
    ret
}

/// Whether a byte separates command words.
pub fn is_space_byte(b: u8) -> (ret: bool)
    ensures
        ret == is_space(b),
{
    b == 32 || b == 9 || b == 10 || b == 13
}


/// The command word `get`.
pub open spec fn kw_get() -> Seq<u8> {
    seq![103u8, 101u8, 116u8]
}

/// The command word `put`.
pub open spec fn kw_put() -> Seq<u8> {
    seq![112u8, 117u8, 116u8]
}

/// The command word `scan`.
pub open spec fn kw_scan() -> Seq<u8> {
    seq![115u8, 99u8, 97u8, 110u8]
}

/// The command word `del`.
pub open spec fn kw_del() -> Seq<u8> {
    seq![100u8, 101u8, 108u8]
}

/// The command word `delete`.
pub open spec fn kw_delete() -> Seq<u8> {
    seq![100u8, 101u8, 108u8, 101u8, 116u8, 101u8]
}

/// The command word `close`.
pub open spec fn kw_close() -> Seq<u8> {
    seq![99u8, 108u8, 111u8, 115u8, 101u8]
}

/// Whether a word sequence forms an acceptable command line: a known
/// command word with its arity, keys of exactly [`KEY_SIZE`] bytes, and
/// a value of at most [`VALUE_SIZE`] bytes.
pub open spec fn command_wf(ts: Seq<Seq<u8>>) -> bool {
    ||| (ts.len() == 2 && ts[0] == kw_get() && ts[1].len() == KEY_SIZE)
    ||| (ts.len() == 3 && ts[0] == kw_put() && ts[1].len() == KEY_SIZE && ts[2].len()
        <= VALUE_SIZE)
    ||| (ts.len() == 3 && ts[0] == kw_scan() && ts[1].len() == KEY_SIZE && ts[2].len() == KEY_SIZE)
    ||| (ts.len() == 2 && (ts[0] == kw_del() || ts[0] == kw_delete()) && ts[1].len() == KEY_SIZE)
    ||| (ts.len() >= 1 && ts[0] == kw_close())
}

/// Whether a parsed word equals a command word.
fn word_eq(w: &Vec<u8>, kw: &[u8]) -> (ret: bool)
    ensures
        ret == (w@ == kw@),
{
    if w.len() != kw.len() {
        return false;
    }
    let len = w.len();
    let mut i: usize = 0;
    while i < len
        invariant
            i <= len,
            len == w@.len() == kw@.len(),
            forall|j: int| 0 <= j < i ==> w@[j] == kw@[j],
        decreases len - i,
    {
        if w[i] != kw[i] {
            return false;
        }
        i += 1;
    }
    proof {
        assert(w@ =~= kw@);
    }
    true
}

/// Accept a key argument of exactly [`KEY_SIZE`] bytes.
pub fn check_key_size(slice: &[u8]) -> (ret: Result<Key, ClientError>)
    ensures
        match ret {
            Ok(k) => slice@.len() == KEY_SIZE && k@ == slice@,
            Err(_) => slice@.len() != KEY_SIZE,
        },
{
    match Key::from_slice_checked(slice) {
        Some(k) => Ok(k),
        None => Err(ClientError::new("incorrect key size")),
    }
}

/// Accept a value argument of at most [`VALUE_SIZE`] bytes, padded on
/// the right with zero bytes to the full width.
pub fn check_value_size(slice: &[u8]) -> (ret: Result<Value, ClientError>)
    ensures
        match ret {
            Ok(v) => slice@.len() <= VALUE_SIZE && v@ == slice@ + Seq::new(
                (VALUE_SIZE - slice@.len()) as nat,
                |i: int| 0u8,
            ),
            Err(_) => slice@.len() > VALUE_SIZE,
        },
{
    let n = slice.len();
    if n > VALUE_SIZE {
        return Err(ClientError::new("incorrect value size"));
    }
    let mut data = [0u8; VALUE_SIZE];
    let mut i: usize = 0;
    while i < n
        invariant
            i <= n,
            n == slice@.len() <= VALUE_SIZE,
            forall|j: int| 0 <= j < i ==> data@[j] == slice@[j],
            forall|j: int| i <= j < VALUE_SIZE ==> data@[j] == 0u8,
        decreases n - i,
    {
        data[i] = slice[i];
        i += 1;
    }
    let v = Value { data };
    proof {
        assert(v@ =~= slice@ + Seq::new((VALUE_SIZE - slice@.len()) as nat, |i: int| 0u8));
    }
    Ok(v)
}

/// Parse one line typed at the prompt into a command: a command word,
/// then its arguments, separated by whitespace. Keys must be exactly
/// [`KEY_SIZE`] bytes; a put value of fewer than [`VALUE_SIZE`] bytes is
/// padded on the right with zero bytes, a longer one is rejected.
pub fn parse_command(command: &str) -> (ret: Result<Command, ClientError>)
    ensures
        ({
            let ts = words(command.spec_bytes());
            match ret {
                Ok(cmd) => match cmd {
                    Command::Get(k) => ts.len() == 2 && ts[0] == kw_get() && k@ == ts[1],
                    Command::Put(k, v) => ts.len() == 3 && ts[0] == kw_put() && k@ == ts[1]
                        && ts[2].len() <= VALUE_SIZE && v@ == ts[2] + Seq::new(
                        (VALUE_SIZE - ts[2].len()) as nat,
                        |i: int| 0u8,
                    ),
                    Command::Scan(k1, k2) => ts.len() == 3 && ts[0] == kw_scan() && k1@ == ts[1]
                        && k2@ == ts[2],
                    Command::Delete(k) => ts.len() == 2 && (ts[0] == kw_del() || ts[0]
                        == kw_delete()) && k@ == ts[1],
                    Command::Close => ts.len() >= 1 && ts[0] == kw_close(),
                },
                Err(_) => !command_wf(ts),
            }
        }),
{
    let tokens = split_words(command.as_bytes());
    let ghost ts = words(command.spec_bytes());
    proof {
        assert(forall|t: int|
            0 <= t < tokens@.len() ==> tokens@.map_values(|w: Vec<u8>| w@)[t] == tokens@[t]@);
    }
    if tokens.len() == 0 {
        return Err(ClientError::new("no command given!"));
    }
    let kw_get_b: [u8; 3] = [103, 101, 116];
    let kw_put_b: [u8; 3] = [112, 117, 116];
    let kw_scan_b: [u8; 4] = [115, 99, 97, 110];
    let kw_del_b: [u8; 3] = [100, 101, 108];
    let kw_delete_b: [u8; 6] = [100, 101, 108, 101, 116, 101];
    let kw_close_b: [u8; 5] = [99, 108, 111, 115, 101];
    proof {
        assert(kw_get_b@ =~= kw_get());
        assert(kw_put_b@ =~= kw_put());
        assert(kw_scan_b@ =~= kw_scan());
        assert(kw_del_b@ =~= kw_del());
        assert(kw_delete_b@ =~= kw_delete());
        assert(kw_close_b@ =~= kw_close());
        assert(kw_get()[0] == 103 && kw_put()[0] == 112 && kw_scan()[0] == 115 && kw_del()[0]
            == 100 && kw_delete()[0] == 100 && kw_close()[0] == 99);
        assert(kw_del().len() == 3 && kw_delete().len() == 6);
    }
    if word_eq(&tokens[0], kw_get_b.as_slice()) {
        if tokens.len() != 2 {
            return Err(ClientError::new("`get` requires exactly 1 argument"));
        }
        match check_key_size(tokens[1].as_slice()) {
            Ok(key) => Ok(Command::Get(key)),
            Err(e) => Err(e),
        }
    } else if word_eq(&tokens[0], kw_put_b.as_slice()) {
        if tokens.len() != 3 {
            return Err(ClientError::new("put requires exactly 2 arguments"));
        }
        match check_key_size(tokens[1].as_slice()) {
            Ok(key) => match check_value_size(tokens[2].as_slice()) {
                Ok(value) => Ok(Command::Put(key, value)),
                Err(e) => Err(e),
            },
            Err(e) => Err(e),
        }
    } else if word_eq(&tokens[0], kw_scan_b.as_slice()) {
        if tokens.len() != 3 {
            return Err(ClientError::new("scan requires exactly 2 arguments"));
        }
        match check_key_size(tokens[1].as_slice()) {
            Ok(key1) => match check_key_size(tokens[2].as_slice()) {
                Ok(key2) => Ok(Command::Scan(key1, key2)),
                Err(e) => Err(e),
            },
            Err(e) => Err(e),
        }
    } else if word_eq(&tokens[0], kw_del_b.as_slice()) || word_eq(
        &tokens[0],
        kw_delete_b.as_slice(),
    ) {
        if tokens.len() != 2 {
            return Err(ClientError::new("delete requires exactly 1 argument"));
        }
        match check_key_size(tokens[1].as_slice()) {
            Ok(key) => Ok(Command::Delete(key)),
            Err(e) => Err(e),
        }
    } else if word_eq(&tokens[0], kw_close_b.as_slice()) {
        Ok(Command::Close)
    } else {
        Err(ClientError::new("unknown command"))
    }
}

/// Read a `get` reply: the single optional value, or an error for any
/// other chunk kind.
pub fn interpret_get_reply(reply: ReplyChunk) -> (ret: Result<Option<Value>, ServerError>)
    ensures
        match reply {
            ReplyChunk::SingleValue(v) => ret == Ok::<Option<Value>, ServerError>(v),
            _ => ret is Err,
        },
{
    match reply {
        ReplyChunk::SingleValue(value) => Ok(value),
        _ => Err(ServerError::new("unexpected reply chunk kind")),
    }
}

/// Read a `put` reply: success exactly on a `Success` chunk.
pub fn interpret_put_reply(reply: ReplyChunk) -> (ret: Result<(), ServerError>)
    ensures
        (reply is Success) == (ret is Ok),
{
    match reply {
        ReplyChunk::Success => Ok(()),
        ReplyChunk::Error => Err(ServerError::new("error inserting kv pair")),
        _ => Err(ServerError::new("unexpected reply chunk kind")),
    }
}

/// Read a `delete` reply: the affected count, or an error for any other
/// chunk kind.
pub fn interpret_delete_reply(reply: ReplyChunk) -> (ret: Result<u64, ServerError>)
    ensures
        match reply {
            ReplyChunk::Number(n) => ret == Ok::<u64, ServerError>(n),
            _ => ret is Err,
        },
{
    match reply {
        ReplyChunk::Number(number) => Ok(number),
        ReplyChunk::Error => Err(ServerError::new("error deleting kv pair")),
        _ => Err(ServerError::new("unexpected reply chunk kind")),
    }
}

/// Read one non-empty `scan` reply chunk: its key-value pairs, or an
/// error for any other chunk kind.
pub fn interpret_scan_chunk(reply: ReplyChunk) -> (ret: Result<Vec<(Key, Value)>, ServerError>)
    ensures
        match reply {
            ReplyChunk::KVPairs(ps) => ret is Ok && ret->Ok_0@ == ps@,
            _ => ret is Err,
        },
{
    match reply {
        ReplyChunk::KVPairs(pairs) => Ok(pairs),
        _ => Err(ServerError::new("unexpected reply chunk kind")),
    }
}

} // verus!
