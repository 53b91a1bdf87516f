//! Fixed-width keys and values, their byte codec, and the big-endian
//! numeric encoding that orders keys.

use vstd::arithmetic::div_mod::lemma_breakdown;
use vstd::arithmetic::div_mod::lemma_div_denominator;
use vstd::arithmetic::div_mod::lemma_small_mod;
use vstd::prelude::*;

pub mod disklog;

use crate::kvstorage::disklog::lemma_replay_acc_append;
use crate::kvstorage::disklog::lemma_replay_acc_step;
use crate::kvstorage::disklog::apply_msg;
use crate::kvstorage::disklog::replay_acc;
use crate::kvstorage::disklog::DiskLogReader;
use crate::kvstorage::disklog::msg_bytes;
use crate::kvstorage::disklog::replay;
use crate::kvstorage::disklog::DiskLogError;
use crate::kvstorage::disklog::DiskLogMessage;

verus! {

/// The numeric form of a key inside the index: its bytes read as one
/// big-endian unsigned 64-bit integer.
pub type InternKey = u64;

/// Width of a [`Key`] in bytes.
pub const KEY_SIZE: usize = 8;

/// A storage key: exactly [`KEY_SIZE`] opaque bytes, ordered
/// lexicographically (equivalently, by big-endian numeric value).
#[derive(Copy, Clone, Debug, PartialEq, Eq)]
pub struct Key {
    pub data: [u8; KEY_SIZE],
}

/// The big-endian numeric value of a byte sequence: the first byte is the
/// most significant digit in base 256.
pub open spec fn be_val(s: Seq<u8>) -> nat
    decreases s.len(),
{
    if s.len() == 0 {
        0
    } else {
        (be_val(s.drop_last()) * 256 + s.last()) as nat
    }
}

/// 256 raised to `n`: the number of distinct byte sequences of length `n`.
pub open spec fn pow256(n: nat) -> nat
    decreases n,
{
    if n == 0 {
        1
    } else {
        256 * pow256((n - 1) as nat)
    }
}

/// The value of a byte sequence is bounded by `pow256` of its length.
pub proof fn lemma_be_val_bound(s: Seq<u8>)
    ensures
        be_val(s) < pow256(s.len()),
    decreases s.len(),
{
    if s.len() > 0 {
        lemma_be_val_bound(s.drop_last());
    }
}

/// `pow256` grows with its exponent.
pub proof fn lemma_pow256_le(m: nat, n: nat)
    requires
        m <= n,
    ensures
        pow256(m) <= pow256(n),
    decreases n,
{
    if m < n {
        lemma_pow256_le(m, (n - 1) as nat);
        assert(pow256(n) == 256 * pow256((n - 1) as nat));
    }
}

/// Powers of 256 are positive.
pub proof fn lemma_pow256_pos(n: nat)
    ensures
        pow256(n) >= 1,
    decreases n,
{
    if n > 0 {
        lemma_pow256_pos((n - 1) as nat);
    }
}

/// The concrete values of the powers of 256 that bound a key's encoding.
pub proof fn lemma_pow256_key(n: nat)
    requires
        n <= 8,
    ensures
        pow256(n) <= 0x10000000000000000,
        n <= 7 ==> pow256(n) <= 0x100000000000000,
        n == 8 ==> pow256(n) == 0x10000000000000000,
{
    assert(pow256(0) == 1);
    assert(pow256(1) == 256 * pow256(0));
    assert(pow256(2) == 256 * pow256(1));
    assert(pow256(3) == 256 * pow256(2));
    assert(pow256(4) == 256 * pow256(3));
    assert(pow256(5) == 256 * pow256(4));
    assert(pow256(6) == 256 * pow256(5));
    assert(pow256(7) == 256 * pow256(6));
    assert(pow256(8) == 256 * pow256(7));
    if n <= 7 {
        lemma_pow256_le(n, 7);
    }
}

/// Prepending a byte adds its value at the most significant position.
pub proof fn lemma_be_val_prepend(b: u8, s: Seq<u8>)
    ensures
        be_val(seq![b] + s) == b * pow256(s.len()) + be_val(s),
    decreases s.len(),
{
    if s.len() == 0 {
        assert(seq![b] + s =~= seq![b]);
        assert((seq![b]).drop_last() =~= Seq::<u8>::empty());
        assert(be_val(Seq::<u8>::empty()) == 0);
        assert((seq![b]).last() == b);
        assert(be_val(seq![b]) == be_val((seq![b]).drop_last()) * 256 + b);
        assert(be_val(s) == 0);
        assert(pow256(0) == 1);
    } else {
        assert((seq![b] + s).drop_last() =~= seq![b] + s.drop_last());
        assert((seq![b] + s).last() == s.last());
        lemma_be_val_prepend(b, s.drop_last());
        assert(be_val(seq![b] + s) == (b * pow256((s.len() - 1) as nat) + be_val(s.drop_last()))
            * 256 + s.last()) by {
            assert(be_val(seq![b] + s) == be_val((seq![b] + s).drop_last()) * 256 + s.last());
        }
        assert((b * pow256((s.len() - 1) as nat)) * 256 == b * (256 * pow256(
            (s.len() - 1) as nat,
        ))) by (nonlinear_arith);
        assert(pow256(s.len()) == 256 * pow256((s.len() - 1) as nat));
        assert(be_val(s) == be_val(s.drop_last()) * 256 + s.last());
    }
}


/// The `len` base-256 digits of `n`, most significant first: the unique
/// big-endian byte encoding of `n % pow256(len)`.
pub open spec fn be_bytes(n: nat, len: nat) -> Seq<u8>
    decreases len,
{
    if len == 0 {
        Seq::empty()
    } else {
        be_bytes(n / 256, (len - 1) as nat).push((n % 256) as u8)
    }
}

/// `be_bytes` inverts `be_val`: the digits of `n` evaluate back to `n`
/// modulo the range of the width.
pub proof fn lemma_be_bytes_val(n: nat, len: nat)
    ensures
        be_bytes(n, len).len() == len,
        be_val(be_bytes(n, len)) == n % pow256(len),
    decreases len,
{
    lemma_pow256_pos(len);
    if len == 0 {
        assert(n % 1 == 0) by (nonlinear_arith);
    } else {
        lemma_be_bytes_val(n / 256, (len - 1) as nat);
        let s = be_bytes(n / 256, (len - 1) as nat);
        let b = (n % 256) as u8;
        assert(s.push(b).drop_last() =~= s);
        assert(s.push(b).last() == b);
        assert(be_val(s.push(b)) == be_val(s) * 256 + b);
        let p = pow256((len - 1) as nat) as int;
        lemma_pow256_pos((len - 1) as nat);
        lemma_breakdown(n as int, 256, p);
        assert(pow256(len) == 256 * pow256((len - 1) as nat));
        assert(256 * p == p * 256) by (nonlinear_arith);
        assert(((n as int) / 256 % p) * 256 == 256 * ((n as int) / 256 % p)) by (nonlinear_arith);
    }
}

/// Strict lexicographic order on byte sequences: the first differing
/// position decides, and a proper prefix comes first.
pub open spec fn lex_less(a: Seq<u8>, b: Seq<u8>) -> bool
    decreases a.len(),
{
    if b.len() == 0 {
        false
    } else if a.len() == 0 {
        true
    } else if a.first() < b.first() {
        true
    } else if a.first() > b.first() {
        false
    } else {
        lex_less(a.drop_first(), b.drop_first())
    }
}

/// For byte sequences of one length, lexicographic order coincides with
/// numeric order of the big-endian values.
pub proof fn lemma_be_val_order(a: Seq<u8>, b: Seq<u8>)
    requires
        a.len() == b.len(),
    ensures
        lex_less(a, b) <==> be_val(a) < be_val(b),
    decreases a.len(),
{
    if a.len() > 0 {
        let a1 = a.drop_first();
        let b1 = b.drop_first();
        assert(a =~= seq![a.first()] + a1);
        assert(b =~= seq![b.first()] + b1);
        lemma_be_val_prepend(a.first(), a1);
        lemma_be_val_prepend(b.first(), b1);
        lemma_be_val_bound(a1);
        lemma_be_val_bound(b1);
        let p = pow256(a1.len());
        if a.first() < b.first() {
            assert(a.first() * p + be_val(a1) < b.first() * p + be_val(b1)) by (nonlinear_arith)
                requires
                    a.first() < b.first(),
                    be_val(a1) < p,
            ;
        } else if a.first() > b.first() {
            assert(b.first() * p + be_val(b1) < a.first() * p + be_val(a1)) by (nonlinear_arith)
                requires
                    b.first() < a.first(),
                    be_val(b1) < p,
            ;
        } else {
            lemma_be_val_order(a1, b1);
        }
    }
}

/// A big-endian value determines its bytes: equal values of equal-length
/// sequences force equal sequences.
pub proof fn lemma_be_val_injective(a: Seq<u8>, b: Seq<u8>)
    requires
        a.len() == b.len(),
        be_val(a) == be_val(b),
    ensures
        a == b,
    decreases a.len(),
{
    if a.len() > 0 {
        assert(be_val(a) == be_val(a.drop_last()) * 256 + a.last());
        assert(be_val(b) == be_val(b.drop_last()) * 256 + b.last());
        assert(be_val(a.drop_last()) == be_val(b.drop_last()) && a.last() == b.last())
            by (nonlinear_arith)
            requires
                be_val(a.drop_last()) * 256 + a.last() == be_val(b.drop_last()) * 256 + b.last(),
                a.last() < 256,
                b.last() < 256,
        ;
        lemma_be_val_injective(a.drop_last(), b.drop_last());
        assert(a =~= a.drop_last().push(a.last()));
        assert(b =~= b.drop_last().push(b.last()));
    } else {
        assert(a =~= b);
    }
}

/// Key ordering law: keys compare lexicographically exactly as their
/// numeric encodings compare, so the index order is the byte order.
pub proof fn lemma_key_encode_order(k1: Key, k2: Key)
    ensures
        lex_less(k1@, k2@) <==> be_val(k1@) < be_val(k2@),
        be_val(k1@) == be_val(k2@) ==> k1@ == k2@,
{
    lemma_be_val_order(k1@, k2@);
    if be_val(k1@) == be_val(k2@) {
        lemma_be_val_injective(k1@, k2@);
    }
}

impl View for Key {
    type V = Seq<u8>;

    open spec fn view(&self) -> Seq<u8> {
        self.data@
    }
}

impl Key {
    /// Construct a key from a slice of exactly [`KEY_SIZE`] bytes.
    pub fn from_slice(slice: &[u8]) -> (ret: Self)
        requires
            slice@.len() == KEY_SIZE,
        ensures
            ret@ == slice@,
    {
        let mut data = [0u8; KEY_SIZE];
        let mut i: usize = 0;
        while i < KEY_SIZE
            invariant
                i <= KEY_SIZE,
                slice@.len() == KEY_SIZE,
                forall|j: int| 0 <= j < i ==> data@[j] == slice@[j],
            decreases KEY_SIZE - i,
        {
            data[i] = slice[i];
            i += 1;
        }
        proof {
            assert(data@ =~= slice@);
        }
        Key { data }
    }

    /// Construct a key from a slice, returning `None` when the slice is not
    /// exactly [`KEY_SIZE`] bytes long.
    pub fn from_slice_checked(slice: &[u8]) -> (ret: Option<Self>)
        ensures
            match ret {
                Some(k) => slice@.len() == KEY_SIZE && k@ == slice@,
                None => slice@.len() != KEY_SIZE,
            },
    {
        if slice.len() != KEY_SIZE {
            None
        } else {
            Some(Key::from_slice(slice))
        }
    }

    /// The numeric form of the key: its bytes read as a big-endian
    /// unsigned 64-bit integer.
    pub fn encode(&self) -> (ret: InternKey)
        ensures
            ret == be_val(self@),
    {
        Key::encode_raw(&self.data)
    }

    /// The numeric form of a raw byte array, as [`Key::encode`].
    pub fn encode_raw(raw: &[u8; KEY_SIZE]) -> (ret: InternKey)
        ensures
            ret == be_val(raw@),
    {
        let mut e: u64 = 0;
        let mut i: usize = 0;
        while i < KEY_SIZE
            invariant
                i <= KEY_SIZE,
                e == be_val(raw@.take(i as int)),
            decreases KEY_SIZE - i,
        {
            proof {
                lemma_be_val_bound(raw@.take(i as int));
                lemma_pow256_le(i as nat, 7);
                lemma_pow256_key(7);
                assert(raw@.take(i + 1).drop_last() =~= raw@.take(i as int));
                assert(raw@.take(i + 1).last() == raw@[i as int]);
            }
            e = e * 256 + (raw[i] as u64);
            i += 1;
        }
        proof {
            assert(raw@.take(KEY_SIZE as int) =~= raw@);
        }
        e
    }

    /// Reconstruct the key whose numeric form is `encoded`; inverse of
    /// [`Key::encode`].
    pub fn decode(encoded: InternKey) -> (ret: Self)
        ensures
            be_val(ret@) == encoded,
    {
        let mut data = [0u8; KEY_SIZE];
        let mut rem: u64 = encoded;
        let mut j: usize = 0;
        proof {
            assert(pow256(0) == 1);
            assert(encoded as nat / 1 == encoded as nat) by (nonlinear_arith);
            assert(encoded as nat % 1 == 0) by (nonlinear_arith);
            assert(data@.subrange(KEY_SIZE as int, KEY_SIZE as int).len() == 0);
            assert(be_val(data@.subrange(KEY_SIZE as int, KEY_SIZE as int)) == 0);
        }
        while j < KEY_SIZE
            invariant
                j <= KEY_SIZE,
                rem == encoded as nat / pow256(j as nat),
                be_val(data@.subrange(KEY_SIZE - j, KEY_SIZE as int)) == encoded as nat % pow256(
                    j as nat,
                ),
            decreases KEY_SIZE - j,
        {
            let idx = KEY_SIZE - 1 - j;
            let ghost old_data = data@;
            let b = (rem % 256) as u8;
            data[idx] = b;
            rem = rem / 256;
            proof {
                let n = encoded as int;
                let p = pow256(j as nat) as int;
                lemma_pow256_pos(j as nat);
                assert(p > 0);
                assert(data@.subrange(idx as int, KEY_SIZE as int) =~= seq![b]
                    + old_data.subrange(KEY_SIZE - j, KEY_SIZE as int));
                lemma_be_val_prepend(b, old_data.subrange(KEY_SIZE - j, KEY_SIZE as int));
                lemma_breakdown(n, p, 256);
                assert(pow256((j + 1) as nat) == 256 * pow256(j as nat));
                lemma_div_denominator(n, p, 256);
                let s_old = old_data.subrange(KEY_SIZE - j, KEY_SIZE as int);
                let s_new = data@.subrange(idx as int, KEY_SIZE as int);
                assert(s_old.len() == j);
                assert(b == (n / p) % 256);
                assert(be_val(s_new) == b * p + be_val(s_old));
                assert(n % (p * 256) == p * ((n / p) % 256) + n % p);
                assert(b * p == p * b) by (nonlinear_arith);
                assert(p * 256 == 256 * p) by (nonlinear_arith);
                assert(be_val(s_new) == n % (pow256((j + 1) as nat) as int));
                assert(rem == n / (p * 256));
            }
            j += 1;
        }
        proof {
            assert(data@.subrange(0, KEY_SIZE as int) =~= data@);
            lemma_pow256_key(8);
            lemma_small_mod(encoded as nat, pow256(8));
        }
        Key { data }
    }

    /// Compare two keys in the store's total order: big-endian
    /// lexicographic, equivalently numeric order of their encodings.
    pub fn compare(a: &Key, b: &Key) -> (ret: core::cmp::Ordering)
        ensures
            (ret == core::cmp::Ordering::Less) == lex_less(a@, b@),
            (ret == core::cmp::Ordering::Greater) == lex_less(b@, a@),
            (ret == core::cmp::Ordering::Equal) == (a@ == b@),
    {
        let ea = Key::encode_raw(&a.data);
        let eb = Key::encode_raw(&b.data);
        proof {
            lemma_key_encode_order(*a, *b);
            lemma_key_encode_order(*b, *a);
        }
        if ea < eb {
            core::cmp::Ordering::Less
        } else if ea == eb {
            core::cmp::Ordering::Equal
        } else {
            core::cmp::Ordering::Greater
        }
    }

    /// The identity byte sequence of the key.
    pub fn serialize(&self) -> (ret: Vec<u8>)
        ensures
            ret@ == self@,
    {
        let mut ret: Vec<u8> = Vec::new();
        let mut i: usize = 0;
        while i < KEY_SIZE
            invariant
                i <= KEY_SIZE,
                ret@ == self@.take(i as int),
            decreases KEY_SIZE - i,
        {
            ret.push(self.data[i]);
            proof {
                assert(self@.take(i + 1) =~= self@.take(i as int).push(self@[i as int]));
            }
            i += 1;
        }
        proof {
            assert(self@.take(KEY_SIZE as int) =~= self@);
        }
        ret
    }
}

/// Width of a [`Value`] in bytes.
pub const VALUE_SIZE: usize = 256;

/// A stored value: exactly [`VALUE_SIZE`] opaque bytes.
#[derive(Copy, Clone, Debug, PartialEq, Eq)]
pub struct Value {
    pub data: [u8; VALUE_SIZE],
}

impl View for Value {
    type V = Seq<u8>;

    open spec fn view(&self) -> Seq<u8> {
        self.data@
    }
}

impl Value {
    /// Construct a value from a slice of exactly [`VALUE_SIZE`] bytes.
    pub fn from_slice(slice: &[u8]) -> (ret: Self)
        requires
            slice@.len() == VALUE_SIZE,
        ensures
            ret@ == slice@,
    {
        let mut data = [0u8; VALUE_SIZE];
        let mut i: usize = 0;
        while i < VALUE_SIZE
            invariant
                i <= VALUE_SIZE,
                slice@.len() == VALUE_SIZE,
                forall|j: int| 0 <= j < i ==> data@[j] == slice@[j],
            decreases VALUE_SIZE - i,
        {
            data[i] = slice[i];
            i += 1;
        }
        proof {
            assert(data@ =~= slice@);
        }
        Value { data }
    }

    /// Construct a value from a slice, returning `None` when the slice is
    /// not exactly [`VALUE_SIZE`] bytes long.
    pub fn from_slice_checked(slice: &[u8]) -> (ret: Option<Self>)
        ensures
            match ret {
                Some(v) => slice@.len() == VALUE_SIZE && v@ == slice@,
                None => slice@.len() != VALUE_SIZE,
            },
    {
        if slice.len() != VALUE_SIZE {
            None
        } else {
            Some(Value::from_slice(slice))
        }
    }

    /// The identity byte sequence of the value.
    pub fn serialize(&self) -> (ret: Vec<u8>)
        ensures
            ret@ == self@,
    {
        let mut ret: Vec<u8> = Vec::new();
        let mut i: usize = 0;
        while i < VALUE_SIZE
            invariant
                i <= VALUE_SIZE,
                ret@ == self@.take(i as int),
            decreases VALUE_SIZE - i,
        {
            ret.push(self.data[i]);
            proof {
                assert(self@.take(i + 1) =~= self@.take(i as int).push(self@[i as int]));
            }
            i += 1;
        }
        proof {
            assert(self@.take(VALUE_SIZE as int) =~= self@);
        }
        ret
    }
}


/// An index entry: a numeric key bound to a present value or a tombstone.
pub type IndexEntry = (InternKey, Option<Value>);

/// Index entries are strictly ascending by key: ordered with no duplicates.
pub open spec fn sorted_entries(s: Seq<IndexEntry>) -> bool {
    forall|i: int, j: int| 0 <= i < j < s.len() ==> s[i].0 < s[j].0
}

/// The first entry for key `k`, if any: `None` when `k` is absent,
/// `Some(None)` for a tombstone, `Some(Some(v))` for a present value.
pub open spec fn entry_of(s: Seq<IndexEntry>, k: InternKey) -> Option<Option<Value>>
    decreases s.len(),
{
    if s.len() == 0 {
        None
    } else if s.first().0 == k {
        Some(s.first().1)
    } else {
        entry_of(s.drop_first(), k)
    }
}

/// Whether `k` holds a present value (not absent, not a tombstone).
pub open spec fn is_live(s: Seq<IndexEntry>, k: InternKey) -> bool {
    match entry_of(s, k) {
        Some(ov) => ov is Some,
        None => false,
    }
}

/// The bytes of the present value at `k`; meaningful only when
/// `is_live(s, k)`.
pub open spec fn live_val(s: Seq<IndexEntry>, k: InternKey) -> Seq<u8> {
    match entry_of(s, k) {
        Some(Some(v)) => v@,
        _ => Seq::empty(),
    }
}

/// The live contents of an index: every key with a present value bound
/// to its value bytes; tombstones and absent keys are outside the map.
pub open spec fn live_map(s: Seq<IndexEntry>) -> Map<InternKey, Seq<u8>> {
    Map::new(|k: InternKey| is_live(s, k), |k: InternKey| live_val(s, k))
}

/// In a sorted index, `entry_of` finds exactly the positions that hold `k`.
pub proof fn lemma_entry_of_index(s: Seq<IndexEntry>, k: InternKey)
    requires
        sorted_entries(s),
    ensures
        (entry_of(s, k) is Some) <==> exists|i: int| 0 <= i < s.len() && s[i].0 == k,
        forall|i: int| 0 <= i < s.len() && s[i].0 == k ==> entry_of(s, k) == Some(s[i].1),
    decreases s.len(),
{
    if s.len() > 0 {
        let t = s.drop_first();
        assert(sorted_entries(t)) by {
            assert(forall|i: int, j: int|
                0 <= i < j < t.len() ==> t[i].0 == s[i + 1].0 && t[j].0 == s[j + 1].0);
        }
        lemma_entry_of_index(t, k);
        if s.first().0 == k {
        } else {
            assert(forall|i: int| 0 <= i < t.len() ==> t[i] == s[i + 1]);
            assert forall|i: int| 0 <= i < s.len() && s[i].0 == k implies entry_of(s, k) == Some(
                s[i].1,
            ) by {
                assert(i > 0);
                assert(t[i - 1] == s[i]);
            }
            if exists|i: int| 0 <= i < s.len() && s[i].0 == k {
                let i = choose|i: int| 0 <= i < s.len() && s[i].0 == k;
                assert(t[i - 1].0 == k);
            }
        }
    }
}

/// Replacing the entry at a position (keeping its key) rewrites that key
/// alone in the index's lookup function.
pub proof fn lemma_entry_of_update(s: Seq<IndexEntry>, pos: int, e: IndexEntry, k: InternKey)
    requires
        sorted_entries(s),
        0 <= pos < s.len(),
        e.0 == s[pos].0,
    ensures
        entry_of(s.update(pos, e), k) == if k == e.0 {
            Some(e.1)
        } else {
            entry_of(s, k)
        },
    decreases s.len(),
{
    let u = s.update(pos, e);
    if pos == 0 {
        assert(u.first() == e);
        if k != e.0 {
            assert(u.drop_first() =~= s.drop_first());
        }
    } else {
        assert(u.first() == s.first());
        assert(s[pos].0 != s[0].0);
        let t = s.drop_first();
        assert(sorted_entries(t)) by {
            assert(forall|i: int, j: int|
                0 <= i < j < t.len() ==> t[i].0 == s[i + 1].0 && t[j].0 == s[j + 1].0);
        }
        assert(t[pos - 1] == s[pos]);
        lemma_entry_of_update(t, pos - 1, e, k);
        assert(u.drop_first() =~= t.update(pos - 1, e));
        if k == s.first().0 {
            assert(k != e.0);
        }
    }
}

/// Inserting an entry with a fresh key at its sorted position adds that
/// key alone to the index's lookup function.
pub proof fn lemma_entry_of_insert(s: Seq<IndexEntry>, pos: int, e: IndexEntry, k: InternKey)
    requires
        sorted_entries(s),
        0 <= pos <= s.len(),
        forall|i: int| 0 <= i < pos ==> s[i].0 < e.0,
        forall|i: int| pos <= i < s.len() ==> s[i].0 > e.0,
    ensures
        entry_of(s.insert(pos, e), k) == if k == e.0 {
            Some(e.1)
        } else {
            entry_of(s, k)
        },
    decreases s.len(),
{
    let u = s.insert(pos, e);
    if pos == 0 {
        assert(u.first() == e);
        if k != e.0 {
            assert(u.drop_first() =~= s);
        }
    } else {
        assert(u.first() == s.first());
        let t = s.drop_first();
        assert(sorted_entries(t)) by {
            assert(forall|i: int, j: int|
                0 <= i < j < t.len() ==> t[i].0 == s[i + 1].0 && t[j].0 == s[j + 1].0);
        }
        assert(forall|i: int| 0 <= i < t.len() ==> t[i] == s[i + 1]);
        lemma_entry_of_insert(t, pos - 1, e, k);
        assert(u.drop_first() =~= t.insert(pos - 1, e));
        if k == s.first().0 {
            assert(s[0].0 < e.0);
        }
    }
}

/// Removing the entry at a position erases its key alone from the index's
/// lookup function.
pub proof fn lemma_entry_of_remove(s: Seq<IndexEntry>, pos: int, k: InternKey)
    requires
        sorted_entries(s),
        0 <= pos < s.len(),
    ensures
        entry_of(s.remove(pos), k) == if k == s[pos].0 {
            None::<Option<Value>>
        } else {
            entry_of(s, k)
        },
    decreases s.len(),
{
    let u = s.remove(pos);
    let t = s.drop_first();
    assert(sorted_entries(t)) by {
        assert(forall|i: int, j: int|
            0 <= i < j < t.len() ==> t[i].0 == s[i + 1].0 && t[j].0 == s[j + 1].0);
    }
    if pos == 0 {
        assert(u =~= t);
        if k == s[0].0 {
            lemma_entry_of_index(s, k);
            lemma_entry_of_index(t, k);
            if exists|i: int| 0 <= i < t.len() && t[i].0 == k {
                let i = choose|i: int| 0 <= i < t.len() && t[i].0 == k;
                assert(s[i + 1].0 == s[0].0);
                assert(false);
            }
        }
    } else {
        assert(u.first() == s.first());
        assert(t[pos - 1] == s[pos]);
        lemma_entry_of_remove(t, pos - 1, k);
        assert(u.drop_first() =~= t.remove(pos - 1));
        if k == s.first().0 {
            assert(s[pos].0 != s[0].0);
        }
    }
}



/// The first position in a sorted index whose key is at least `ek`, or
/// the length when every key is smaller.
fn index_find_pos(index: &Vec<IndexEntry>, ek: InternKey) -> (pos: usize)
    requires
        sorted_entries(index@),
    ensures
        pos <= index@.len(),
        forall|j: int| 0 <= j < pos ==> index@[j].0 < ek,
        pos < index@.len() ==> index@[pos as int].0 >= ek,
{
    let mut pos: usize = 0;
    let len = index.len();
    while pos < len
        invariant
            pos <= len,
            len == index@.len(),
            sorted_entries(index@),
            forall|j: int| 0 <= j < pos ==> index@[j].0 < ek,
        decreases len - pos,
    {
        if index[pos].0 >= ek {
            return pos;
        }
        pos += 1;
    }
    pos
}

/// Bind `ek` to `ov` in a sorted index, replacing its entry or inserting
/// one at the sorted position.
fn index_upsert(index: &mut Vec<IndexEntry>, ek: InternKey, ov: Option<Value>)
    requires
        sorted_entries(old(index)@),
    ensures
        sorted_entries(final(index)@),
        forall|k: InternKey|
            entry_of(final(index)@, k) == if k == ek {
                Some(ov)
            } else {
                entry_of(old(index)@, k)
            },
        (ov is Some && forall|i: int| 0 <= i < old(index)@.len() ==> old(index)@[i].1 is Some)
            ==> forall|i: int| 0 <= i < final(index)@.len() ==> final(index)@[i].1 is Some,
{
    let ghost s_old = index@;
    let ghost e = (ek, ov);
    let pos = index_find_pos(index, ek);
    if pos < index.len() && index[pos].0 == ek {
        index[pos] = (ek, ov);
        proof {
            assert(index@ =~= s_old.update(pos as int, e));
            assert(sorted_entries(index@)) by {
                assert(forall|i: int| 0 <= i < s_old.len() ==> index@[i].0 == s_old[i].0);
            }
            assert forall|k: InternKey|
                entry_of(index@, k) == if k == ek {
                    Some(ov)
                } else {
                    entry_of(s_old, k)
                } by {
                lemma_entry_of_update(s_old, pos as int, e, k);
            }
        }
    } else {
        proof {
            assert(forall|i: int| pos <= i < s_old.len() ==> s_old[i].0 > ek);
        }
        index.insert(pos, (ek, ov));
        proof {
            assert(sorted_entries(index@)) by {
                assert(forall|i: int| 0 <= i < pos ==> index@[i] == s_old[i]);
                assert(forall|i: int| pos < i < index@.len() ==> index@[i] == s_old[i - 1]);
            }
            assert forall|k: InternKey|
                entry_of(index@, k) == if k == ek {
                    Some(ov)
                } else {
                    entry_of(s_old, k)
                } by {
                lemma_entry_of_insert(s_old, pos as int, e, k);
            }
        }
    }
}

/// Erase `ek` from a sorted index outright, if it is there.
fn index_remove_key(index: &mut Vec<IndexEntry>, ek: InternKey)
    requires
        sorted_entries(old(index)@),
    ensures
        sorted_entries(final(index)@),
        forall|k: InternKey|
            entry_of(final(index)@, k) == if k == ek {
                None::<Option<Value>>
            } else {
                entry_of(old(index)@, k)
            },
        (forall|i: int| 0 <= i < old(index)@.len() ==> old(index)@[i].1 is Some) ==> forall|
            i: int,
        | 0 <= i < final(index)@.len() ==> final(index)@[i].1 is Some,
{
    let ghost s_old = index@;
    let pos = index_find_pos(index, ek);
    if pos < index.len() && index[pos].0 == ek {
        index.remove(pos);
        proof {
            assert(index@ =~= s_old.remove(pos as int));
            assert(sorted_entries(index@)) by {
                assert(forall|i: int| 0 <= i < pos ==> index@[i] == s_old[i]);
                assert(forall|i: int| pos <= i < index@.len() ==> index@[i] == s_old[i + 1]);
            }
            assert forall|k: InternKey|
                entry_of(index@, k) == if k == ek {
                    None::<Option<Value>>
                } else {
                    entry_of(s_old, k)
                } by {
                lemma_entry_of_remove(s_old, pos as int, k);
            }
        }
    } else {
        proof {
            lemma_entry_of_index(s_old, ek);
            if exists|i: int| 0 <= i < s_old.len() && s_old[i].0 == ek {
                let i = choose|i: int| 0 <= i < s_old.len() && s_old[i].0 == ek;
                assert(false);
            }
        }
    }
}

/// The key-value engine: an ordered in-memory index over an append-only
/// log. Every mutation appends its record to the log before it touches
/// the index, so the log always replays to exactly the live contents.
#[derive(Debug)]
pub struct KVStorage {
    index: Vec<IndexEntry>,
    log: Vec<u8>,
}

impl KVStorage {
    /// The index entries, ascending by key.
    pub closed spec fn entries(self) -> Seq<IndexEntry> {
        self.index@
    }

    /// The full bytes of the log accumulated so far.
    pub closed spec fn log(self) -> Seq<u8> {
        self.log@
    }

    /// Whether `k` appears in the index at all, tombstone included.
    pub open spec fn known(self, k: InternKey) -> bool {
        entry_of(self.entries(), k) is Some
    }

    /// The live contents: every key with a present value, bound to its
    /// value bytes. Tombstones and absent keys are outside the map.
    pub open spec fn live(self) -> Map<InternKey, Seq<u8>> {
        live_map(self.entries())
    }

    /// Well-formedness: the index is strictly sorted and the log replays
    /// to exactly the live contents (crash consistency).
    pub open spec fn wf(self) -> bool {
        &&& sorted_entries(self.entries())
        &&& replay(self.log()) == Some(self.live())
    }

    /// A fresh engine over an empty log: nothing stored, nothing logged.
    pub fn new() -> (ret: Self)
        ensures
            ret.wf(),
            ret.log() == Seq::<u8>::empty(),
            ret.live() == Map::<InternKey, Seq<u8>>::empty(),
            forall|k: InternKey| !ret.known(k),
    {
        let ret = KVStorage { index: Vec::new(), log: Vec::new() };
        proof {
            assert(ret.log() =~= Seq::<u8>::empty());
            assert(ret.live() =~= Map::<InternKey, Seq<u8>>::empty());
            assert(replay(Seq::<u8>::empty())
                == Some(Map::<InternKey, Seq<u8>>::empty()));
        }
        ret
    }

    /// The bytes a caller must have appended to the backing file to keep
    /// it in step with this engine.
    pub fn log_bytes(&self) -> (ret: &Vec<u8>)
        ensures
            ret@ == self.log(),
    {
        &self.log
    }

    /// The first position whose key is at least `ek`, or the length when
    /// every key is smaller.
    fn find_pos(&self, ek: InternKey) -> (pos: usize)
        requires
            sorted_entries(self.entries()),
        ensures
            pos <= self.entries().len(),
            forall|j: int| 0 <= j < pos ==> self.entries()[j].0 < ek,
            pos < self.entries().len() ==> self.entries()[pos as int].0 >= ek,
    {
        index_find_pos(&self.index, ek)
    }


    /// Rebuild an engine from the bytes of an existing log: replay every
    /// record front to back — each `PUT` installs its key, each `DEL`
    /// removes the key outright, a `DEL` for an absent key is tolerated —
    /// then keep the same bytes as the log. Succeeds exactly on the logs
    /// that replay cleanly; an unknown tag or a trailing partial record
    /// is corrupt.
    pub fn from_existing_file(log: Vec<u8>) -> (ret: Result<Self, DiskLogError>)
        ensures
            match ret {
                Ok(e) => {
                    &&& e.wf()
                    &&& e.log() == log@
                    &&& replay(log@) == Some(e.live())
                    &&& forall|k: InternKey| e.known(k) <==> e.live().contains_key(k)
                },
                Err(_) => replay(log@) is None,
            },
    {
        let ghost orig = log@;
        let mut reader = DiskLogReader::new(log);
        proof {
            assert(reader.log() == orig);
        }
        let mut index: Vec<IndexEntry> = Vec::new();
        proof {
            assert(live_map(index@) =~= Map::<InternKey, Seq<u8>>::empty());
        }
        loop
            invariant
                reader.wf(),
                reader.log() == log@,
                sorted_entries(index@),
                forall|i: int| 0 <= i < index@.len() ==> index@[i].1 is Some,
                replay(log@) == replay_acc(reader.remaining(), live_map(index@)),
            ensures
                reader.wf(),
                reader.log() == log@,
                sorted_entries(index@),
                forall|i: int| 0 <= i < index@.len() ==> index@[i].1 is Some,
                replay(log@) == Some(live_map(index@)),
            decreases reader.remaining().len(),
        {
            let ghost rem_old = reader.remaining();
            let ghost acc_old = live_map(index@);
            match reader.next_log() {
                Ok(None) => {
                    break;
                },
                Ok(Some(msg)) => {
                    proof {
                        lemma_replay_acc_step(msg, reader.remaining(), acc_old);
                    }
                    match msg {
                        DiskLogMessage::Put(k, v) => {
                            let ek = k.encode();
                            index_upsert(&mut index, ek, Some(v));
                            proof {
                                lemma_be_val_bound(k@);
                                lemma_pow256_key(8);
                                assert(be_val(k@) as InternKey == ek);
                                assert(live_map(index@) =~= acc_old.insert(ek, v@));
                            }
                        },
                        DiskLogMessage::Delete(k) => {
                            let ek = k.encode();
                            index_remove_key(&mut index, ek);
                            proof {
                                lemma_be_val_bound(k@);
                                lemma_pow256_key(8);
                                assert(be_val(k@) as InternKey == ek);
                                assert(live_map(index@) =~= acc_old.remove(ek));
                            }
                        },
                    }
                },
                Err(e) => {
                    proof {
                        assert(replay_acc(rem_old, acc_old) is None);
                    }
                    return Err(e);
                },
            }
        }
        let engine = KVStorage { index, log: reader.into_log() };
        proof {
            assert(engine.live() == live_map(engine.entries()));
            lemma_entry_of_index(engine.entries(), 0);
            assert forall|k: InternKey| engine.known(k) <==> engine.live().contains_key(
                k,
            ) by {
                lemma_entry_of_index(engine.entries(), k);
                if entry_of(engine.entries(), k) is Some {
                    let i = choose|i: int|
                        0 <= i < engine.entries().len() && engine.entries()[i].0 == k;
                    assert(entry_of(engine.entries(), k) == Some(engine.entries()[i].1));
                    assert(engine.entries()[i].1 is Some);
                }
            }
        }
        Ok(engine)
    }


    /// All live pairs whose key lies in `[key1, key2)`, ascending by key:
    /// exactly the live entries of that range, in order, no duplicates,
    /// tombstones filtered out. A pure read over a snapshot of the index.
    pub fn scan(&self, key1: &Key, key2: &Key) -> (ret: Vec<(Key, Value)>)
        requires
            self.wf(),
        ensures
            scan_result_ok(*self, *key1, *key2, ret@),
    {
        let ek1 = key1.encode();
        let ek2 = key2.encode();
        let mut ret: Vec<(Key, Value)> = Vec::new();
        let len = self.index.len();
        let mut i: usize = 0;
        while i < len
            invariant
                i <= len,
                len == self.entries().len(),
                self.wf(),
                ek1 == be_val(key1@),
                ek2 == be_val(key2@),
                forall|a: int|
                    0 <= a < ret@.len() ==> {
                        &&& ek1 <= be_val(ret@[a].0@) < ek2
                        &&& is_live(self.entries(), be_val(ret@[a].0@) as InternKey)
                        &&& live_val(self.entries(), be_val(ret@[a].0@) as InternKey) == ret@[a].1@
                    },
                forall|a: int, j: int|
                    0 <= a < ret@.len() && i <= j < len ==> be_val(ret@[a].0@) < self.entries()[
                        j
                    ].0,
                forall|a: int, b: int|
                    0 <= a < b < ret@.len() ==> be_val(ret@[a].0@) < be_val(ret@[b].0@),
                forall|j: int|
                    0 <= j < i && ek1 <= self.entries()[j].0 < ek2 && self.entries()[j].1 is Some
                        ==> exists|a: int|
                        0 <= a < ret@.len() && be_val(ret@[a].0@) == self.entries()[j].0,
            decreases len - i,
        {
            let (k, ov) = self.index[i];
            if ek1 <= k && k < ek2 {
                if let Some(v) = ov {
                    let dk = Key::decode(k);
                    let ghost ret_old = ret@;
                    ret.push((dk, v));
                    proof {
                        lemma_entry_of_index(self.entries(), k);
                        assert(entry_of(self.entries(), k) == Some(self.entries()[i as int].1));
                        assert(be_val(dk@) as InternKey == k);
                        assert(forall|a: int|
                            0 <= a < ret_old.len() ==> ret@[a] == ret_old[a]);
                        assert(ret@[ret_old.len() as int] == (dk, v));
                        assert(forall|a: int|
                            0 <= a < ret_old.len() ==> be_val(ret_old[a].0@) < k);
                    }
                }
            }
            i += 1;
        }
        proof {
            assert forall|k: InternKey|
                ek1 <= k < ek2 && self.live().contains_key(k) implies exists|a: int|
                0 <= a < ret@.len() && be_val(ret@[a].0@) == k by {
                lemma_entry_of_index(self.entries(), k);
                assert(is_live(self.entries(), k));
                let j = choose|j: int|
                    0 <= j < self.entries().len() && self.entries()[j].0 == k;
                assert(entry_of(self.entries(), k) == Some(self.entries()[j].1));
                assert(self.entries()[j].1 is Some);
            }
        }
        ret
    }

    /// Look a key up: its present value, or `None` for a key that is
    /// absent or deleted. A pure read; the log is untouched.
    pub fn get(&self, key: &Key) -> (ret: Option<Value>)
        requires
            self.wf(),
        ensures
            match ret {
                Some(v) => self.live().contains_key(be_val(key@) as InternKey) && self.live()[
                    be_val(key@) as InternKey
                ] == v@,
                None => !self.live().contains_key(be_val(key@) as InternKey),
            },
    {
        let ek = key.encode();
        proof {
            lemma_be_val_bound(key@);
            lemma_pow256_key(8);
            lemma_entry_of_index(self.entries(), ek);
        }
        let len = self.index.len();
        let mut i: usize = 0;
        while i < len
            invariant
                i <= len,
                len == self.entries().len(),
                self.wf(),
                ek == be_val(key@),
                forall|j: int| 0 <= j < i ==> self.entries()[j].0 != ek,
            decreases len - i,
        {
            let (k, ov) = self.index[i];
            if k == ek {
                proof {
                    lemma_be_val_bound(key@);
                    lemma_pow256_key(8);
                    lemma_entry_of_index(self.entries(), ek);
                    assert(be_val(key@) as InternKey == ek);
                    assert(self.entries()[i as int].0 == ek);
                    assert(entry_of(self.entries(), ek) == Some(self.entries()[i as int].1));
                }
                return ov;
            }
            i += 1;
        }
        proof {
            lemma_be_val_bound(key@);
            lemma_pow256_key(8);
            lemma_entry_of_index(self.entries(), ek);
            if exists|j: int| 0 <= j < self.entries().len() && self.entries()[j].0 == ek {
                let j = choose|j: int| 0 <= j < self.entries().len() && self.entries()[j].0 == ek;
                assert(false);
            }
        }
        None
    }

    /// Store `value` under `key`: append a `PUT` record to the log, then
    /// install the value in the index. The log write precedes the index
    /// update, and the whole live contents change by exactly this one
    /// binding.
    pub fn put(&mut self, key: &Key, value: &Value) -> (ret: Result<(), DiskLogError>)
        requires
            old(self).wf(),
        ensures
            final(self).wf(),
            ret is Ok,
            final(self).log() == old(self).log() + msg_bytes(
                DiskLogMessage::Put(*key, *value),
            ),
            final(self).live() == old(self).live().insert(be_val(key@) as InternKey, value@),
            forall|k: InternKey|
                final(self).known(k) <==> (old(self).known(k) || k == be_val(key@) as InternKey),
    {
        let ek = key.encode();
        let msg = DiskLogMessage::Put(*key, *value);
        let mut rec = msg.serialize();
        proof {
            lemma_be_val_bound(key@);
            lemma_pow256_key(8);
            lemma_replay_acc_append(self.log@, msg, Map::empty());
        }
        self.log.append(&mut rec);
        index_upsert(&mut self.index, ek, Some(*value));
        proof {
            assert(be_val(key@) as InternKey == ek);
            assert(self.live() =~= old(self).live().insert(ek, value@));
        }
        Ok(())
    }

    /// Delete a key. A key the index does not know returns 0 and leaves
    /// both log and index untouched; a known key — present or already a
    /// tombstone — gets a `DEL` record appended and its slot turned into
    /// a tombstone, and returns 1.
    pub fn delete(&mut self, key: &Key) -> (ret: Result<usize, DiskLogError>)
        requires
            old(self).wf(),
        ensures
            final(self).wf(),
            ret is Ok,
            old(self).known(be_val(key@) as InternKey) ==> {
                &&& ret == Ok::<usize, DiskLogError>(1usize)
                &&& final(self).log() == old(self).log() + msg_bytes(
                    DiskLogMessage::Delete(*key),
                )
                &&& final(self).live() == old(self).live().remove(be_val(key@) as InternKey)
                &&& forall|k: InternKey| final(self).known(k) <==> old(self).known(k)
            },
            !old(self).known(be_val(key@) as InternKey) ==> ret == Ok::<usize, DiskLogError>(
                0usize,
            ) && *final(self) == *old(self),
    {
        let ek = key.encode();
        proof {
            lemma_be_val_bound(key@);
            lemma_pow256_key(8);
            assert(be_val(key@) as InternKey == ek);
            lemma_entry_of_index(self.entries(), ek);
        }
        let pos = self.find_pos(ek);
        if pos < self.index.len() && self.index[pos].0 == ek {
            let msg = DiskLogMessage::Delete(*key);
            let mut rec = msg.serialize();
            proof {
                lemma_replay_acc_append(self.log@, msg, Map::empty());
            }
            self.log.append(&mut rec);
            index_upsert(&mut self.index, ek, None);
            proof {
                assert(self.live() =~= old(self).live().remove(ek));
            }
            Ok(1)
        } else {
            proof {
                if exists|i: int| 0 <= i < self.entries().len() && self.entries()[i].0 == ek {
                    let i = choose|i: int|
                        0 <= i < self.entries().len() && self.entries()[i].0 == ek;
                    assert(false);
                }
            }
            Ok(0)
        }
    }
}



/// What a scan of `[key1, key2)` must return of engine `s`: exactly its
/// live entries of that range, ascending by key, no duplicates, no
/// tombstones, each paired with its stored value.
pub open spec fn scan_result_ok(s: KVStorage, key1: Key, key2: Key, ps: Seq<(Key, Value)>) -> bool {
    &&& forall|a: int|
        0 <= a < ps.len() ==> {
            &&& be_val(key1@) <= be_val(ps[a].0@) < be_val(key2@)
            &&& s.live().contains_key(be_val(ps[a].0@) as InternKey)
            &&& s.live()[be_val(ps[a].0@) as InternKey] == ps[a].1@
        }
    &&& forall|a: int, b: int| 0 <= a < b < ps.len() ==> be_val(ps[a].0@) < be_val(ps[b].0@)
    &&& forall|k: InternKey|
        be_val(key1@) <= k < be_val(key2@) && s.live().contains_key(k) ==> exists|a: int|
            0 <= a < ps.len() && be_val(ps[a].0@) == k
}

/// Get-after-put law: once `put(key, value)` has updated the live
/// contents, `key` reads back exactly `value`, and every other key is
/// untouched — so the read stays `value` until a later `put` or `delete`
/// of this same key changes the live contents at `key` again.
pub proof fn lemma_get_after_put(pre: KVStorage, post: KVStorage, key: Key, value: Value)
    requires
        post.live() == pre.live().insert(be_val(key@) as InternKey, value@),
    ensures
        post.live().contains_key(be_val(key@) as InternKey),
        post.live()[be_val(key@) as InternKey] == value@,
        forall|k: InternKey|
            k != be_val(key@) as InternKey ==> (post.live().contains_key(k)
                <==> pre.live().contains_key(k)) && (pre.live().contains_key(k)
                ==> post.live()[k] == pre.live()[k]),
{
}

/// Delete-then-get law: once `delete(key)` has removed `key` from the
/// live contents, a `get` of `key` finds nothing. The key stays in the
/// index as a tombstone, so a repeated `delete` still reports one
/// affected entry.
pub proof fn lemma_delete_then_get(pre: KVStorage, post: KVStorage, key: Key)
    requires
        pre.known(be_val(key@) as InternKey),
        post.live() == pre.live().remove(be_val(key@) as InternKey),
        forall|k: InternKey| post.known(k) <==> pre.known(k),
    ensures
        !post.live().contains_key(be_val(key@) as InternKey),
        post.known(be_val(key@) as InternKey),
        forall|k: InternKey|
            k != be_val(key@) as InternKey ==> (post.live().contains_key(k)
                <==> pre.live().contains_key(k)) && (pre.live().contains_key(k)
                ==> post.live()[k] == pre.live()[k]),
{
}

/// Log monotonicity law: a mutation only ever appends, so the log bytes
/// before it remain a prefix of the log bytes after it.
pub proof fn lemma_log_monotone(pre: KVStorage, post: KVStorage, rec: Seq<u8>)
    requires
        post.log() == pre.log() + rec,
    ensures
        pre.log().len() <= post.log().len(),
        post.log().subrange(0, pre.log().len() as int) == pre.log(),
        pre.log().is_prefix_of(post.log()),
{
    assert(post.log().subrange(0, pre.log().len() as int) =~= pre.log());
}

/// Recovery equivalence law: two well-formed engines over the same log
/// bytes hold the same live contents; in particular an engine recovered
/// from the log of a dropped engine reads back exactly what the dropped
/// engine held.
pub proof fn lemma_recovery_equivalence(e: KVStorage, r: KVStorage)
    requires
        e.wf(),
        r.wf(),
        r.log() == e.log(),
    ensures
        r.live() == e.live(),
{
}

} // verus!
