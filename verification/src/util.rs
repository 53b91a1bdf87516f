//! Key and value generation helpers: numbered keys for ordered data
//! sets, and randomly filled keys and values for exercising the store.
//! Nothing is promised of the random bytes — not even a distribution —
//! so nothing downstream may depend on what they are.

use crate::kvstorage::be_val;
use crate::kvstorage::Key;
use crate::kvstorage::Value;
use crate::kvstorage::KEY_SIZE;
use crate::kvstorage::VALUE_SIZE;
use vstd::prelude::*;

verus! {

/// Relies on rand::random: draws one value from the thread-local
/// generator. Nothing can be promised of the result.
pub assume_specification<T>[ rand::random::<T> ]() -> (r: T)
    where
        rand::distr::StandardUniform: rand::distr::Distribution<T>,
;

/// A key of [`KEY_SIZE`] random bytes.
pub fn gen_key() -> (ret: Key) {
    let mut data = [0u8; KEY_SIZE];
    let mut i: usize = 0;
    while i < KEY_SIZE
        invariant
            i <= KEY_SIZE,
        decreases KEY_SIZE - i,
    {
        data[i] = rand::random::<u8>();
        i += 1;
    }
    Key { data }
}

/// The key whose big-endian numeric form is `n`.
pub fn gen_key_n(n: u64) -> (ret: Key)
    ensures
        be_val(ret@) == n,
{
    Key::decode(n)
}

/// A value of [`VALUE_SIZE`] random bytes.
pub fn gen_value() -> (ret: Value) {
    let mut data = [0u8; VALUE_SIZE];
    let mut i: usize = 0;
    while i < VALUE_SIZE
        invariant
            i <= VALUE_SIZE,
        decreases VALUE_SIZE - i,
    {
        data[i] = rand::random::<u8>();
        i += 1;
    }
    Value { data }
}

} // verus!
