//! The cache router: a fixed ordered sequence of shards, with a byte-sum
//! hash that routes every key to one shard. Adds and reads are forwarded to
//! the addressed shard and touch no other, so operations on distinct shards
//! are independent.

use crate::stash::{add_rel, get_rel, Stash};
use vstd::prelude::*;
use vstd::string::*;
use vstd::utf8::encode_utf8;

verus! {

/// The longest key, in UTF-8 bytes, that the hash accepts: keeps the byte
/// and pair sums within `usize` on every machine.
pub const MAX_HASH_KEY_BYTES: usize = 0x40_0000;

/// Why a cache operation was refused.
#[derive(Clone, Copy, Debug, PartialEq, Eq)]
pub enum CacheError {
    /// The empty key: rejected before hashing.
    InvalidKey,
    /// A shard could not be entered; never produced by the router itself,
    /// only by callers that guard shards with real locks.
    ShardUnavailable,
}

/// The sum of all byte values of `b`.
pub open spec fn spec_byte_sum(b: Seq<u8>) -> nat
    decreases b.len(),
{
    if b.len() == 0 {
        0
    } else {
        (spec_byte_sum(b.drop_last()) + b.last()) as nat
    }
}

/// The absolute difference of two bytes.
pub open spec fn spec_abs_diff(x: u8, y: u8) -> nat {
    if x >= y {
        (x - y) as nat
    } else {
        (y - x) as nat
    }
}

/// The sum of absolute differences of every adjacent byte pair of `b`
/// (zero when fewer than two bytes exist).
pub open spec fn spec_pair_sum(b: Seq<u8>) -> nat
    decreases b.len(),
{
    if b.len() <= 1 {
        0
    } else {
        (spec_pair_sum(b.drop_last()) + spec_abs_diff(b[b.len() - 2], b.last())) as nat
    }
}

/// The routing hash: byte sum plus adjacent-pair difference sum. A pure
/// function of the key's bytes, so one key always hashes alike.
pub open spec fn spec_hash(b: Seq<u8>) -> nat {
    spec_byte_sum(b) + spec_pair_sum(b)
}

/// The shard a key routes to among `n` shards.
pub open spec fn spec_shard_index(b: Seq<u8>, n: nat) -> int
    recommends
        n > 0,
{
    spec_hash(b) as int % n as int
}

/// The byte sum never exceeds 255 per byte.
proof fn lemma_byte_sum_bound(b: Seq<u8>)
    ensures
        spec_byte_sum(b) <= 255 * b.len(),
    decreases b.len(),
{
    if b.len() > 0 {
        lemma_byte_sum_bound(b.drop_last());
    }
}

/// The pair sum never exceeds 255 per byte.
proof fn lemma_pair_sum_bound(b: Seq<u8>)
    ensures
        spec_pair_sum(b) <= 255 * b.len(),
    decreases b.len(),
{
    if b.len() > 1 {
        lemma_pair_sum_bound(b.drop_last());
    }
}

/// The absolute value of a (non-minimal) machine integer.
pub fn abs(num: i32) -> (r: usize)
    requires
        num != i32::MIN,
    ensures
        r as int == if num < 0 {
            -(num as int)
        } else {
            num as int
        },
{
    if num < 0 {
        (0 - num) as usize
    } else {
        num as usize
    }
}

/// The routing hash of a key: the sum of its byte values plus, for every
/// adjacent byte pair, the absolute value of their difference. Keys of
/// fewer than two bytes have no adjacent pair and contribute no pair sum.
pub fn hash(key: &str) -> (r: usize)
    requires
        key.spec_bytes().len() <= MAX_HASH_KEY_BYTES,
    ensures
        r as nat == spec_hash(key.spec_bytes()),
{
    let chars = key.as_bytes();
    let n = chars.len();
    let mut total: usize = 0;
    let mut i: usize = 0;
    while i < n
        invariant
            0 <= i <= n,
            n == chars@.len(),
            n <= MAX_HASH_KEY_BYTES,
            total == spec_byte_sum(chars@.take(i as int)),
            total <= 255 * i,
        decreases n - i,
    {
        proof {
            assert(chars@.take(i + 1).drop_last() =~= chars@.take(i as int));
            assert(chars@.take(i + 1).last() == chars@[i as int]);
        }
        total += chars[i] as usize;
        i += 1;
    }
    proof {
        assert(chars@.take(n as int) =~= chars@);
    }
    if n > 1 {
        let mut j: usize = 0;
        while j < n - 1
            invariant
                0 <= j <= n - 1,
                1 < n == chars@.len(),
                n <= MAX_HASH_KEY_BYTES,
                total == spec_byte_sum(chars@) + spec_pair_sum(chars@.take(j + 1)),
                total <= 255 * n + 255 * j,
            decreases n - j,
        {
            let d = chars[j] as i32 - chars[j + 1] as i32;
            let step = abs(d);
            proof {
                assert(chars@.take(j + 2).drop_last() =~= chars@.take(j + 1));
                assert(chars@.take(j + 2).last() == chars@[j + 1]);
                assert(chars@.take(j + 2)[j as int] == chars@[j as int]);
                assert(step as nat == spec_abs_diff(chars@[j as int], chars@[j + 1]));
                lemma_byte_sum_bound(chars@);
            }
            total += step;
            j += 1;
        }
        proof {
            assert(chars@.take(n as int) =~= chars@);
        }
    }
    proof {
        if n <= 1 {
            assert(spec_pair_sum(chars@) == 0);
        }
    }
    total
}

/// Law (shard determinism): the routing hash is a pure function of the
/// key's bytes, so any two results that `hash` may return for one key are
/// equal, and the routed shard index is likewise fixed.
pub proof fn lemma_shard_deterministic(r1: usize, r2: usize, b: Seq<u8>, n: nat)
    requires
        r1 as nat == spec_hash(b),
        r2 as nat == spec_hash(b),
        n > 0,
    ensures
        r1 == r2,
        r1 as int % n as int == spec_shard_index(b, n),
{
}

/// The sharded cache: a fixed ordered sequence of shards, each key always
/// routed to the same shard by `hash(key) % shard_count`.
pub struct MementoStash {
    stashes: Vec<Stash>,
}

impl MementoStash {
    /// How many shards the router owns: fixed at construction.
    pub closed spec fn shard_count(self) -> nat {
        self.stashes@.len()
    }

    /// The shard at index `i`.
    pub closed spec fn shard(self, i: int) -> Stash {
        self.stashes@[i]
    }

    /// Well-formed: at least one shard, and every shard well-formed.
    pub closed spec fn wf(self) -> bool {
        &&& self.stashes@.len() >= 1
        &&& forall|i: int| 0 <= i < self.stashes@.len() ==> (#[trigger] self.stashes@[i]).wf()
    }

    /// A router with `capacity` empty shards.
    pub fn new(capacity: usize) -> (r: Self)
        requires
            capacity >= 1,
        ensures
            r.wf(),
            r.shard_count() == capacity,
            forall|i: int|
                0 <= i < capacity ==> (#[trigger] r.shard(i)).counter() == 0 && forall|
                    k: Seq<char>,
                |
                    r.shard(i).lookup(k) is None,
    {
        let mut stashes: Vec<Stash> = Vec::with_capacity(capacity);
        let mut c: usize = 0;
        while c < capacity
            invariant
                0 <= c <= capacity,
                stashes@.len() == c,
                forall|i: int|
                    0 <= i < c ==> (#[trigger] stashes@[i]).wf() && stashes@[i].counter() == 0
                        && forall|k: Seq<char>| stashes@[i].lookup(k) is None,
            decreases capacity - c,
        {
            stashes.push(Stash::new());
            c += 1;
        }
        MementoStash { stashes }
    }

    /// Write a binding: reject the empty key, else forward to the addressed
    /// shard, which upserts and perhaps sweeps. No other shard changes.
    pub fn add(&mut self, key: String, value: String) -> (r: Result<(), CacheError>)
        requires
            old(self).wf(),
            encode_utf8(key@).len() <= MAX_HASH_KEY_BYTES,
        ensures
            final(self).wf(),
            final(self).shard_count() == old(self).shard_count(),
            match r {
                Ok(()) => {
                    let idx = spec_shard_index(encode_utf8(key@), old(self).shard_count());
                    &&& key@.len() != 0
                    &&& add_rel(old(self).shard(idx), final(self).shard(idx), key@, value@)
                    &&& forall|j: int|
                        0 <= j < old(self).shard_count() && j != idx ==> final(self).shard(j)
                            == old(self).shard(j)
                },
                Err(e) => {
                    &&& e == CacheError::InvalidKey
                    &&& key@.len() == 0
                    &&& *final(self) == *old(self)
                },
            },
    {
        if key.as_str().is_empty() {
            return Err(CacheError::InvalidKey);
        }
        let ghost pre = self.stashes@;
        let idx = hash(key.as_str()) % self.stashes.len();
        let mut shard = self.stashes.remove(idx);
        shard.add(key, value);
        self.stashes.insert(idx, shard);
        proof {
            assert(self.stashes@ =~= pre.update(idx as int, self.stashes@[idx as int]));
        }
        Ok(())
    }

    /// Read a binding: reject the empty key, else forward to the addressed
    /// shard, which refreshes the entry's age on a hit. No other shard
    /// changes, and an absent key yields `Ok(None)`, never an error.
    pub fn get(&mut self, key: String) -> (r: Result<Option<String>, CacheError>)
        requires
            old(self).wf(),
            encode_utf8(key@).len() <= MAX_HASH_KEY_BYTES,
        ensures
            final(self).wf(),
            final(self).shard_count() == old(self).shard_count(),
            match r {
                Ok(v) => {
                    let idx = spec_shard_index(encode_utf8(key@), old(self).shard_count());
                    let vm = match v {
                        Some(s) => Some(s@),
                        None => None,
                    };
                    &&& key@.len() != 0
                    &&& get_rel(old(self).shard(idx), final(self).shard(idx), key@, vm)
                    &&& forall|j: int|
                        0 <= j < old(self).shard_count() && j != idx ==> final(self).shard(j)
                            == old(self).shard(j)
                },
                Err(e) => {
                    &&& e == CacheError::InvalidKey
                    &&& key@.len() == 0
                    &&& *final(self) == *old(self)
                },
            },
    {
        if key.as_str().is_empty() {
            return Err(CacheError::InvalidKey);
        }
        let ghost pre = self.stashes@;
        let idx = hash(key.as_str()) % self.stashes.len();
        let mut shard = self.stashes.remove(idx);
        let data = shard.get(key);
        self.stashes.insert(idx, shard);
        proof {
            assert(self.stashes@ =~= pre.update(idx as int, self.stashes@[idx as int]));
        }
        Ok(data)
    }
}

/// Law (shard independence): two writes routed to distinct shards do not
/// interact — afterwards each addressed shard holds exactly the effect of
/// its own write, whichever order the writes ran in.
pub proof fn lemma_distinct_shards_independent(
    m0: MementoStash,
    m1: MementoStash,
    m2: MementoStash,
    i1: int,
    i2: int,
    k1: Seq<char>,
    v1: Seq<char>,
    k2: Seq<char>,
    v2: Seq<char>,
)
    requires
        m1.shard_count() == m0.shard_count(),
        m2.shard_count() == m0.shard_count(),
        i1 == spec_shard_index(encode_utf8(k1), m0.shard_count()),
        i2 == spec_shard_index(encode_utf8(k2), m0.shard_count()),
        0 <= i1 < m0.shard_count(),
        0 <= i2 < m0.shard_count(),
        i1 != i2,
        add_rel(m0.shard(i1), m1.shard(i1), k1, v1),
        forall|j: int|
            0 <= j < m0.shard_count() && j != i1 ==> #[trigger] m1.shard(j) == m0.shard(j),
        add_rel(m1.shard(i2), m2.shard(i2), k2, v2),
        forall|j: int|
            0 <= j < m0.shard_count() && j != i2 ==> #[trigger] m2.shard(j) == m1.shard(j),
    ensures
        add_rel(m0.shard(i1), m2.shard(i1), k1, v1),
        add_rel(m0.shard(i2), m2.shard(i2), k2, v2),
{
}

} // verus!
