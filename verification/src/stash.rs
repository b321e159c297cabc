//! One cache shard: a key-to-entry table with a write counter and a
//! generational aging sweep. An entry's age counts the sweeps since it was
//! last created or read; the fifth write to the shard triggers a sweep, and
//! a sweep evicts every entry whose incremented age reaches five.

use vstd::pervasive::VecAdditionalExecFns;
use vstd::prelude::*;

verus! {

/// How many writes to a shard trigger an aging sweep, and the age at which
/// a sweep evicts an entry.
pub const GENERATIONS: usize = 5;

/// One cached value together with its age: the number of sweeps that have
/// passed since the entry was last created or read.
#[derive(Clone, Debug)]
pub struct ItemShard {
    data: String,
    age: usize,
}

/// One cache shard: a table of bindings (keys unique) and the count of
/// writes since the last sweep.
#[derive(Debug)]
pub struct Stash {
    stash: Vec<(String, ItemShard)>,
    iter: usize,
}

/// First-match lookup in a sequence of bindings, as (value, age).
spec fn lookup_seq(s: Seq<(String, ItemShard)>, k: Seq<char>) -> Option<(Seq<char>, nat)>
    decreases s.len(),
{
    if s.len() == 0 {
        None
    } else if s[0].0@ == k {
        Some((s[0].1.data@, s[0].1.age as nat))
    } else {
        lookup_seq(s.drop_first(), k)
    }
}

/// How one write relates a shard's state after [`Stash::add`] to its state
/// before: the key is freshly bound, and when the write is the fifth since
/// the last sweep, a sweep ages every binding (the fresh one to one) and
/// the counter resets.
pub open spec fn add_rel(pre: Stash, post: Stash, key: Seq<char>, value: Seq<char>) -> bool {
    let fresh = Some((value, 0nat));
    if pre.counter() + 1 >= GENERATIONS {
        &&& post.counter() == 0
        &&& post.lookup(key) == sweep_entry(fresh)
        &&& forall|k2: Seq<char>| k2 != key ==> post.lookup(k2) == sweep_entry(pre.lookup(k2))
    } else {
        &&& post.counter() == pre.counter() + 1
        &&& post.lookup(key) == fresh
        &&& forall|k2: Seq<char>| k2 != key ==> post.lookup(k2) == pre.lookup(k2)
    }
}

/// How one read relates a shard's state after [`Stash::get`] to its state
/// before: a hit returns the bound value and resets its age to zero; a miss
/// returns nothing and changes nothing. Reads never advance the counter.
pub open spec fn get_rel(pre: Stash, post: Stash, key: Seq<char>, r: Option<Seq<char>>) -> bool {
    &&& post.counter() == pre.counter()
    &&& match pre.lookup(key) {
        Some(e) => {
            &&& r == Some(e.0)
            &&& post.lookup(key) == Some((e.0, 0nat))
            &&& forall|k2: Seq<char>| k2 != key ==> post.lookup(k2) == pre.lookup(k2)
        },
        None => r is None && post == pre,
    }
}

/// What one sweep does to one binding: age it by one, evicting it when the
/// incremented age reaches five.
pub open spec fn sweep_entry(e: Option<(Seq<char>, nat)>) -> Option<(Seq<char>, nat)> {
    match e {
        Some((v, a)) => if a + 1 < GENERATIONS { Some((v, (a + 1) as nat)) } else { None },
        None => None,
    }
}

impl Stash {
    /// The binding for `k`, as (value chars, age), if one is present.
    pub closed spec fn lookup(self, k: Seq<char>) -> Option<(Seq<char>, nat)> {
        lookup_seq(self.stash@, k)
    }

    /// Writes to this shard since the last sweep.
    pub closed spec fn counter(self) -> nat {
        self.iter as nat
    }

    /// The table itself is well-formed: keys unique and every age below
    /// the eviction bound.
    spec fn entries_wf(self) -> bool {
        &&& forall|i: int, j: int|
            0 <= i < j < self.stash@.len() ==> self.stash@[i].0@ != self.stash@[j].0@
        &&& forall|i: int| 0 <= i < self.stash@.len() ==> (#[trigger] self.stash@[i]).1.age
            < GENERATIONS
    }

    /// Well-formed: the table is well-formed and the write counter stands
    /// below the sweep bound.
    pub closed spec fn wf(self) -> bool {
        &&& self.iter < GENERATIONS
        &&& self.entries_wf()
    }
}

/// Looking a key up skips any prefix in which it does not occur.
proof fn lemma_lookup_skip(s: Seq<(String, ItemShard)>, k: Seq<char>, i: int)
    requires
        0 <= i <= s.len(),
        forall|j: int| 0 <= j < i ==> s[j].0@ != k,
    ensures
        lookup_seq(s, k) == lookup_seq(s.skip(i), k),
    decreases i,
{
    if i == 0 {
        assert(s.skip(0) =~= s);
    } else {
        assert(s[0].0@ != k);
        assert(s.drop_first() =~= s.skip(1));
        lemma_lookup_skip(s.skip(1), k, i - 1);
        assert(s.skip(1).skip(i - 1) =~= s.skip(i));
    }
}

/// Looking a key up after a push: the pushed binding is found only when the
/// key was absent and matches it.
proof fn lemma_lookup_push(s: Seq<(String, ItemShard)>, e: (String, ItemShard), k: Seq<char>)
    ensures
        lookup_seq(s.push(e), k) == match lookup_seq(s, k) {
            Some(x) => Some(x),
            None => if e.0@ == k {
                Some((e.1.data@, e.1.age as nat))
            } else {
                None
            },
        },
    decreases s.len(),
{
    if s.len() == 0 {
        assert(s.push(e)[0] == e);
        if e.0@ != k {
            assert(s.push(e).drop_first() =~= s);
        }
    } else {
        assert(s.push(e)[0] == s[0]);
        assert(s.push(e).drop_first() =~= s.drop_first().push(e));
        lemma_lookup_push(s.drop_first(), e, k);
    }
}

/// Two binding sequences that differ only in one binding's value and age,
/// not its key, look up alike for every other key.
proof fn lemma_lookup_update_other(
    s: Seq<(String, ItemShard)>,
    t: Seq<(String, ItemShard)>,
    i: int,
    k: Seq<char>,
    k2: Seq<char>,
)
    requires
        s.len() == t.len(),
        0 <= i < s.len(),
        forall|j: int| 0 <= j < s.len() && j != i ==> s[j] == t[j],
        s[i].0@ == k,
        t[i].0@ == k,
        k2 != k,
    ensures
        lookup_seq(s, k2) == lookup_seq(t, k2),
    decreases s.len(),
{
    if i == 0 {
        assert(s.drop_first() =~= t.drop_first());
    } else {
        assert(s[0] == t[0]);
        assert(s.drop_first().len() == t.drop_first().len());
        lemma_lookup_update_other(s.drop_first(), t.drop_first(), i - 1, k, k2);
    }
}

/// A present key occurs at some index.
proof fn lemma_lookup_some_has_index(s: Seq<(String, ItemShard)>, k: Seq<char>)
    requires
        lookup_seq(s, k) is Some,
    ensures
        exists|j: int| 0 <= j < s.len() && (#[trigger] s[j]).0@ == k,
    decreases s.len(),
{
    if s.len() > 0 && s[0].0@ != k {
        lemma_lookup_some_has_index(s.drop_first(), k);
        let j = choose|j: int|
            0 <= j < s.drop_first().len() && (#[trigger] s.drop_first()[j]).0@ == k;
        assert(s[j + 1].0@ == k);
    }
}

impl Stash {
    /// A new shard: no bindings, write counter zero.
    pub fn new() -> (r: Self)
        ensures
            r.wf(),
            r.counter() == 0,
            forall|k: Seq<char>| r.lookup(k) is None,
    {
        Stash { stash: Vec::new(), iter: 0 }
    }

    /// Upsert: bind `key` to `value` with age zero, replacing any previous
    /// binding. Counts as one write; the fifth write since the last sweep
    /// triggers a sweep (which ages the fresh binding to one) and resets the
    /// counter.
    pub fn add(&mut self, key: String, value: String)
        requires
            old(self).wf(),
        ensures
            final(self).wf(),
            add_rel(*old(self), *final(self), key@, value@),
    {
        let new_item = ItemShard { data: value, age: 0 };
        let ghost s0 = self.stash@;
        let n = self.stash.len();
        let mut i: usize = 0;
        let mut found = false;
        while i < n && !found
            invariant
                0 <= i <= n,
                n == self.stash@.len(),
                *self == *old(self),
                !found ==> forall|j: int| 0 <= j < i ==> self.stash@[j].0@ != key@,
                found ==> i < n && self.stash@[i as int].0@ == key@,
            decreases n - i + (if found { 0int } else { 1int }),
        {
            if self.stash[i].0 == key {
                found = true;
            } else {
                i += 1;
            }
        }
        if found {
            self.stash.set(i, (key, new_item));
            proof {
                let s1 = self.stash@;
                lemma_lookup_skip(s1, s0[i as int].0@, i as int);
                assert(s1.skip(i as int)[0] == s1[i as int]);
                assert(lookup_seq(s1, s0[i as int].0@) == Some((value@, 0nat)));
                assert(forall|k2: Seq<char>| k2 != s0[i as int].0@ ==> lookup_seq(s1, k2)
                    == lookup_seq(s0, k2)) by {
                    assert forall|k2: Seq<char>| k2 != s0[i as int].0@ implies lookup_seq(s1, k2)
                        == lookup_seq(s0, k2) by {
                        lemma_lookup_update_other(s0, s1, i as int, s0[i as int].0@, k2);
                    }
                }
            }
        } else {
            proof {
                assert(forall|j: int| 0 <= j < s0.len() ==> s0[j].0@ != key@);
            }
            self.stash.push((key, new_item));
            proof {
                let s1 = self.stash@;
                assert forall|k2: Seq<char>| #[trigger] lookup_seq(s1, k2) == (match lookup_seq(
                    s0,
                    k2,
                ) {
                    Some(x) => Some(x),
                    None => if s1.last().0@ == k2 {
                        Some((value@, 0nat))
                    } else {
                        None
                    },
                }) by {
                    lemma_lookup_push(s0, s1.last(), k2);
                }
                lemma_lookup_skip(s0, s1.last().0@, s0.len() as int);
            }
        }
        proof {
            if found {
                assert(s0[i as int].0@ == key@);
            }
        }
        self.iter += 1;
        let ghost mid = *self;
        if self.iter >= GENERATIONS {
            self.add_age();
            self.iter = 0;
            proof {
                assert(self.lookup(key@) == sweep_entry(mid.lookup(key@)));
                assert(mid.lookup(key@) == Some((value@, 0nat)));
                assert forall|k2: Seq<char>| k2 != key@ implies self.lookup(k2) == sweep_entry(
                    old(self).lookup(k2),
                ) by {
                    assert(self.lookup(k2) == sweep_entry(mid.lookup(k2)));
                    assert(mid.lookup(k2) == old(self).lookup(k2));
                }
            }
        }
    }

    /// Read: on a hit, reset the entry's age to zero and return a copy of
    /// its value; on a miss, return nothing and change nothing. Reads never
    /// advance the write counter.
    pub fn get(&mut self, key: String) -> (r: Option<String>)
        requires
            old(self).wf(),
        ensures
            final(self).wf(),
            get_rel(
                *old(self),
                *final(self),
                key@,
                match r {
                    Some(v) => Some(v@),
                    None => None,
                },
            ),
    {
        let ghost s0 = self.stash@;
        let n = self.stash.len();
        let mut i: usize = 0;
        while i < n
            invariant
                0 <= i <= n,
                n == self.stash@.len(),
                *self == *old(self),
                s0 == self.stash@,
                old(self).wf(),
                forall|j: int| 0 <= j < i ==> self.stash@[j].0@ != key@,
            decreases n - i,
        {
            if self.stash[i].0 == key {
                let data = self.stash[i].1.data.clone();
                let refreshed = ItemShard { data: self.stash[i].1.data.clone(), age: 0 };
                self.stash.set(i, (self.stash[i].0.clone(), refreshed));
                proof {
                    let s1 = self.stash@;
                    lemma_lookup_skip(s0, key@, i as int);
                    assert(s0.skip(i as int)[0] == s0[i as int]);
                    lemma_lookup_skip(s1, key@, i as int);
                    assert(s1.skip(i as int)[0] == s1[i as int]);
                    assert forall|k2: Seq<char>| k2 != key@ implies lookup_seq(s1, k2)
                        == lookup_seq(s0, k2) by {
                        lemma_lookup_update_other(s0, s1, i as int, key@, k2);
                    }
                }
                return Some(data);
            }
            i += 1;
        }
        proof {
            lemma_lookup_skip(s0, key@, n as int);
        }
        None
    }

    /// The aging sweep: age every binding by one and evict those whose age
    /// reaches five. Leaves the write counter alone.
    fn add_age(&mut self)
        requires
            old(self).entries_wf(),
        ensures
            final(self).entries_wf(),
            final(self).counter() == old(self).counter(),
            forall|k: Seq<char>|
                final(self).lookup(k) == sweep_entry(#[trigger] old(self).lookup(k)),
    {
        let ghost s0 = self.stash@;
        let n = self.stash.len();
        let mut swept: Vec<(String, ItemShard)> = Vec::new();
        let mut i: usize = 0;
        while i < n
            invariant
                0 <= i <= n,
                n == s0.len(),
                self.stash@ == s0,
                old(self).entries_wf(),
                s0 == old(self).stash@,
                self.iter == old(self).iter,
                forall|a: int, b: int|
                    0 <= a < b < swept@.len() ==> swept@[a].0@ != swept@[b].0@,
                forall|a: int| 0 <= a < swept@.len() ==> (#[trigger] swept@[a]).1.age
                    < GENERATIONS,
                forall|a: int|
                    0 <= a < swept@.len() ==> exists|j: int|
                        0 <= j < i && s0[j].0 == (#[trigger] swept@[a]).0,
                forall|k: Seq<char>|
                    #[trigger] lookup_seq(swept@, k) == sweep_entry(lookup_seq(s0.take(i as int), k)),
            decreases n - i,
        {
            let age = self.stash[i].1.age;
            let ghost swept_before = swept@;
            if age + 1 < GENERATIONS {
                let k = self.stash[i].0.clone();
                let d = self.stash[i].1.data.clone();
                swept.push((k, ItemShard { data: d, age: age + 1 }));
                proof {
                    let e = swept@.last();
                    assert(e.0@ == s0[i as int].0@);
                    assert forall|a: int| 0 <= a < swept_before.len() implies swept_before[a].0@
                        != e.0@ by {
                        let j = choose|j: int|
                            0 <= j < i && s0[j].0 == (#[trigger] swept_before[a]).0;
                        assert(s0[j].0@ != s0[i as int].0@);
                    }
                    assert forall|k2: Seq<char>| #[trigger] lookup_seq(swept@, k2)
                        == sweep_entry(lookup_seq(s0.take(i + 1), k2)) by {
                        lemma_lookup_push(swept_before, e, k2);
                        lemma_lookup_push(s0.take(i as int), s0[i as int], k2);
                        assert(s0.take(i as int).push(s0[i as int]) =~= s0.take(i + 1));
                        if e.0@ == k2 && lookup_seq(s0.take(i as int), k2) is Some {
                            lemma_lookup_some_has_index(s0.take(i as int), k2);
                            let j = choose|j: int|
                                0 <= j < s0.take(i as int).len() && (#[trigger] s0.take(
                                    i as int,
                                )[j]).0@ == k2;
                            assert(s0.take(i as int)[j] == s0[j]);
                            assert(s0[j].0@ != s0[i as int].0@);
                        }
                    }
                }
            } else {
                proof {
                    assert forall|k2: Seq<char>| #[trigger] lookup_seq(swept@, k2)
                        == sweep_entry(lookup_seq(s0.take(i + 1), k2)) by {
                        lemma_lookup_push(s0.take(i as int), s0[i as int], k2);
                        assert(s0.take(i as int).push(s0[i as int]) =~= s0.take(i + 1));
                        if s0[i as int].0@ == k2 && lookup_seq(s0.take(i as int), k2) is Some {
                            lemma_lookup_some_has_index(s0.take(i as int), k2);
                            let j = choose|j: int|
                                0 <= j < s0.take(i as int).len() && (#[trigger] s0.take(
                                    i as int,
                                )[j]).0@ == k2;
                            assert(s0.take(i as int)[j] == s0[j]);
                            assert(s0[j].0@ != s0[i as int].0@);
                        }
                    }
                }
            }
            i += 1;
        }
        proof {
            assert(s0.take(n as int) =~= s0);
        }
        self.stash = swept;
    }
}

/// Law (cache correctness): a read that follows a write of the same key
/// returns exactly the value written, whether or not the write triggered a
/// sweep — and in particular a second write overwrites the first, never
/// appends.
pub proof fn lemma_add_then_get(
    s0: Stash,
    s1: Stash,
    s2: Stash,
    key: Seq<char>,
    value: Seq<char>,
    r: Option<Seq<char>>,
)
    requires
        add_rel(s0, s1, key, value),
        get_rel(s1, s2, key, r),
    ensures
        r == Some(value),
        s2.lookup(key) == Some((value, 0nat)),
{
}

/// `n` sweeps applied to one binding, one after another.
pub open spec fn sweep_iter(e: Option<(Seq<char>, nat)>, n: nat) -> Option<(Seq<char>, nat)>
    decreases n,
{
    if n == 0 {
        e
    } else {
        sweep_iter(sweep_entry(e), (n - 1) as nat)
    }
}

/// An absent binding stays absent through any number of sweeps.
proof fn lemma_sweep_iter_none(n: nat)
    ensures
        sweep_iter(None, n) is None,
    decreases n,
{
    if n > 0 {
        lemma_sweep_iter_none((n - 1) as nat);
    }
}

/// A binding whose age plus the number of sweeps reaches five is evicted.
proof fn lemma_sweep_iter_evicts(e: (Seq<char>, nat), n: nat)
    requires
        1 <= n,
        e.1 + n >= GENERATIONS,
    ensures
        sweep_iter(Some(e), n) is None,
    decreases n,
{
    if e.1 + 1 < GENERATIONS {
        lemma_sweep_iter_evicts((e.0, (e.1 + 1) as nat), (n - 1) as nat);
    } else {
        lemma_sweep_iter_none((n - 1) as nat);
    }
}

/// The writes `ws` (key-value pairs), none of which binds `k`.
pub open spec fn writes_avoid(ws: Seq<(Seq<char>, Seq<char>)>, k: Seq<char>) -> bool {
    forall|i: int| 0 <= i < ws.len() ==> (#[trigger] ws[i]).0 != k
}

/// `states` is a run of shard states connected by one [`Stash::add`] per
/// write of `ws`.
pub open spec fn add_chain(states: Seq<Stash>, ws: Seq<(Seq<char>, Seq<char>)>) -> bool {
    &&& states.len() == ws.len() + 1
    &&& forall|i: int|
        0 <= i < ws.len() ==> add_rel(states[i], states[i + 1], (#[trigger] ws[i]).0, ws[i].1)
}

/// Along a run of writes that avoid `k`, the counter tracks the write
/// count modulo five and `k`'s binding is the initial one swept once per
/// five writes.
proof fn lemma_chain_untouched(
    states: Seq<Stash>,
    ws: Seq<(Seq<char>, Seq<char>)>,
    k: Seq<char>,
    i: int,
)
    requires
        add_chain(states, ws),
        writes_avoid(ws, k),
        states[0].counter() == 0,
        0 <= i <= ws.len(),
    ensures
        states[i].counter() == i % 5,
        states[i].lookup(k) == sweep_iter(states[0].lookup(k), (i / 5) as nat),
    decreases i,
{
    if i > 0 {
        lemma_chain_untouched(states, ws, k, i - 1);
        assert(add_rel(states[i - 1], states[i], ws[i - 1].0, ws[i - 1].1));
        if (i - 1) % 5 == 4 {
            assert(i % 5 == 0 && i / 5 == (i - 1) / 5 + 1);
            assert(sweep_iter(states[0].lookup(k), (i / 5) as nat) == sweep_entry(
                sweep_iter(states[0].lookup(k), ((i - 1) / 5) as nat),
            )) by {
                lemma_sweep_iter_shift(states[0].lookup(k), ((i - 1) / 5) as nat);
            }
        } else {
            assert(i % 5 == (i - 1) % 5 + 1 && i / 5 == (i - 1) / 5);
        }
    }
}

/// Appending one sweep to an iterated sweep equals sweeping the iterated
/// result once more.
proof fn lemma_sweep_iter_shift(e: Option<(Seq<char>, nat)>, n: nat)
    ensures
        sweep_iter(e, n + 1) == sweep_entry(sweep_iter(e, n)),
    decreases n,
{
    assert(sweep_iter(e, n + 1) == sweep_iter(sweep_entry(e), n));
    if n > 0 {
        lemma_sweep_iter_shift(sweep_entry(e), (n - 1) as nat);
        assert(sweep_iter(e, n) == sweep_iter(sweep_entry(e), (n - 1) as nat));
    } else {
        assert(sweep_iter(sweep_entry(e), 0) == sweep_entry(e));
        assert(sweep_iter(e, 0) == e);
    }
}

/// Law (aging, composed): across any run of writes to one shard that never
/// binds `k`, starting with a fresh write counter, `k` is gone once 25
/// writes have passed — five sweeps of five writes each, whatever age and
/// value `k` held at the start.
pub proof fn lemma_untouched_key_evicted_by_writes(
    states: Seq<Stash>,
    ws: Seq<(Seq<char>, Seq<char>)>,
    k: Seq<char>,
    i: int,
)
    requires
        add_chain(states, ws),
        writes_avoid(ws, k),
        states[0].counter() == 0,
        25 <= i <= ws.len(),
    ensures
        states[i].lookup(k) is None,
{
    lemma_chain_untouched(states, ws, k, i);
    match states[0].lookup(k) {
        Some(e) => {
            assert(i / 5 >= 5);
            lemma_sweep_iter_evicts(e, (i / 5) as nat);
        },
        None => {
            lemma_sweep_iter_none((i / 5) as nat);
        },
    }
}

/// Iterated sweeps only age a young binding: while the age stays below
/// five, each sweep adds one.
proof fn lemma_sweep_iter_young(e: (Seq<char>, nat), n: nat)
    requires
        e.1 + n < GENERATIONS,
    ensures
        sweep_iter(Some(e), n) == Some((e.0, (e.1 + n) as nat)),
    decreases n,
{
    if n > 0 {
        lemma_sweep_iter_young((e.0, (e.1 + 1) as nat), (n - 1) as nat);
    }
}

/// Law (aging, composed): a binding whose age was just reset (created,
/// re-written or read) survives any run of writes to its shard that avoid
/// its key, as long as fewer than 25 of them have passed — so touching a
/// key before every fifth sweep keeps it alive indefinitely.
pub proof fn lemma_touched_key_survives_writes(
    states: Seq<Stash>,
    ws: Seq<(Seq<char>, Seq<char>)>,
    k: Seq<char>,
    v: Seq<char>,
    i: int,
)
    requires
        add_chain(states, ws),
        writes_avoid(ws, k),
        states[0].counter() == 0,
        states[0].lookup(k) == Some((v, 0nat)),
        0 <= i <= ws.len(),
        i < 25,
    ensures
        states[i].lookup(k) == Some((v, (i / 5) as nat)),
{
    lemma_chain_untouched(states, ws, k, i);
    lemma_sweep_iter_young((v, 0nat), (i / 5) as nat);
}

/// Law (aging): a binding untouched across five consecutive sweeps of its
/// shard is evicted, starting from the fresh age of zero.
pub proof fn lemma_untouched_entry_evicted(v: Seq<char>)
    ensures
        sweep_entry(
            sweep_entry(sweep_entry(sweep_entry(sweep_entry(Some((v, 0nat)))))),
        ) is None,
{
}

/// Law (aging): one sweep keeps any binding whose age is still below four
/// — so a binding read or written since the last sweep (age zero) survives —
/// and evicts any binding aged four or more.
pub proof fn lemma_sweep_keeps_young(e: (Seq<char>, nat))
    ensures
        e.1 + 1 < GENERATIONS ==> sweep_entry(Some(e)) == Some((e.0, (e.1 + 1) as nat)),
        e.1 + 1 >= GENERATIONS ==> sweep_entry(Some(e)) is None,
{
}

} // verus!
