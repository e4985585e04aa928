//! Random access over a built dataset with a bounded number of resident
//! blocks, evicted least-recently-used first.
use std::collections::VecDeque;

use vstd::prelude::*;

use crate::layout::AcademyDatasetConfig;

verus! {

/// The recency ledger after block `b` is used, with room for `k` resident blocks:
/// `b` moves to (or enters at) the front; on a miss with a full ledger the
/// least recently used block, at the back, leaves.
pub open spec fn lru_touch(ledger: Seq<usize>, b: usize, k: nat) -> Seq<usize> {
    if ledger.contains(b) {
        seq![b] + ledger.remove(ledger.index_of(b))
    } else if ledger.len() >= k {
        seq![b] + ledger.drop_last()
    } else {
        seq![b] + ledger
    }
}

/// The distinct blocks of `touches`, most recently used first.
pub open spec fn recency(touches: Seq<usize>) -> Seq<usize>
    decreases touches.len(),
{
    if touches.len() == 0 {
        seq![]
    } else {
        let b = touches.last();
        let rest = recency(touches.drop_last());
        if rest.contains(b) {
            seq![b] + rest.remove(rest.index_of(b))
        } else {
            seq![b] + rest
        }
    }
}

/// The ledger after using the blocks of `touches` in order, starting empty.
pub open spec fn lru_after(touches: Seq<usize>, k: nat) -> Seq<usize>
    decreases touches.len(),
{
    if touches.len() == 0 {
        seq![]
    } else {
        lru_touch(lru_after(touches.drop_last(), k), touches.last(), k)
    }
}

proof fn lemma_recency_distinct(touches: Seq<usize>)
    ensures
        recency(touches).no_duplicates(),
        forall|x: usize| #[trigger] recency(touches).contains(x) <==> touches.contains(x),
    decreases touches.len(),
{
    if touches.len() > 0 {
        let b = touches.last();
        let h = touches.drop_last();
        let rest = recency(h);
        lemma_recency_distinct(h);
        let r = recency(touches);
        if rest.contains(b) {
            let j = rest.index_of(b);
            let m = rest.remove(j);
            assert forall|x: usize| #[trigger] r.contains(x) <==> touches.contains(x) by {
                if touches.contains(x) {
                    let t = choose|t: int| 0 <= t < touches.len() && touches[t] == x;
                    if x != b {
                        assert(h[t] == x);
                        assert(rest.contains(x));
                        let u = choose|u: int| 0 <= u < rest.len() && rest[u] == x;
                        if u < j {
                            assert(r[u + 1] == x);
                        } else {
                            assert(u != j);
                            assert(r[u] == x);
                        }
                    } else {
                        assert(r[0] == x);
                    }
                }
                if r.contains(x) {
                    let t = choose|t: int| 0 <= t < r.len() && r[t] == x;
                    if t == 0 {
                        assert(touches[touches.len() - 1] == x);
                    } else {
                        let u = if t - 1 < j {
                            t - 1
                        } else {
                            t
                        };
                        assert(rest[u] == x);
                        assert(rest.contains(x));
                        assert(h.contains(x));
                        let v = choose|v: int| 0 <= v < h.len() && h[v] == x;
                        assert(touches[v] == x);
                    }
                }
            }
            assert forall|a: int, c: int| 0 <= a < r.len() && 0 <= c < r.len() && a != c implies r[a]
                != r[c] by {
                if a > 0 && c > 0 {
                    assert(m[a - 1] != m[c - 1]);
                } else if a == 0 {
                    assert(m[c - 1] != b);
                } else {
                    assert(m[a - 1] != b);
                }
            }
        } else {
            assert forall|x: usize| #[trigger] r.contains(x) <==> touches.contains(x) by {
                if touches.contains(x) {
                    let t = choose|t: int| 0 <= t < touches.len() && touches[t] == x;
                    if x != b {
                        assert(h[t] == x);
                        assert(rest.contains(x));
                        let u = choose|u: int| 0 <= u < rest.len() && rest[u] == x;
                        assert(r[u + 1] == x);
                    } else {
                        assert(r[0] == x);
                    }
                }
                if r.contains(x) {
                    let t = choose|t: int| 0 <= t < r.len() && r[t] == x;
                    if t == 0 {
                        assert(touches[touches.len() - 1] == x);
                    } else {
                        assert(rest[t - 1] == x);
                        assert(rest.contains(x));
                        assert(h.contains(x));
                        let v = choose|v: int| 0 <= v < h.len() && h[v] == x;
                        assert(touches[v] == x);
                    }
                }
            }
            assert forall|a: int, c: int| 0 <= a < r.len() && 0 <= c < r.len() && a != c implies r[a]
                != r[c] by {
                if a > 0 && c > 0 {
                    assert(rest[a - 1] != rest[c - 1]);
                } else if a == 0 {
                    assert(rest[c - 1] != b);
                } else {
                    assert(rest[a - 1] != b);
                }
            }
        }
    }
}

/// After any sequence of block uses, the ledger, and so the set of resident
/// blocks, is exactly the `k` most recently used distinct blocks (all of them
/// when fewer than `k` were used), most recent first.
pub proof fn lemma_lru_keeps_most_recent(touches: Seq<usize>, k: nat)
    requires
        k >= 1,
    ensures
        lru_after(touches, k) == recency(touches).take(
            if recency(touches).len() < k {
                recency(touches).len() as int
            } else {
                k as int
            },
        ),
        lru_after(touches, k).len() <= k,
        lru_after(touches, k).no_duplicates(),
    decreases touches.len(),
{
    lemma_recency_distinct(touches);
    if touches.len() > 0 {
        let b = touches.last();
        let h = touches.drop_last();
        lemma_lru_keeps_most_recent(h, k);
        lemma_recency_distinct(h);
        let rr = recency(h);
        let m: int = if rr.len() < k {
            rr.len() as int
        } else {
            k as int
        };
        let l = lru_after(h, k);
        assert(l == rr.take(m));
        let r2 = recency(touches);
        let m2: int = if r2.len() < k {
            r2.len() as int
        } else {
            k as int
        };
        let out = lru_after(touches, k);
        assert(out == lru_touch(l, b, k));
        if rr.contains(b) {
            let j = rr.index_of(b);
            assert(r2 == seq![b] + rr.remove(j));
            assert(r2.len() == rr.len());
            if j < m {
                assert(l[j] == b);
                assert(l.contains(b));
                let lj = l.index_of(b);
                assert(l[lj] == b && rr[lj] == b);
                assert(lj == j);
                assert(out =~= r2.take(m2));
            } else {
                assert(m == k);
                assert(!l.contains(b)) by {
                    if l.contains(b) {
                        let t = choose|t: int| 0 <= t < l.len() && l[t] == b;
                        assert(rr[t] == b);
                    }
                }
                assert(out =~= r2.take(m2));
            }
        } else {
            assert(!l.contains(b)) by {
                if l.contains(b) {
                    let t = choose|t: int| 0 <= t < l.len() && l[t] == b;
                    assert(rr[t] == b);
                }
            }
            assert(r2 == seq![b] + rr);
            assert(out =~= r2.take(m2));
        }
        assert forall|a: int, c: int|
            0 <= a < out.len() && 0 <= c < out.len() && a != c implies out[a] != out[c] by {
            assert(out[a] == r2[a] && out[c] == r2[c]);
        }
    }
}

/// What a lookup found.
#[derive(Debug)]
pub enum Lookup<T> {
    /// The index is past the end of the dataset.
    OutOfRange,
    /// A copy of the item.
    Found(T),
    /// The item's block is not resident: load that block and hand it to `install`.
    Load(usize),
}

/// A dataset opened for reading: one slot per block, a recency ledger of the
/// resident blocks, most recently used first.
pub struct AcademyDataset<T> {
    cache: Vec<Option<Vec<T>>>,
    last_used: VecDeque<usize>,
    config: AcademyDatasetConfig,
    max_cached_blocks: usize,
}

impl<T> AcademyDataset<T> {
    /// The layout the dataset was opened with.
    pub closed spec fn config(&self) -> AcademyDatasetConfig {
        self.config
    }

    /// The resident blocks, most recently used first.
    pub closed spec fn ledger(&self) -> Seq<usize> {
        self.last_used@
    }

    /// The most blocks that may be resident at once.
    pub closed spec fn max_cached(&self) -> nat {
        self.max_cached_blocks as nat
    }

    /// The items of block `b`, when it is resident.
    pub closed spec fn slot(&self, b: int) -> Option<Seq<T>> {
        match self.cache@[b] {
            Some(v) => Some(v@),
            None => None,
        }
    }

    /// Internal consistency: a slot is filled exactly when its block is in the
    /// ledger, the ledger holds each block once and no more than the bound,
    /// and a filled slot holds the whole block.
    pub closed spec fn wf(&self) -> bool {
        &&& self.config.wf()
        &&& self.cache@.len() == self.config.block_count
        &&& self.max_cached_blocks >= 1
        &&& self.last_used@.len() <= self.max_cached_blocks
        &&& self.last_used@.no_duplicates()
        &&& forall|i: int|
            0 <= i < self.last_used@.len() ==> #[trigger] self.last_used@[i]
                < self.config.block_count
        &&& forall|b: int|
            0 <= b < self.config.block_count ==> (#[trigger] self.cache@[b] is Some
                <==> self.last_used@.contains(b as usize))
        &&& forall|b: int|
            0 <= b < self.config.block_count && #[trigger] self.cache@[b] is Some
                ==> self.cache@[b]->Some_0@.len() == self.config.block_len(b as nat)
    }

    /// The resident blocks are exactly those in the ledger: each once, at
    /// most `max_cached()` of them, each holding its whole block.
    pub proof fn lemma_resident_is_ledger(&self)
        requires
            self.wf(),
        ensures
            self.config().wf(),
            self.max_cached() >= 1,
            self.ledger().len() <= self.max_cached(),
            self.ledger().no_duplicates(),
            forall|i: int|
                0 <= i < self.ledger().len() ==> #[trigger] self.ledger()[i]
                    < self.config().block_count,
            forall|b: int|
                0 <= b < self.config().block_count ==> (#[trigger] self.slot(b) is Some
                    <==> self.ledger().contains(b as usize)),
            forall|b: int|
                0 <= b < self.config().block_count && (#[trigger] self.slot(b)) is Some
                    ==> self.slot(b)->Some_0.len() == self.config().block_len(b as nat),
    {
        assert forall|b: int|
            0 <= b < self.config().block_count implies (#[trigger] self.slot(b) is Some
            <==> self.ledger().contains(b as usize)) by {
            assert(self.cache@[b] is Some <==> self.last_used@.contains(b as usize));
        }
        assert forall|b: int|
            0 <= b < self.config().block_count && (#[trigger] self.slot(b)) is Some
            implies self.slot(b)->Some_0.len() == self.config().block_len(b as nat) by {
            assert(self.cache@[b] is Some);
        }
    }

    /// Opens a dataset of layout `config` with a memory budget in bytes: as
    /// many blocks stay resident as the budget holds blocks of the size the
    /// dataset was built with, and always at least one. Nothing is resident yet.
    pub fn new(config: AcademyDatasetConfig, memory_budget: usize) -> (r: Self)
        requires
            config.wf(),
        ensures
            r.wf(),
            r.config() == config,
            r.max_cached() == if config.block_memory_size == 0 || memory_budget
                / config.block_memory_size == 0 {
                1
            } else {
                memory_budget / config.block_memory_size
            },
            r.ledger() == Seq::<usize>::empty(),
            forall|b: int| 0 <= b < config.block_count ==> #[trigger] r.slot(b) is None,
    {
        let max_cached_blocks = if config.block_memory_size == 0 {
            1
        } else if memory_budget / config.block_memory_size == 0 {
            1
        } else {
            memory_budget / config.block_memory_size
        };
        let mut cache: Vec<Option<Vec<T>>> = Vec::new();
        let mut i: usize = 0;
        while i < config.block_count
            invariant
                i <= config.block_count,
                cache@.len() == i,
                forall|b: int| 0 <= b < i ==> #[trigger] cache@[b] is None,
            decreases config.block_count - i,
        {
            cache.push(None);
            i = i + 1;
        }
        let r = AcademyDataset {
            cache,
            last_used: VecDeque::with_capacity(config.block_count),
            config,
            max_cached_blocks,
        };
        assert forall|b: int| 0 <= b < config.block_count implies (#[trigger] r.cache@[b] is Some
            <==> r.last_used@.contains(b as usize)) by {
            assert(!r.last_used@.contains(b as usize));
        }
        r
    }

    /// Number of items in the dataset.
    pub fn len(&self) -> (r: usize)
        requires
            self.wf(),
        ensures
            r == self.config().length,
    {
        self.config.length
    }

    /// Whether block `block` is resident.
    pub fn is_resident(&self, block: usize) -> (r: bool)
        requires
            self.wf(),
            block < self.config().block_count,
        ensures
            r == self.slot(block as int) is Some,
    {
        match &self.cache[block] {
            Some(_) => true,
            None => false,
        }
    }

    /// Number of items block `block` holds.
    pub fn block_len(&self, block: usize) -> (r: usize)
        requires
            self.wf(),
        ensures
            r == self.config().block_len(block as nat),
    {
        self.config.block_items(block)
    }

    /// Number of blocks of the dataset.
    pub fn block_count(&self) -> (r: usize)
        requires
            self.wf(),
        ensures
            r == self.config().block_count,
    {
        self.config.block_count
    }

    /// Makes block `block` resident with `items`, its contents as read from
    /// disk. When the bound is reached, the least recently used block is
    /// dropped first. `block` becomes the most recently used.
    pub fn install(&mut self, block: usize, items: Vec<T>)
        requires
            old(self).wf(),
            block < old(self).config().block_count,
            old(self).slot(block as int) is None,
            items@.len() == old(self).config().block_len(block as nat),
        ensures
            final(self).wf(),
            final(self).config() == old(self).config(),
            final(self).max_cached() == old(self).max_cached(),
            final(self).ledger() == lru_touch(old(self).ledger(), block, old(self).max_cached()),
            final(self).slot(block as int) == Some(items@),
            forall|b: int|
                #![trigger final(self).slot(b)]
                0 <= b < old(self).config().block_count && b != block as int && final(self).slot(b) is Some
                    ==> final(self).slot(b) == old(self).slot(b),
    {
        let ghost old_ledger = self.last_used@;
        assert(!old_ledger.contains(block));
        if self.last_used.len() >= self.max_cached_blocks {
            let evicted = self.last_used.pop_back();
            match evicted {
                Some(e) => {
                    assert(old_ledger[old_ledger.len() - 1] == e);
                    self.cache.set(e, None);
                },
                None => {},
            }
        }
        let ghost mid = self.last_used@;
        self.cache.set(block, Some(items));
        self.last_used.push_front(block);
        proof {
            assert(self.last_used@ == lru_touch(old_ledger, block, self.max_cached_blocks as nat));
            assert forall|i: int| 0 <= i < mid.len() implies old_ledger.contains(
                #[trigger] mid[i],
            ) by {
                assert(mid[i] == old_ledger[i]);
            }
            assert forall|b: int|
                0 <= b < self.config.block_count implies (#[trigger] self.cache@[b] is Some
                <==> self.last_used@.contains(b as usize)) by {
                if b != block {
                    if self.last_used@.contains(b as usize) {
                        let i = choose|i: int|
                            0 <= i < self.last_used@.len() && self.last_used@[i] == b as usize;
                        assert(mid[i - 1] == b);
                        assert(old_ledger[i - 1] == b);
                    }
                    if old_ledger.contains(b as usize) && !mid.contains(b as usize) {
                        let i = choose|i: int|
                            0 <= i < old_ledger.len() && old_ledger[i] == b as usize;
                        if i < old_ledger.len() - 1 {
                            assert(mid[i] == b);
                        }
                    }
                    if mid.contains(b as usize) {
                        let i = choose|i: int| 0 <= i < mid.len() && mid[i] == b as usize;
                        assert(self.last_used@[i + 1] == b);
                    }
                } else {
                    assert(self.last_used@[0] == block);
                }
            }
        }
    }
}

impl<T: Clone> AcademyDataset<T> {
    /// Looks up item `index`. Past the end: `OutOfRange`. When its block is
    /// resident: a copy of the item, and the block becomes the most recently
    /// used. Otherwise `Load` names the block to read; nothing changes.
    pub fn get(&mut self, index: usize) -> (r: Lookup<T>)
        requires
            old(self).wf(),
        ensures
            final(self).wf(),
            final(self).config() == old(self).config(),
            final(self).max_cached() == old(self).max_cached(),
            forall|b: int| #[trigger] final(self).slot(b) == old(self).slot(b),
            index >= old(self).config().length ==> r is OutOfRange && final(self).ledger() == old(
                self,
            ).ledger(),
            index < old(self).config().length ==> {
                let b = (index / old(self).config().block_size) as usize;
                let o = index % old(self).config().block_size;
                &&& b < old(self).config().block_count
                &&& old(self).slot(b as int) is None ==> r == Lookup::<T>::Load(b)
                    && final(self).ledger() == old(self).ledger()
                &&& old(self).slot(b as int) is Some ==> {
                    &&& o < old(self).slot(b as int)->Some_0.len()
                    &&& r is Found
                    &&& cloned(old(self).slot(b as int)->Some_0[o as int], r->Found_0)
                    &&& final(self).ledger() == lru_touch(
                        old(self).ledger(),
                        b,
                        old(self).max_cached(),
                    )
                }
            },
    {
        let (block, offset) = match self.config.locate(index) {
            None => {
                return Lookup::OutOfRange;
            },
            Some(p) => p,
        };
        let resident = match &self.cache[block] {
            Some(_) => true,
            None => false,
        };
        if !resident {
            return Lookup::Load(block);
        }
        let ghost old_ledger = self.last_used@;
        assert(old_ledger.contains(block));
        let mut i: usize = 0;
        while i < self.last_used.len() && self.last_used[i] != block
            invariant
                i <= self.last_used@.len(),
                self.last_used@ == old_ledger,
                old_ledger.contains(block),
                forall|j: int| 0 <= j < i ==> old_ledger[j] != block,
            decreases self.last_used@.len() - i,
        {
            i = i + 1;
        }
        assert(i < old_ledger.len());
        assert(old_ledger[i as int] == block);
        assert(old_ledger.index_of(block) == i as int);
        let item = match &self.cache[block] {
            Some(items) => items[offset].clone(),
            None => {
                proof {
                    assert(false);
                }
                return Lookup::Load(block);
            },
        };
        self.last_used.remove(i);
        self.last_used.push_front(block);
        proof {
            let mid = old_ledger.remove(i as int);
            assert(self.last_used@ == seq![block] + mid);
            assert forall|b: int|
                0 <= b < self.config.block_count implies (#[trigger] self.cache@[b] is Some
                <==> self.last_used@.contains(b as usize)) by {
                if b != block {
                    if self.last_used@.contains(b as usize) {
                        let k = choose|k: int|
                            0 <= k < self.last_used@.len() && self.last_used@[k] == b as usize;
                        assert(mid[k - 1] == b);
                    }
                    if old_ledger.contains(b as usize) {
                        let k = choose|k: int|
                            0 <= k < old_ledger.len() && old_ledger[k] == b as usize;
                        if k < i {
                            assert(self.last_used@[k + 1] == b);
                        } else {
                            assert(k > i);
                            assert(self.last_used@[k] == b);
                        }
                    }
                } else {
                    assert(self.last_used@[0] == block);
                }
            }
            assert forall|a: int, c: int|
                0 <= a < self.last_used@.len() && 0 <= c < self.last_used@.len() && a != c
                implies self.last_used@[a] != self.last_used@[c] by {
                if a > 0 && c > 0 {
                    assert(mid[a - 1] != mid[c - 1]);
                } else if a == 0 {
                    assert(old_ledger.no_duplicates());
                    assert(mid[c - 1] != block);
                } else {
                    assert(mid[a - 1] != block);
                }
            }
        }
        Lookup::Found(item)
    }
}

} // verus!
