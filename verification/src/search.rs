//! Finding where a `(key, version)` pair stands: the descent through the
//! towers that every read and every write starts with.

use vstd::prelude::*;
use crate::codec::MAX_HEIGHT;
use crate::comparator::{Comparator, Order};
use crate::layout::{entries_of, heights_of, node_entry, node_ok};
use crate::links::{is_next, lemma_is_next_unique, lemma_next_at_is_next, next_at};
use crate::map::SkipMap;
use crate::model::{before, lemma_pair_transitive, lemma_rank_is, pair_order, rank};
use crate::node::{load_next, load_node, node_at, node_key, node_next};

verus! {

impl<C: Comparator> SkipMap<C> {
    /// Whether the nodes at `pi` and `ni` of the chain enclose
    /// `(key, version)` at `level`: `ni` is the next node behind `pi` that
    /// reaches the level, `pi` stands before the pair (or is the head), and
    /// `ni` does not (or is the tail).
    #[verifier::opaque]
    pub(crate) open spec fn is_splice(
        &self,
        key: Seq<u8>,
        version: u64,
        level: int,
        pi: int,
        ni: int,
        prev: u32,
        next: u32,
    ) -> bool {
        let bytes = self.arena@;
        let chain = self.chain@;
        let last = chain.len() - 1;
        let hs = heights_of(bytes, chain);
        &&& 0 <= pi < ni <= last
        &&& chain[pi] == prev
        &&& chain[ni] == next
        &&& hs[pi] > level
        &&& ni == next_at(hs, pi, level)
        &&& (pi == 0 || before(&self.comparator, node_entry(bytes, chain[pi]), key, version))
        &&& (ni == last || !before(&self.comparator, node_entry(bytes, chain[ni]), key, version))
    }

    /// How the node at `off` stands to `(key, version)`.
    pub(crate) fn compare_node(&self, off: u32, key: &[u8], version: u64, Ghost(j): Ghost<int>) -> (r:
        Order)
        requires
            self.wf(),
            0 <= j < self.chain@.len(),
            self.chain@[j] == off,
        ensures
            r == pair_order(
                &self.comparator,
                node_key(self.arena@, off as int),
                node_at(self.arena@, off as int).version,
                key@,
                version,
            ),
    {
        proof {
            self.lemma_inv();
            self.arena.lemma_wf();
            assert(node_ok(self.arena@, self.arena.spec_size() as int, self.tags@, self.chain@[j]));
        }
        let n = load_node(&self.arena, off);
        let node_key = self.arena.get_bytes(n.key_offset as usize, n.key_size as usize);
        match self.comparator.compare(node_key, key) {
            Order::Less => Order::Less,
            Order::Greater => Order::Greater,
            Order::Equal => if n.version > version {
                Order::Less
            } else if n.version < version {
                Order::Greater
            } else {
                Order::Equal
            },
        }
    }

    /// Walks along `level` from the node `start`, which stands before the
    /// pair, to the last node of the level that still does. Returns that
    /// node and its successor on the level.
    pub(crate) fn walk_level(
        &self,
        start: u32,
        level: usize,
        key: &[u8],
        version: u64,
        Ghost(si): Ghost<int>,
    ) -> (r: (u32, u32, Ghost<int>, Ghost<int>))
        requires
            self.wf(),
            0 <= si < self.chain@.len() - 1,
            self.chain@[si] == start,
            level < node_at(self.arena@, start as int).height,
            si == 0 || before(
                &self.comparator,
                node_entry(self.arena@, start as int),
                key@,
                version,
            ),
        ensures
            self.is_splice(key@, version, level as int, r.2@, r.3@, r.0, r.1),
            si <= r.2@ < r.3@ <= self.chain@.len() - 1,
            self.chain@[r.2@] == r.0,
            self.chain@[r.3@] == r.1,
            level < node_at(self.arena@, r.0 as int).height,
            r.2@ == 0 || before(&self.comparator, node_entry(self.arena@, r.0 as int), key@, version),
    {
        proof {
            self.lemma_inv();
            self.arena.lemma_wf();
            reveal(SkipMap::is_splice);
        }
        let ghost bytes = self.arena@;
        let ghost chain = self.chain@;
        let ghost last = chain.len() - 1;
        let ghost hs = heights_of(bytes, chain);
        let mut cur: u32 = start;
        let ghost mut ci: int = si;
        loop
            invariant
                self.wf(),
                self.inv(),
                bytes == self.arena@,
                chain == self.chain@,
                last == chain.len() - 1,
                hs == heights_of(bytes, chain),
                self.arena@.len() == self.arena.spec_capacity(),
                self.arena.spec_size() <= self.arena.spec_capacity(),
                level < MAX_HEIGHT,
                0 <= si <= ci < last,
                chain[ci] == cur,
                level < node_at(bytes, cur as int).height,
                ci == 0 || before(&self.comparator, node_entry(bytes, cur as int), key@, version),
            decreases last - ci,
        {
            proof {
                assert(node_ok(bytes, self.arena.spec_size() as int, self.tags@, chain[ci]));
                lemma_next_at_is_next(hs, ci, level as int);
                assert(hs[ci] == node_at(bytes, chain[ci]).height);
                assert(node_next(bytes, chain[ci], level as int) == chain[next_at(
                    hs,
                    ci,
                    level as int,
                )]);
            }
            let ghost k = next_at(hs, ci, level as int);
            let next: u32 = load_next(&self.arena, cur, level);
            if next == self.tail {
                proof {
                    reveal(SkipMap::is_splice);
                    if k != last {
                        assert(chain[k] != chain[last]);
                    }
                }
                return (cur, next, Ghost(ci), Ghost(k));
            }
            proof {
                assert(hs[k] == node_at(bytes, chain[k]).height);
            }
            match self.compare_node(next, key, version, Ghost(k)) {
                Order::Less => {
                    cur = next;
                    proof {
                        ci = k;
                    }
                },
                _ => {
                    proof {
                        reveal(SkipMap::is_splice);
                    }
                    return (cur, next, Ghost(ci), Ghost(k));
                },
            }
        }
    }

    /// Descends from the top level to the bottom and returns the two
    /// neighbours of `(key, version)` on the bottom level: the last node
    /// that stands before the pair and its successor.
    pub(crate) fn seek(&self, key: &[u8], version: u64) -> (r: (u32, u32, Ghost<int>, Ghost<int>))
        requires
            self.wf(),
        ensures
            self.is_splice(key@, version, 0, r.2@, r.3@, r.0, r.1),
            0 <= r.2@ < r.3@ <= self.chain@.len() - 1,
            self.chain@[r.2@] == r.0,
            self.chain@[r.3@] == r.1,
    {
        proof {
            self.lemma_inv();
            self.opts.lemma_wf();
        }
        let mut level: usize = self.height as usize - 1;
        let mut cur: u32 = self.head;
        let ghost mut ci: int = 0;
        loop
            invariant
                self.wf(),
                level < self.height,
                0 <= ci < self.chain@.len() - 1,
                self.chain@[ci] == cur,
                level < node_at(self.arena@, cur as int).height,
                ci == 0 || before(
                    &self.comparator,
                    node_entry(self.arena@, cur as int),
                    key@,
                    version,
                ),
            decreases level,
        {
            let (prev, next, Ghost(pi), Ghost(ni)) = self.walk_level(
                cur,
                level,
                key,
                version,
                Ghost(ci),
            );
            if level == 0 {
                return (prev, next, Ghost(pi), Ghost(ni));
            }
            proof {
                ci = pi;
            }
            cur = prev;
            level = level - 1;
        }
    }

    /// Descends from the top level to the bottom and records at every level
    /// the two neighbours of `(key, version)`. Above the highest tower the
    /// neighbours are head and tail.
    pub(crate) fn find_splices(&self, key: &[u8], version: u64) -> (r: (
        Vec<u32>,
        Vec<u32>,
        Ghost<Seq<int>>,
        Ghost<Seq<int>>,
    ))
        requires
            self.wf(),
        ensures
            r.0@.len() == MAX_HEIGHT,
            r.1@.len() == MAX_HEIGHT,
            r.2@.len() == MAX_HEIGHT,
            r.3@.len() == MAX_HEIGHT,
            forall|l: int|
                0 <= l < self.opts.spec_max_height() ==> #[trigger] self.is_splice(
                    key@,
                    version,
                    l,
                    r.2@[l],
                    r.3@[l],
                    r.0@[l],
                    r.1@[l],
                ),
    {
        proof {
            self.lemma_inv();
            self.opts.lemma_wf();
        }
        let ghost bytes = self.arena@;
        let ghost chain = self.chain@;
        let ghost last = chain.len() - 1;
        let ghost hs = heights_of(bytes, chain);
        let mut prevs: Vec<u32> = vec![self.head; MAX_HEIGHT];
        let mut nexts: Vec<u32> = vec![self.tail; MAX_HEIGHT];
        let ghost mut pis: Seq<int> = Seq::new(MAX_HEIGHT as nat, |l: int| 0int);
        let ghost mut nis: Seq<int> = Seq::new(MAX_HEIGHT as nat, |l: int| last);
        proof {
            // above the highest tower, head links straight to tail
            assert forall|l: int|
                self.height <= l < self.opts.spec_max_height() implies #[trigger] self.is_splice(
                key@,
                version,
                l,
                pis[l],
                nis[l],
                prevs@[l],
                nexts@[l],
            ) by {
                reveal(SkipMap::is_splice);
                assert(hs[0] == node_at(bytes, chain[0]).height);
                assert forall|m: int| 0 < m < last implies #[trigger] hs[m] <= l by {
                    assert(hs[m] == node_at(bytes, chain[m]).height);
                }
                assert(is_next(hs, 0, l, last));
                lemma_is_next_unique(hs, 0, l, last);
            }
        }
        let mut level: usize = self.height as usize - 1;
        let mut cur: u32 = self.head;
        let ghost mut ci: int = 0;
        loop
            invariant
                self.wf(),
                bytes == self.arena@,
                chain == self.chain@,
                last == chain.len() - 1,
                level < self.height,
                self.height <= self.opts.spec_max_height() <= MAX_HEIGHT,
                prevs@.len() == MAX_HEIGHT,
                nexts@.len() == MAX_HEIGHT,
                pis.len() == MAX_HEIGHT,
                nis.len() == MAX_HEIGHT,
                0 <= ci < last,
                chain[ci] == cur,
                level < node_at(bytes, cur as int).height,
                ci == 0 || before(&self.comparator, node_entry(bytes, cur as int), key@, version),
                forall|l: int|
                    level < l < self.opts.spec_max_height() ==> #[trigger] self.is_splice(
                        key@,
                        version,
                        l,
                        pis[l],
                        nis[l],
                        prevs@[l],
                        nexts@[l],
                    ),
            decreases level,
        {
            let (prev, next, Ghost(pi), Ghost(ni)) = self.walk_level(
                cur,
                level,
                key,
                version,
                Ghost(ci),
            );
            let ghost old_pis = pis;
            let ghost old_nis = nis;
            let ghost old_prevs = prevs@;
            let ghost old_nexts = nexts@;
            prevs.set(level, prev);
            nexts.set(level, next);
            proof {
                pis = pis.update(level as int, pi);
                nis = nis.update(level as int, ni);
            }
            assert forall|l: int|
                level <= l < self.opts.spec_max_height() implies #[trigger] self.is_splice(
                key@,
                version,
                l,
                pis[l],
                nis[l],
                prevs@[l],
                nexts@[l],
            ) by {
                if l > level {
                    assert(self.is_splice(
                        key@,
                        version,
                        l,
                        old_pis[l],
                        old_nis[l],
                        old_prevs[l],
                        old_nexts[l],
                    ));
                }
            }
            if level == 0 {
                return (prevs, nexts, Ghost(pis), Ghost(nis));
            }
            proof {
                ci = pi;
            }
            cur = prev;
            level = level - 1;
        }
    }

    /// The node before the tail on the bottom level: the last entry's node,
    /// or the head if the map is empty.
    pub(crate) fn last_node(&self) -> (r: (u32, Ghost<int>))
        requires
            self.wf(),
        ensures
            r.1@ == self.chain@.len() - 2,
            self.chain@[r.1@] == r.0,
    {
        proof {
            self.lemma_inv();
            self.opts.lemma_wf();
            self.arena.lemma_wf();
        }
        let ghost bytes = self.arena@;
        let ghost chain = self.chain@;
        let ghost last = chain.len() - 1;
        let ghost hs = heights_of(bytes, chain);
        let mut level: usize = self.height as usize - 1;
        let mut cur: u32 = self.head;
        let ghost mut ci: int = 0;
        loop
            invariant
                self.wf(),
                self.inv(),
                bytes == self.arena@,
                chain == self.chain@,
                last == chain.len() - 1,
                hs == heights_of(bytes, chain),
                self.arena@.len() == self.arena.spec_capacity(),
                self.arena.spec_size() <= self.arena.spec_capacity(),
                level < self.height <= MAX_HEIGHT,
                0 <= ci < last,
                chain[ci] == cur,
                level < node_at(bytes, cur as int).height,
            decreases level, last - ci,
        {
            proof {
                assert(node_ok(bytes, self.arena.spec_size() as int, self.tags@, chain[ci]));
                lemma_next_at_is_next(hs, ci, level as int);
                assert(hs[ci] == node_at(bytes, chain[ci]).height);
                assert(node_next(bytes, chain[ci], level as int) == chain[next_at(
                    hs,
                    ci,
                    level as int,
                )]);
            }
            let ghost k = next_at(hs, ci, level as int);
            let next: u32 = load_next(&self.arena, cur, level);
            if next == self.tail {
                proof {
                    if k != last {
                        assert(chain[k] != chain[last]);
                    }
                }
                if level == 0 {
                    proof {
                        if ci + 1 < last {
                            assert(hs[ci + 1] == node_at(bytes, chain[ci + 1]).height);
                            assert(node_ok(
                                bytes,
                                self.arena.spec_size() as int,
                                self.tags@,
                                chain[ci + 1],
                            ));
                        }
                    }
                    return (cur, Ghost(ci));
                }
                level = level - 1;
            } else {
                proof {
                    assert(hs[k] == node_at(bytes, chain[k]).height);
                }
                cur = next;
                proof {
                    ci = k;
                }
            }
        }
    }

    /// The node that follows the node at `off` on the bottom level.
    pub(crate) fn next_node(&self, off: u32, Ghost(j): Ghost<int>) -> (next: u32)
        requires
            self.wf(),
            0 <= j < self.chain@.len() - 1,
            self.chain@[j] == off,
        ensures
            next == self.chain@[j + 1],
            (next == self.tail) == (j + 1 == self.chain@.len() - 1),
    {
        proof {
            self.lemma_inv();
            self.arena.lemma_wf();
            let bytes = self.arena@;
            let chain = self.chain@;
            let hs = heights_of(bytes, chain);
            assert(node_ok(bytes, self.arena.spec_size() as int, self.tags@, chain[j]));
            assert(node_ok(bytes, self.arena.spec_size() as int, self.tags@, chain[j + 1]));
            assert(hs[j] == node_at(bytes, chain[j]).height);
            assert(hs[j + 1] == node_at(bytes, chain[j + 1]).height);
            assert(is_next(hs, j, 0, j + 1));
            lemma_is_next_unique(hs, j, 0, j + 1);
            assert(node_next(bytes, chain[j], 0) == chain[next_at(hs, j, 0)]);
            if j + 1 != chain.len() - 1 {
                assert(chain[j + 1] != chain[chain.len() - 1]);
            }
        }
        load_next(&self.arena, off, 0)
    }

    /// On the bottom level the two neighbours of a pair are adjacent, all
    /// entries up to the first stand before the pair, and none behind it
    /// does: the second neighbour stands at the pair's rank.
    pub(crate) proof fn lemma_bottom_splice(
        &self,
        key: Seq<u8>,
        version: u64,
        pi: int,
        ni: int,
        prev: u32,
        next: u32,
    )
        requires
            self.wf(),
            self.is_splice(key, version, 0, pi, ni, prev, next),
        ensures
            ni == pi + 1,
            rank(&self.comparator, self@, key, version) == pi,
            forall|i: int| 0 <= i < pi ==> before(&self.comparator, #[trigger] self@[i], key, version),
            forall|i: int|
                pi <= i < self@.len() ==> !before(&self.comparator, #[trigger] self@[i], key, version),
    {
        self.lemma_inv();
        reveal(SkipMap::is_splice);
        let bytes = self.arena@;
        let chain = self.chain@;
        let last = chain.len() - 1;
        let hs = heights_of(bytes, chain);
        let s = entries_of(bytes, chain);
        let c = &self.comparator;
        lemma_next_at_is_next(hs, pi, 0);
        if ni > pi + 1 {
            assert(hs[pi + 1] <= 0);
            assert(hs[pi + 1] == node_at(bytes, chain[pi + 1]).height);
            assert(node_ok(bytes, self.arena.spec_size() as int, self.tags@, chain[pi + 1]));
        }
        assert forall|i: int| 0 <= i < pi implies before(c, #[trigger] s[i], key, version) by {
            assert(s[i] == node_entry(bytes, chain[i + 1]));
            assert(s[pi - 1] == node_entry(bytes, chain[pi]));
            if i < pi - 1 {
                assert(before(c, s[i], s[pi - 1].key, s[pi - 1].version));
                lemma_pair_transitive(
                    c,
                    s[i].key,
                    s[i].version,
                    s[pi - 1].key,
                    s[pi - 1].version,
                    key,
                    version,
                );
            }
        }
        assert forall|i: int| pi <= i < s.len() implies !before(c, #[trigger] s[i], key, version) by {
            assert(s[i] == node_entry(bytes, chain[i + 1]));
            assert(s[pi] == node_entry(bytes, chain[ni]));
            if i > pi {
                assert(before(c, s[pi], s[i].key, s[i].version));
                if before(c, s[i], key, version) {
                    lemma_pair_transitive(
                        c,
                        s[pi].key,
                        s[pi].version,
                        s[i].key,
                        s[i].version,
                        key,
                        version,
                    );
                }
            }
        }
        lemma_rank_is(c, s, key, version, pi);
    }
}

} // verus!
