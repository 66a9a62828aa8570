//! How the bytes change when an entry is added or its value replaced.

use vstd::prelude::*;
use crate::arena::{alloc_fits, Arena};
use crate::codec::{encode_value, MAX_HEIGHT, MAX_KEY_SIZE, MAX_VALUE_SIZE, REMOVED};
use crate::comparator::Comparator;
use crate::error::ArenaError;
use crate::layout::{
    entries_of,
    heights_of,
    lemma_insert_fresh,
    lemma_link_step,
    lemma_value_update,
    links_ok,
    node_entry,
    node_ok,
    store_ok,
    tags_with,
};
use crate::links::{is_next, lemma_next_at_is_next};
use crate::map::SkipMap;
use crate::model::{
    before,
    holds_pair,
    lemma_sorted_insert_at_rank,
    lemma_sorted_update,
    lemma_versions_insert,
    lemma_versions_update,
    rank,
    EntrySpec,
};
use crate::node::{
    agree_outside,
    node_at,
    node_next,
    node_size,
    opt_len,
    opt_view,
    spec_node_size,
    write_node,
    MAX_NODE_SIZE,
    NODE_ALIGN,
};

verus! {

/// The bytes that a new node of the given height takes, tower, key and
/// value together.
pub open spec fn node_space(height: int, key_len: int, value_len: int) -> int {
    spec_node_size(height) + key_len + value_len
}

/// The bytes that a new node keeps free behind it: what its tower lacks to
/// full height.
pub open spec fn node_reserve(height: int) -> int {
    MAX_NODE_SIZE as int - spec_node_size(height)
}

/// Whether the arena has room for a new node.
pub open spec fn node_fits(
    allocated: nat,
    capacity: nat,
    height: int,
    key_len: int,
    value_len: int,
) -> bool {
    alloc_fits(
        allocated,
        capacity,
        node_space(height, key_len, value_len) as nat,
        NODE_ALIGN as nat,
        node_reserve(height) as nat,
    )
}

/// What is known of the neighbours of a new node at one level, over the
/// chain as it was before the node entered it at position `p`.
pub open spec fn splice_fits(
    hs: Seq<int>,
    chain: Seq<int>,
    p: int,
    level: int,
    pi: int,
    ni: int,
    prev: u32,
    next: u32,
) -> bool {
    &&& 0 <= pi < p <= ni <= chain.len() - 1
    &&& is_next(hs, pi, level, ni)
    &&& hs[pi] > level
    &&& chain[pi] == prev
    &&& chain[ni] == next
}

/// Points the links of the new node's predecessors to it, from the bottom
/// level up. Before the call the node at `off` is written and stands in the
/// chain at `p`, but no link leads to it.
pub(crate) fn link_levels(
    arena: &mut Arena,
    off: u32,
    height: u8,
    prevs: &Vec<u32>,
    Ghost(tags): Ghost<Seq<int>>,
    Ghost(chain0): Ghost<Seq<int>>,
    Ghost(hs0): Ghost<Seq<int>>,
    Ghost(p): Ghost<int>,
    Ghost(pis): Ghost<Seq<int>>,
    Ghost(nis): Ghost<Seq<int>>,
    Ghost(nexts): Ghost<Seq<u32>>,
)
    requires
        old(arena).wf(),
        store_ok(old(arena)@, old(arena).spec_size() as int, tags, chain0.insert(p, off as int)),
        links_ok(old(arena)@, chain0.insert(p, off as int), hs0.insert(p, 0)),
        heights_of(old(arena)@, chain0.insert(p, off as int)) == hs0.insert(p, height as int),
        hs0.len() == chain0.len(),
        1 <= p <= chain0.len() - 1,
        1 <= height <= MAX_HEIGHT,
        prevs@.len() >= height,
        pis.len() >= height,
        nis.len() >= height,
        nexts.len() >= height,
        forall|l: int|
            0 <= l < height ==> #[trigger] splice_fits(
                hs0,
                chain0,
                p,
                l,
                pis[l],
                nis[l],
                prevs@[l],
                nexts[l],
            ),
        forall|l: int|
            0 <= l < height ==> #[trigger] node_next(old(arena)@, off as int, l) == nexts[l],
    ensures
        final(arena).wf(),
        final(arena).spec_size() == old(arena).spec_size(),
        final(arena).spec_capacity() == old(arena).spec_capacity(),
        store_ok(
            final(arena)@,
            final(arena).spec_size() as int,
            tags,
            chain0.insert(p, off as int),
        ),
        links_ok(
            final(arena)@,
            chain0.insert(p, off as int),
            heights_of(final(arena)@, chain0.insert(p, off as int)),
        ),
        entries_of(final(arena)@, chain0.insert(p, off as int)) == entries_of(
            old(arena)@,
            chain0.insert(p, off as int),
        ),
        heights_of(final(arena)@, chain0.insert(p, off as int)) == heights_of(
            old(arena)@,
            chain0.insert(p, off as int),
        ),
        forall|j: int|
            0 <= j < chain0.len() + 1 ==> node_at(
                final(arena)@,
                #[trigger] chain0.insert(p, off as int)[j],
            ) == node_at(old(arena)@, chain0.insert(p, off as int)[j]),
{
    let ghost chain = chain0.insert(p, off as int);
    let ghost b0 = arena@;
    let ghost allocated = arena.spec_size() as int;
    let ghost hfull = hs0.insert(p, height as int);
    proof {
        arena.lemma_wf();
    }
    let mut e: usize = 0;
    while e < height as usize
        invariant
            e <= height,
            1 <= height <= MAX_HEIGHT,
            chain == chain0.insert(p, off as int),
            hfull == hs0.insert(p, height as int),
            arena.wf(),
            arena.spec_size() == allocated,
            arena.spec_size() == old(arena).spec_size(),
            arena.spec_capacity() == old(arena).spec_capacity(),
            arena@.len() == arena.spec_capacity(),
            store_ok(arena@, allocated, tags, chain),
            links_ok(arena@, chain, hs0.insert(p, e as int)),
            heights_of(arena@, chain) == hfull,
            entries_of(arena@, chain) == entries_of(b0, chain),
            forall|j: int|
                0 <= j < chain.len() ==> node_at(arena@, #[trigger] chain[j]) == node_at(
                    b0,
                    chain[j],
                ),
            hs0.len() == chain0.len(),
            1 <= p <= chain0.len() - 1,
            prevs@.len() >= height,
            pis.len() >= height,
            nis.len() >= height,
            nexts.len() >= height,
            forall|l: int|
                0 <= l < height ==> #[trigger] splice_fits(
                    hs0,
                    chain0,
                    p,
                    l,
                    pis[l],
                    nis[l],
                    prevs@[l],
                    nexts[l],
                ),
            forall|l: int| e <= l < height ==> #[trigger] node_next(arena@, off as int, l) == nexts[l],
        decreases height - e,
    {
        let ghost b1 = arena@;
        let ghost hs = hs0.insert(p, e as int);
        let ghost pi = pis[e as int];
        let ghost ni = nis[e as int] + 1;
        let prev: u32 = prevs[e];
        proof {
            assert(splice_fits(
                hs0,
                chain0,
                p,
                e as int,
                pis[e as int],
                nis[e as int],
                prevs@[e as int],
                nexts[e as int],
            ));
            assert(chain[pi] == chain0[pi]);
            assert(chain[ni] == chain0[ni - 1]);
            assert(chain[p] == off);
            assert(node_ok(b1, allocated, tags, chain[pi]));
            assert(heights_of(b1, chain)[pi] == node_at(b1, chain[pi]).height);
            assert(hfull[pi] == hs0[pi]);
        }
        let _cap: usize = arena.capacity();
        arena.store_u32(prev as usize + 24 + 4 * e, off);
        proof {
            let b2 = arena@;
            let lo = prev as int + 24 + 4 * e;
            assert(agree_outside(b1, b2, lo, lo + 4));
            assert(hs[p] == e);
            assert(hs[pi] == hs0[pi]);
            assert forall|m: int| pi < m < ni implies #[trigger] hs[m] <= e by {
                if m < p {
                    assert(hs[m] == hs0[m]);
                } else if m > p {
                    assert(hs[m] == hs0[m - 1]);
                }
            }
            if ni < hs.len() - 1 {
                assert(hs[ni] == hs0[ni - 1]);
            }
            assert(is_next(hs, pi, e as int, ni));
            assert forall|j: int| 0 <= j < chain.len() implies #[trigger] hs[j] <= node_at(
                b1,
                chain[j],
            ).height by {
                assert(heights_of(b1, chain)[j] == node_at(b1, chain[j]).height);
                if j < p {
                    assert(hs[j] == hs0[j] && hfull[j] == hs0[j]);
                } else if j > p {
                    assert(hs[j] == hs0[j - 1] && hfull[j] == hs0[j - 1]);
                }
            }
            assert(heights_of(b1, chain)[p] == node_at(b1, chain[p]).height);
            assert(node_next(b1, off as int, e as int) == nexts[e as int]);
            lemma_link_step(b1, b2, allocated, tags, chain, hs, p, pi, ni);
            assert(hs.update(p, e + 1) =~= hs0.insert(p, e + 1));
            assert forall|l: int| e + 1 <= l < height implies #[trigger] node_next(
                b2,
                off as int,
                l,
            ) == nexts[l] by {
                assert(node_next(b1, off as int, l) == nexts[l]);
                assert(node_next(b2, chain[p], l) == node_next(b1, chain[p], l));
            }
        }
        e = e + 1;
    }
    proof {
        assert(hs0.insert(p, height as int) == heights_of(arena@, chain));
    }
}

impl<C: Comparator> SkipMap<C> {
    /// The neighbours that a descent recorded enclose the rank of the pair
    /// at every level.
    pub(crate) proof fn lemma_splices_fit(
        &self,
        key: Seq<u8>,
        version: u64,
        prevs: Seq<u32>,
        nexts: Seq<u32>,
        pis: Seq<int>,
        nis: Seq<int>,
    )
        requires
            self.wf(),
            forall|l: int|
                0 <= l < self.opts.spec_max_height() ==> #[trigger] self.is_splice(
                    key,
                    version,
                    l,
                    pis[l],
                    nis[l],
                    prevs[l],
                    nexts[l],
                ),
        ensures
            nis[0] == rank(&self.comparator, self@, key, version) + 1,
            1 <= nis[0] <= self.chain@.len() - 1,
            forall|l: int|
                0 <= l < self.opts.spec_max_height() ==> #[trigger] splice_fits(
                    heights_of(self.arena@, self.chain@),
                    self.chain@,
                    nis[0],
                    l,
                    pis[l],
                    nis[l],
                    prevs[l],
                    nexts[l],
                ),
    {
        self.lemma_inv();
        self.opts.lemma_wf();
        let c = &self.comparator;
        let bytes = self.arena@;
        let chain = self.chain@;
        let hs = heights_of(bytes, chain);
        let s = entries_of(bytes, chain);
        assert(self.is_splice(key, version, 0, pis[0], nis[0], prevs[0], nexts[0]));
        self.lemma_bottom_splice(key, version, pis[0], nis[0], prevs[0], nexts[0]);
        let p = nis[0];
        assert(1 <= p <= chain.len() - 1) by {
            reveal(SkipMap::is_splice);
        }
        assert forall|l: int| 0 <= l < self.opts.spec_max_height() implies #[trigger] splice_fits(
            hs,
            chain,
            p,
            l,
            pis[l],
            nis[l],
            prevs[l],
            nexts[l],
        ) by {
            assert(self.is_splice(key, version, l, pis[l], nis[l], prevs[l], nexts[l]));
            reveal(SkipMap::is_splice);
            let pi = pis[l];
            let ni = nis[l];
            lemma_next_at_is_next(hs, pi, l);
            if pi >= p {
                assert(s[pi - 1] == node_entry(bytes, chain[pi - 1 + 1]));
                assert(!before(c, s[pi - 1], key, version));
            }
            if ni < p {
                assert(s[ni - 1] == node_entry(bytes, chain[ni - 1 + 1]));
                assert(before(c, s[ni - 1], key, version));
            }
        }
    }

    /// Adds a node for `(key, version)`, which the map does not hold yet,
    /// between the neighbours that a descent recorded.
    #[verifier::rlimit(50)]
    pub(crate) fn insert_node(
        &mut self,
        height: u8,
        version: u64,
        key: &[u8],
        value: Option<&[u8]>,
        prevs: &Vec<u32>,
        nexts: &Vec<u32>,
        Ghost(pis): Ghost<Seq<int>>,
        Ghost(nis): Ghost<Seq<int>>,
    ) -> (r: Result<(), ArenaError>)
        requires
            old(self).wf(),
            1 <= height <= old(self).opts.spec_max_height(),
            key@.len() <= MAX_KEY_SIZE,
            opt_len(value) <= MAX_VALUE_SIZE,
            prevs@.len() == MAX_HEIGHT,
            nexts@.len() == MAX_HEIGHT,
            pis.len() == MAX_HEIGHT,
            nis.len() == MAX_HEIGHT,
            forall|l: int|
                0 <= l < old(self).opts.spec_max_height() ==> #[trigger] old(self).is_splice(
                    key@,
                    version,
                    l,
                    pis[l],
                    nis[l],
                    prevs@[l],
                    nexts@[l],
                ),
            !holds_pair(&old(self).comparator, old(self)@, key@, version),
        ensures
            final(self).wf(),
            final(self).opts == old(self).opts,
            final(self).comparator == old(self).comparator,
            final(self).read_only == old(self).read_only,
            final(self).spec_capacity() == old(self).spec_capacity(),
            r is Ok <==> node_fits(
                old(self).spec_allocated(),
                old(self).spec_capacity(),
                height as int,
                key@.len() as int,
                opt_len(value),
            ),
            r is Ok ==> {
                &&& final(self)@ == old(self)@.insert(
                    rank(&old(self).comparator, old(self)@, key@, version),
                    EntrySpec { key: key@, version: version, value: opt_view(value) },
                )
                &&& final(self).spec_allocated() == old(self).spec_allocated() + node_space(
                    height as int,
                    key@.len() as int,
                    opt_len(value),
                ) + 7
                &&& final(self).height == if height > old(self).height {
                    height
                } else {
                    old(self).height
                }
            },
            r matches Err(e) ==> {
                &&& final(self)@ == old(self)@
                &&& final(self).spec_allocated() == old(self).spec_allocated()
                &&& final(self).height == old(self).height
                &&& e == (ArenaError::InsufficientSpace {
                    requested: (node_space(height as int, key@.len() as int, opt_len(value)) + 7
                        + node_reserve(height as int)) as u64,
                    remaining: (old(self).spec_capacity() - old(self).spec_allocated()) as u64,
                })
            },
    {
        proof {
            self.lemma_inv();
            self.lemma_wf();
            self.opts.lemma_wf();
            self.arena.lemma_wf();
            self.lemma_splices_fit(key@, version, prevs@, nexts@, pis, nis);
        }
        let ghost c = &self.comparator;
        let ghost b1 = self.arena@;
        let ghost a1 = self.arena.spec_size() as int;
        let ghost chain0 = self.chain@;
        let ghost tags0 = self.tags@;
        let ghost hs0 = heights_of(b1, chain0);
        let ghost s0 = entries_of(b1, chain0);
        let ghost p = nis[0];
        let ghost old_self = *self;
        let nsize: u32 = node_size(height);
        let klen: u32 = key.len() as u32;
        let vlen: u32 = match value {
            Some(v) => v.len() as u32,
            None => 0,
        };
        let size: u32 = nsize + klen + vlen;
        let reserve: u32 = MAX_NODE_SIZE as u32 - nsize;
        let off: u32 = match self.arena.allocate(size, NODE_ALIGN, reserve) {
            Ok((off, _)) => off,
            Err(e) => {
                proof {
                    self.lemma_inv();
                    assert(self.inv());
                }
                return Err(e);
            },
        };
        proof {
            self.arena.lemma_wf();
        }
        write_node(&mut self.arena, off, height, version, key, value, nexts.as_slice());
        let ghost b2 = self.arena@;
        let ghost a2 = self.arena.spec_size() as int;
        let ghost chain = chain0.insert(p, off as int);
        let ghost tags = tags_with(tags0, off as int, nsize as int);
        proof {
            self.arena.lemma_wf();
            lemma_insert_fresh(b1, b2, a1, a2, tags0, chain0, p, off as int, size as int);
            assert forall|l: int| 0 <= l < height implies #[trigger] splice_fits(
                hs0,
                chain0,
                p,
                l,
                pis[l],
                nis[l],
                prevs@[l],
                nexts@[l],
            ) by {}
        }
        self.chain = Ghost(chain);
        self.tags = Ghost(tags);
        link_levels(
            &mut self.arena,
            off,
            height,
            prevs,
            Ghost(tags),
            Ghost(chain0),
            Ghost(hs0),
            Ghost(p),
            Ghost(pis),
            Ghost(nis),
            Ghost(nexts@),
        );
        self.len = self.len + 1;
        if height > self.height {
            self.height = height;
        }
        if version < self.min_version {
            self.min_version = version;
        }
        if version > self.max_version {
            self.max_version = version;
        }
        proof {
            let b3 = self.arena@;
            let e = EntrySpec { key: key@, version: version, value: opt_view(value) };
            let s = entries_of(b3, chain);
            assert(node_entry(b2, off as int) == e);
            assert(s == s0.insert(p - 1, e));
            old_self.lemma_inv();
            old_self.lemma_bottom_splice(key@, version, pis[0], nis[0], prevs@[0], nexts@[0]);
            lemma_sorted_insert_at_rank(c, s0, e);
            lemma_versions_insert(s0, p - 1, e);
            let last = chain.len() - 1;
            assert(chain[0] == chain0[0]);
            assert(chain[last] == chain0[last - 1]);
            assert forall|j: int| 1 <= j < last implies node_at(b3, #[trigger] chain[j]).height
                <= self.height by {
                assert(node_at(b3, chain[j]) == node_at(b2, chain[j]));
                if j < p {
                    assert(chain[j] == chain0[j]);
                } else if j > p {
                    assert(chain[j] == chain0[j - 1]);
                }
            }
            assert(node_at(b3, chain[0]) == node_at(b2, chain[0]));
            assert(node_at(b3, chain[last]) == node_at(b2, chain[last]));
            assert(self.inv());
            self.lemma_inv();
        }
        Ok(())
    }

    /// Gives the node at `off` another value: the bytes of the new value
    /// are written into fresh space and the node's value word is pointed to
    /// them. Without a value, the node is marked as removed.
    pub(crate) fn update_value(&mut self, off: u32, value: Option<&[u8]>, Ghost(j): Ghost<int>) -> (r:
        Result<(), ArenaError>)
        requires
            old(self).wf(),
            1 <= j < old(self).chain@.len() - 1,
            old(self).chain@[j] == off,
            opt_len(value) <= MAX_VALUE_SIZE,
        ensures
            final(self).wf(),
            final(self).opts == old(self).opts,
            final(self).comparator == old(self).comparator,
            final(self).read_only == old(self).read_only,
            final(self).head == old(self).head,
            final(self).tail == old(self).tail,
            final(self).height == old(self).height,
            final(self).chain@ == old(self).chain@,
            final(self).spec_capacity() == old(self).spec_capacity(),
            r is Ok <==> alloc_fits(
                old(self).spec_allocated(),
                old(self).spec_capacity(),
                opt_len(value) as nat,
                1,
                0,
            ),
            r is Ok ==> {
                &&& final(self)@ == old(self)@.update(
                    j - 1,
                    EntrySpec {
                        key: old(self)@[j - 1].key,
                        version: old(self)@[j - 1].version,
                        value: opt_view(value),
                    },
                )
                &&& final(self).spec_allocated() == old(self).spec_allocated() + opt_len(value)
                &&& final(self).arena@.subrange(
                    node_at(old(self).arena@, off as int).key_offset as int,
                    node_at(old(self).arena@, off as int).key_offset + node_at(
                        old(self).arena@,
                        off as int,
                    ).key_size,
                ) == old(self)@[j - 1].key
                &&& old(self)@[j - 1].value is Some ==> final(self).arena@.subrange(
                    node_at(old(self).arena@, off as int).value_offset as int,
                    node_at(old(self).arena@, off as int).value_offset + node_at(
                        old(self).arena@,
                        off as int,
                    ).value_size,
                ) == old(self)@[j - 1].value->0
            },
            r matches Err(e) ==> {
                &&& final(self)@ == old(self)@
                &&& final(self).spec_allocated() == old(self).spec_allocated()
                &&& final(self).arena@ == old(self).arena@
                &&& e == (ArenaError::InsufficientSpace {
                    requested: opt_len(value) as u64,
                    remaining: (old(self).spec_capacity() - old(self).spec_allocated()) as u64,
                })
            },
    {
        proof {
            self.lemma_inv();
            self.lemma_wf();
            self.arena.lemma_wf();
        }
        let ghost c = &self.comparator;
        let ghost b1 = self.arena@;
        let ghost a1 = self.arena.spec_size() as int;
        let ghost chain = self.chain@;
        let ghost s0 = entries_of(b1, chain);
        let _cap: usize = self.arena.capacity();
        let vlen: u32 = match value {
            Some(v) => v.len() as u32,
            None => 0,
        };
        let voff: u32 = match self.arena.allocate(vlen, 1, 0) {
            Ok((voff, _)) => voff,
            Err(e) => {
                proof {
                    self.lemma_inv();
                    assert(self.inv());
                }
                return Err(e);
            },
        };
        proof {
            self.arena.lemma_wf();
        }
        let vsize: u32 = match value {
            Some(v) => {
                self.arena.put_bytes(voff as usize, v);
                vlen
            },
            None => REMOVED,
        };
        let ghost b2 = self.arena@;
        proof {
            assert(agree_outside(b1, b2, voff as int, voff + vlen));
            assert(node_ok(b1, a1, self.tags@, chain[j]));
            if let Some(v) = value {
                assert(b2.subrange(voff as int, voff + vlen) =~= v@);
            }
        }
        let word: u64 = encode_value(voff, vsize);
        self.arena.store_u64(off as usize, word);
        proof {
            let b3 = self.arena@;
            let a2 = self.arena.spec_size() as int;
            assert(agree_outside(b2, b3, off as int, off + 8));
            lemma_value_update(b1, b2, b3, a1, a2, self.tags@, chain, j, voff as int, vlen as int);
            let e = node_entry(b3, chain[j]);
            assert(s0[j - 1] == node_entry(b1, chain[j - 1 + 1]));
            lemma_sorted_update(c, s0, j - 1, e);
            lemma_versions_update(s0, j - 1, e);
            let last = chain.len() - 1;
            assert(node_at(b3, chain[0]) == node_at(b1, chain[0]));
            assert(node_at(b3, chain[last]) == node_at(b1, chain[last]));
            assert forall|k: int| 1 <= k < last implies node_at(b3, #[trigger] chain[k]).height
                <= self.height by {
                if k != j {
                    assert(node_at(b3, chain[k]) == node_at(b1, chain[k]));
                }
            }
            assert(self.inv());
            self.lemma_inv();
        }
        Ok(())
    }
}

} // verus!
