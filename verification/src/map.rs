//! The skip list itself: a handle on an arena whose bytes hold the nodes.

use vstd::prelude::*;
use crate::arena::{alloc_offset, Arena};
use crate::codec::MAX_HEIGHT;
use crate::comparator::{Ascend, Comparator};
use crate::error::{ArenaError, Error};
use crate::layout::{entries_of, heights_of, links_ok, node_ok, store_ok};
use crate::links::next_at;
use crate::model::{max_version_of, min_version_of, sorted, EntrySpec};
use crate::node::{
    lemma_header_frame,
    lemma_u32_frame,
    node_at,
    node_next,
    node_size,
    spec_node_size,
    write_node,
    NODE_ALIGN,
};
use crate::options::Options;
use crate::sampler::make_rng;

verus! {

/// An ordered map from `(key, version)` to values, with all of its storage
/// in one arena.
pub struct SkipMap<C: Comparator = Ascend> {
    pub(crate) arena: Arena,
    pub(crate) comparator: C,
    pub(crate) opts: Options,
    pub(crate) head: u32,
    pub(crate) tail: u32,
    pub(crate) height: u8,
    pub(crate) len: u32,
    pub(crate) min_version: u64,
    pub(crate) max_version: u64,
    pub(crate) read_only: bool,
    pub(crate) rng: rand::rngs::StdRng,
    /// The offsets of the nodes along the bottom level, from head to tail.
    pub(crate) chain: Ghost<Seq<int>>,
    /// For every byte of the arena, the node to whose header or tower it
    /// belongs (0: to none).
    pub(crate) tags: Ghost<Seq<int>>,
}

/// What an arena needs to hold the two sentinel nodes of a map whose towers
/// reach `max_height`.
pub open spec fn sentinel_space(max_height: int) -> int {
    1 + 2 * (spec_node_size(max_height) + 7)
}

/// Where the head node lies in every arena.
pub open spec fn head_offset() -> int {
    8
}

/// Where the tail node lies in an arena whose towers reach `max_height`:
/// at the first aligned offset behind the head.
pub open spec fn tail_offset(max_height: int) -> int {
    alloc_offset(
        (spec_node_size(max_height) + 8) as nat,
        spec_node_size(max_height) as nat,
        8,
    ) as int
}

impl<C: Comparator> View for SkipMap<C> {
    type V = Seq<EntrySpec>;

    /// The entries of the map in their order: by key, and within one key
    /// from the newest version to the oldest.
    closed spec fn view(&self) -> Seq<EntrySpec> {
        entries_of(self.arena@, self.chain@)
    }
}

impl<C: Comparator> SkipMap<C> {
    /// The number of arena bytes taken so far.
    pub closed spec fn spec_allocated(&self) -> nat {
        self.arena.spec_size()
    }

    /// The capacity of the arena.
    pub closed spec fn spec_capacity(&self) -> nat {
        self.arena.spec_capacity()
    }

    /// The height of the highest tower so far.
    pub closed spec fn spec_height(&self) -> u8 {
        self.height
    }

    /// The settings that the map was built with.
    pub closed spec fn spec_options(&self) -> Options {
        self.opts
    }

    /// The comparator that orders the keys.
    pub closed spec fn spec_comparator(&self) -> &C {
        &self.comparator
    }

    /// Whether the map refuses changes.
    pub closed spec fn spec_read_only(&self) -> bool {
        self.read_only
    }

    /// The offsets of the nodes along the bottom level: first the head, then
    /// the node of each entry in order, last the tail.
    pub closed spec fn spec_nodes(&self) -> Seq<int> {
        self.chain@
    }

    /// The number of levels in which the node at `off` takes part.
    pub closed spec fn spec_tower_height(&self, off: int) -> u8 {
        node_at(self.arena@, off).height
    }

    /// Where the link of the node at `off` at `level` points.
    pub closed spec fn spec_link(&self, off: int, level: int) -> u32 {
        node_next(self.arena@, off, level)
    }

    /// The map's invariant: the bytes of the arena are a skip list whose
    /// bottom level holds the entries in strict order, every link of every
    /// tower points to the nearest following node that reaches its level,
    /// and the counters agree with the entries.
    pub closed spec fn wf(&self) -> bool {
        self.inv()
    }

    /// The invariant, spelled out.
    pub(crate) open spec fn inv(&self) -> bool {
        let bytes = self.arena@;
        let chain = self.chain@;
        let last = chain.len() - 1;
        &&& self.arena.wf()
        &&& self.opts.wf()
        &&& store_ok(bytes, self.arena.spec_size() as int, self.tags@, chain)
        &&& links_ok(bytes, chain, heights_of(bytes, chain))
        &&& sorted(&self.comparator, entries_of(bytes, chain))
        &&& chain[0] == self.head
        &&& chain[last] == self.tail
        &&& self.head == head_offset()
        &&& self.tail == tail_offset(self.opts.spec_max_height() as int)
        &&& node_at(bytes, self.head as int).height == self.opts.spec_max_height()
        &&& node_at(bytes, self.tail as int).height == self.opts.spec_max_height()
        &&& 1 <= self.height <= self.opts.spec_max_height()
        &&& forall|j: int| 1 <= j < last ==> node_at(bytes, #[trigger] chain[j]).height <= self.height
        &&& self.len == chain.len() - 2
        &&& 24 * chain.len() <= self.arena.spec_size()
        &&& sentinel_space(self.opts.spec_max_height() as int) <= self.arena.spec_size()
        &&& self.min_version == min_version_of(entries_of(bytes, chain))
        &&& self.max_version == max_version_of(entries_of(bytes, chain))
    }

    /// The invariant as the rest of the crate sees it.
    pub(crate) proof fn lemma_inv(&self)
        ensures
            self.wf() == self.inv(),
            self@ == entries_of(self.arena@, self.chain@),
            self.spec_allocated() == self.arena.spec_size(),
            self.spec_capacity() == self.arena.spec_capacity(),
            self.spec_height() == self.height,
            self.spec_options() == self.opts,
            self.spec_comparator() == &self.comparator,
            self.spec_read_only() == self.read_only,
            self.spec_nodes() == self.chain@,
            forall|off: int| #[trigger] self.spec_tower_height(off) == node_at(self.arena@, off).height,
            forall|off: int, level: int|
                #[trigger] self.spec_link(off, level) == node_next(self.arena@, off, level),
    {
    }

    /// What the invariant says over the public names: the entries are in
    /// strict order, the allocation is within the capacity, and the height
    /// within the limit.
    pub proof fn lemma_wf(&self)
        requires
            self.wf(),
        ensures
            sorted(self.spec_comparator(), self@),
            1 <= self.spec_allocated() <= self.spec_capacity() <= u32::MAX,
            1 <= self.spec_height() <= self.spec_options().spec_max_height() <= MAX_HEIGHT,
            self.spec_options().wf(),
            self@.len() < u32::MAX,
    {
        self.arena.lemma_wf();
        self.opts.lemma_wf();
    }

    /// Lays the two sentinel nodes into an arena of which nothing is taken
    /// yet: head and tail, both of full height, with every link of the
    /// head pointing to the tail.
    pub(crate) fn lay_sentinels(arena: &mut Arena, max_height: u8) -> (r: Result<
        (u32, u32, Ghost<Seq<int>>),
        ArenaError,
    >)
        requires
            old(arena).wf(),
            old(arena).spec_size() == 1,
            1 <= max_height <= MAX_HEIGHT,
        ensures
            final(arena).wf(),
            final(arena).spec_capacity() == old(arena).spec_capacity(),
            r is Ok <==> sentinel_space(max_height as int) <= old(arena).spec_capacity(),
            r matches Ok((head, tail, tags)) ==> {
                let chain = seq![head as int, tail as int];
                &&& final(arena).spec_size() == sentinel_space(max_height as int)
                &&& store_ok(final(arena)@, final(arena).spec_size() as int, tags@, chain)
                &&& links_ok(final(arena)@, chain, heights_of(final(arena)@, chain))
                &&& entries_of(final(arena)@, chain) == Seq::<EntrySpec>::empty()
                &&& node_at(final(arena)@, head as int).height == max_height
                &&& node_at(final(arena)@, tail as int).height == max_height
                &&& head == head_offset()
                &&& tail == tail_offset(max_height as int)
            },
            r matches Err(e) ==> e == (ArenaError::InsufficientSpace {
                requested: (spec_node_size(max_height as int) + 7) as u64,
                remaining: (old(arena).spec_capacity() - final(arena).spec_size()) as u64,
            }) && (final(arena).spec_size() == 1 || final(arena).spec_size() == 1 + spec_node_size(
                max_height as int,
            ) + 7),
    {
        proof {
            arena.lemma_wf();
        }
        let nsize: u32 = node_size(max_height);
        let head: u32 = match arena.allocate(nsize, NODE_ALIGN, 0) {
            Ok((off, _)) => off,
            Err(e) => {
                return Err(e);
            },
        };
        let tail: u32 = match arena.allocate(nsize, NODE_ALIGN, 0) {
            Ok((off, _)) => off,
            Err(e) => {
                return Err(e);
            },
        };
        proof {
            arena.lemma_wf();
        }
        let to_tail: Vec<u32> = vec![tail; MAX_HEIGHT];
        let to_nil: Vec<u32> = vec![0u32; MAX_HEIGHT];
        let empty: Vec<u8> = Vec::new();
        write_node(arena, head, max_height, 0, empty.as_slice(), None, to_tail.as_slice());
        let ghost b1 = arena@;
        write_node(arena, tail, max_height, 0, empty.as_slice(), None, to_nil.as_slice());
        let ghost b2 = arena@;
        let ghost chain: Seq<int> = seq![head as int, tail as int];
        let ghost ns: int = nsize as int;
        let ghost tags: Seq<int> = Seq::new(
            b2.len(),
            |p: int|
                if head <= p < head + ns {
                    head as int
                } else if tail <= p < tail + ns {
                    tail as int
                } else {
                    0int
                },
        );
        proof {
            arena.lemma_wf();
            let h = head as int;
            let t = tail as int;
            // the head reads after the second write as after the first
            lemma_header_frame(b1, b2, t, t + ns, h);
            assert forall|l: int| 0 <= l < max_height implies #[trigger] node_next(b2, h, l)
                == tail by {
                assert(node_next(b1, h, l) == to_tail@[l]);
                lemma_u32_frame(b1, b2, t, t + ns, h + 24 + 4 * l);
            }
            let hs = heights_of(b2, chain);
            assert(chain[0] == h && chain[1] == t);
            assert forall|j: int, level: int|
                0 <= j < chain.len() - 1 && 0 <= level < hs[j] implies #[trigger] node_next(
                b2,
                chain[j],
                level,
            ) == chain[next_at(hs, j, level)] by {
                assert(j == 0);
                assert(next_at(hs, 0, level) == 1);
            }
            assert(node_ok(b2, arena.spec_size() as int, tags, h));
            assert(node_ok(b2, arena.spec_size() as int, tags, t));
            assert(entries_of(b2, chain) =~= Seq::<EntrySpec>::empty());
            assert(store_ok(b2, arena.spec_size() as int, tags, chain));
        }
        Ok((head, tail, Ghost(tags)))
    }

    /// A fresh map on an arena of its own.
    pub(crate) fn build(opts: Options, comparator: C) -> (r: Result<Self, Error>)
        requires
            opts.wf(),
        ensures
            r is Ok <==> sentinel_space(opts.spec_max_height() as int) <= (if opts.spec_capacity()
                == 0 {
                1
            } else {
                opts.spec_capacity() as int
            }),
            r matches Ok(m) ==> {
                &&& m.wf()
                &&& m@ == Seq::<EntrySpec>::empty()
                &&& m.spec_options() == opts
                &&& *m.spec_comparator() == comparator
                &&& m.spec_capacity() == (if opts.spec_capacity() == 0 {
                    1
                } else {
                    opts.spec_capacity() as nat
                })
                &&& m.spec_allocated() == sentinel_space(opts.spec_max_height() as int)
                &&& m.spec_height() == 1
                &&& !m.spec_read_only()
            },
            r matches Err(e) ==> e is Arena,
    {
        proof {
            opts.lemma_wf();
        }
        let mut arena = Arena::new(opts.capacity());
        let (head, tail, Ghost(tags)) = match SkipMap::<C>::lay_sentinels(
            &mut arena,
            opts.max_height(),
        ) {
            Ok(r) => r,
            Err(e) => {
                return Err(Error::Arena(e));
            },
        };
        let rng = make_rng(opts.seed());
        let ghost chain: Seq<int> = seq![head as int, tail as int];
        let map = SkipMap {
            arena,
            comparator,
            opts,
            head,
            tail,
            height: 1,
            len: 0,
            min_version: u64::MAX,
            max_version: 0,
            read_only: false,
            rng,
            chain: Ghost(chain),
            tags: Ghost(tags),
        };
        proof {
            map.arena.lemma_wf();
            assert(map.inv());
        }
        Ok(map)
    }

    /// Forgets every entry: the arena is taken back to its start and the
    /// two sentinel nodes are laid anew. A read-only map refuses.
    pub fn clear(&mut self) -> (r: Result<(), Error>)
        requires
            old(self).wf(),
        ensures
            final(self).wf(),
            final(self).spec_options() == old(self).spec_options(),
            final(self).spec_comparator() == old(self).spec_comparator(),
            final(self).spec_read_only() == old(self).spec_read_only(),
            final(self).spec_capacity() == old(self).spec_capacity(),
            r is Ok <==> !old(self).spec_read_only(),
            r is Ok ==> {
                &&& final(self)@ == Seq::<EntrySpec>::empty()
                &&& final(self).spec_height() == 1
                &&& final(self).spec_allocated() == sentinel_space(
                    old(self).spec_options().spec_max_height() as int,
                )
            },
            r matches Err(e) ==> {
                &&& e == Error::ReadOnly
                &&& final(self)@ == old(self)@
                &&& final(self).spec_height() == old(self).spec_height()
                &&& final(self).spec_allocated() == old(self).spec_allocated()
            },
    {
        proof {
            self.opts.lemma_wf();
            self.arena.lemma_wf();
        }
        if self.read_only {
            return Err(Error::ReadOnly);
        }
        self.arena.reset();
        match SkipMap::<C>::lay_sentinels(&mut self.arena, self.opts.max_height()) {
            Ok((head, tail, gtags)) => {
                let ghost tags = gtags@;
                let ghost chain: Seq<int> = seq![head as int, tail as int];
                self.head = head;
                self.tail = tail;
                self.height = 1;
                self.len = 0;
                self.min_version = u64::MAX;
                self.max_version = 0;
                self.chain = Ghost(chain);
                self.tags = Ghost(tags);
                proof {
                    self.arena.lemma_wf();
                    assert(self.inv());
                }
                Ok(())
            },
            Err(_) => {
                proof {
                    assert(false);
                }
                Err(Error::ReadOnly)
            },
        }
    }

    /// The comparator that orders the keys.
    pub fn comparator(&self) -> (c: &C)
        ensures
            c == self.spec_comparator(),
    {
        &self.comparator
    }

    /// The number of entries, removal marks and all versions counted.
    pub fn len(&self) -> (n: usize)
        requires
            self.wf(),
        ensures
            n == self@.len(),
    {
        self.len as usize
    }

    /// Whether the map holds no entry.
    pub fn is_empty(&self) -> (b: bool)
        requires
            self.wf(),
        ensures
            b == (self@.len() == 0),
    {
        self.len == 0
    }

    /// The capacity of the arena in bytes.
    pub fn capacity(&self) -> (n: usize)
        ensures
            n == self.spec_capacity(),
    {
        self.arena.capacity()
    }

    /// The number of arena bytes taken so far.
    pub fn allocated(&self) -> (n: usize)
        requires
            self.wf(),
        ensures
            n == self.spec_allocated(),
    {
        self.arena.size()
    }

    /// The number of arena bytes that are still free.
    pub fn remaining(&self) -> (n: usize)
        requires
            self.wf(),
        ensures
            n == self.spec_capacity() - self.spec_allocated(),
    {
        self.arena.remaining()
    }

    /// The height of the highest tower so far.
    pub fn height(&self) -> (h: u8)
        ensures
            h == self.spec_height(),
    {
        self.height
    }

    /// The lowest version among the entries, `u64::MAX` if there is none.
    pub fn min_version(&self) -> (v: u64)
        requires
            self.wf(),
        ensures
            v == min_version_of(self@),
    {
        self.min_version
    }

    /// The highest version among the entries, 0 if there is none.
    pub fn max_version(&self) -> (v: u64)
        requires
            self.wf(),
        ensures
            v == max_version_of(self@),
    {
        self.max_version
    }

    /// Whether the map refuses changes.
    pub fn is_read_only(&self) -> (b: bool)
        ensures
            b == self.spec_read_only(),
    {
        self.read_only
    }

    /// The settings that the map was built with.
    pub fn options(&self) -> (o: Options)
        ensures
            o == self.spec_options(),
    {
        self.opts
    }
}

} // verus!
