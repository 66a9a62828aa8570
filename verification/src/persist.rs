//! The persisted form of a map: the number of bytes taken as a
//! little-endian 64-bit integer, followed by the bytes of the arena. All
//! links are offsets, so the bytes mean the same wherever they are loaded.

use vstd::prelude::*;
use vstd::slice::{slice_subrange, slice_to_vec};
use crate::arena::Arena;
use crate::codec::{
    load_u64_le,
    spec_u32_le,
    spec_u64_le,
    u64_to_le_bytes,
    MAX_HEIGHT,
    MAX_KEY_SIZE,
    MAX_VALUE_SIZE,
};
use crate::comparator::Comparator;
use crate::layout::{entries_of, heights_of, links_ok, node_entry, node_ok, store_ok};
use crate::links::{is_next, lemma_is_next_unique, next_at};
use crate::map::SkipMap;
use crate::model::{max_version_of, min_version_of};
use crate::node::{load_next, load_node, node_at, node_next, node_size};
use crate::options::Options;
use crate::error::Error;
use crate::recover::{data_clear, marks_match, meta_ok, read_checked, region_clear, survey};
use crate::sampler::make_rng;

verus! {

/// Walks the bottom level of a skip list and counts its entries, finds
/// their least and greatest version, and the height of the highest tower.
fn measure(
    arena: &Arena,
    head: u32,
    tail: u32,
    Ghost(chain): Ghost<Seq<int>>,
    Ghost(tags): Ghost<Seq<int>>,
    Ghost(bound): Ghost<int>,
) -> (r: (u32, u64, u64, u8))
    requires
        arena.wf(),
        store_ok(arena@, arena.spec_size() as int, tags, chain),
        links_ok(arena@, chain, heights_of(arena@, chain)),
        chain[0] == head,
        chain[chain.len() - 1] == tail,
        24 * chain.len() <= arena.spec_size(),
        1 <= bound,
        forall|j: int| 1 <= j < chain.len() - 1 ==> node_at(arena@, #[trigger] chain[j]).height <= bound,
    ensures
        r.0 == chain.len() - 2,
        r.1 == min_version_of(entries_of(arena@, chain)),
        r.2 == max_version_of(entries_of(arena@, chain)),
        1 <= r.3 <= bound,
        forall|j: int| 1 <= j < chain.len() - 1 ==> node_at(arena@, #[trigger] chain[j]).height <= r.3,
{
    proof {
        arena.lemma_wf();
    }
    let ghost bytes = arena@;
    let ghost last = chain.len() - 1;
    let ghost hs = heights_of(bytes, chain);
    let ghost s = entries_of(bytes, chain);
    let mut count: u32 = 0;
    let mut least: u64 = u64::MAX;
    let mut greatest: u64 = 0;
    let mut height: u8 = 1;
    let mut cur: u32 = head;
    let ghost mut ci: int = 0;
    loop
        invariant
            arena.wf(),
            bytes == arena@,
            last == chain.len() - 1,
            hs == heights_of(bytes, chain),
            s == entries_of(bytes, chain),
            arena@.len() == arena.spec_capacity(),
            arena.spec_size() <= arena.spec_capacity() <= u32::MAX,
            store_ok(bytes, arena.spec_size() as int, tags, chain),
            links_ok(bytes, chain, hs),
            chain[last] == tail,
            24 * chain.len() <= arena.spec_size(),
            0 <= ci < last,
            chain[ci] == cur,
            count == ci,
            least == min_version_of(s.subrange(0, ci)),
            greatest == max_version_of(s.subrange(0, ci)),
            1 <= height <= bound,
            forall|j: int| 1 <= j < chain.len() - 1 ==> node_at(bytes, #[trigger] chain[j]).height
                <= bound,
            forall|j: int| 1 <= j <= ci ==> node_at(bytes, #[trigger] chain[j]).height <= height,
        decreases last - ci,
    {
        proof {
            assert(node_ok(bytes, arena.spec_size() as int, tags, chain[ci]));
            assert(node_ok(bytes, arena.spec_size() as int, tags, chain[ci + 1]));
            assert(hs[ci] == node_at(bytes, chain[ci]).height);
            assert(hs[ci + 1] == node_at(bytes, chain[ci + 1]).height);
            assert(is_next(hs, ci, 0, ci + 1));
            lemma_is_next_unique(hs, ci, 0, ci + 1);
            assert(node_next(bytes, chain[ci], 0) == chain[next_at(hs, ci, 0)]);
        }
        let next: u32 = load_next(arena, cur, 0);
        if next == tail {
            proof {
                if ci + 1 != last {
                    assert(chain[ci + 1] != chain[last]);
                }
                assert(s.subrange(0, ci) =~= s);
            }
            return (count, least, greatest, height);
        }
        proof {
            if ci + 1 == last {
                assert(false);
            }
        }
        let n = load_node(arena, next);
        proof {
            let t = s.subrange(0, ci + 1);
            assert(t.drop_last() =~= s.subrange(0, ci));
            assert(t.last() == s[ci]);
            assert(s[ci] == node_entry(bytes, chain[ci + 1]));
        }
        if n.version < least {
            least = n.version;
        }
        if n.version > greatest {
            greatest = n.version;
        }
        if n.height > height {
            height = n.height;
        }
        count = count + 1;
        cur = next;
        proof {
            ci = ci + 1;
        }
    }
}

impl<C: Comparator> SkipMap<C> {
    /// Whether `bytes` are the persisted form of this map: eight bytes
    /// that hold the number of arena bytes taken, then the arena.
    pub closed spec fn is_image(&self, bytes: Seq<u8>) -> bool {
        &&& bytes.len() == 8 + self.arena@.len()
        &&& spec_u64_le(bytes, 0) == self.arena.spec_size()
        &&& bytes.subrange(8, bytes.len() as int) == self.arena@
    }

    /// The persisted form of the map.
    pub fn to_image(&self) -> (bytes: Vec<u8>)
        requires
            self.wf(),
        ensures
            self.is_image(bytes@),
            bytes@.len() == 8 + self.spec_capacity(),
    {
        proof {
            self.lemma_inv();
            self.arena.lemma_wf();
        }
        let mut out: Vec<u8> = u64_to_le_bytes(self.arena.size() as u64);
        let ghost header = out@;
        out.extend_from_slice(self.arena.as_bytes());
        proof {
            reveal(spec_u64_le);
            reveal(spec_u32_le);
            assert(out@.subrange(8, out@.len() as int) =~= self.arena@);
            assert(out@.subrange(0, 8) =~= header);
            assert(forall|i: int| 0 <= i < 8 ==> out@[i] == header[i]);
        }
        out
    }

    /// Two well-formed maps on the same arena bytes have the same nodes up
    /// to any position that both reach.
    proof fn lemma_same_chain(&self, other: &SkipMap<C>, j: int)
        requires
            self.wf(),
            other.wf(),
            self.arena@ == other.arena@,
            0 <= j < self.chain@.len(),
            j < other.chain@.len(),
        ensures
            self.chain@[j] == other.chain@[j],
        decreases j,
    {
        self.lemma_inv();
        other.lemma_inv();
        if j > 0 {
            self.lemma_same_chain(other, j - 1);
            self.lemma_bottom_chain(j - 1);
            other.lemma_bottom_chain(j - 1);
        }
    }

    /// Two well-formed maps on the same arena bytes hold the same entries.
    proof fn lemma_same_entries(&self, other: &SkipMap<C>)
        requires
            self.wf(),
            other.wf(),
            self.arena@ == other.arena@,
        ensures
            self@ == other@,
    {
        self.lemma_inv();
        other.lemma_inv();
        let n1 = self.chain@.len() as int;
        let n2 = other.chain@.len() as int;
        if n1 < n2 {
            self.lemma_same_chain(other, n1 - 1);
            assert(other.chain@[n1 - 1] != other.chain@[n2 - 1]);
        } else if n2 < n1 {
            self.lemma_same_chain(other, n2 - 1);
            assert(self.chain@[n2 - 1] != self.chain@[n1 - 1]);
        }
        assert forall|j: int| 0 <= j < n1 implies self.chain@[j] == other.chain@[j] by {
            self.lemma_same_chain(other, j);
        }
        assert(self.chain@ =~= other.chain@);
    }

    /// The persisted form determines the entries: two well-formed maps
    /// with the same persisted form hold the same entries, and with them
    /// the same number of entries and the same least and greatest
    /// version; the same number of arena bytes is taken in both.
    pub proof fn lemma_image_determines_entries(&self, other: &SkipMap<C>, bytes: Seq<u8>)
        requires
            self.wf(),
            other.wf(),
            self.is_image(bytes),
            other.is_image(bytes),
        ensures
            self@ == other@,
            self@.len() == other@.len(),
            min_version_of(self@) == min_version_of(other@),
            max_version_of(self@) == max_version_of(other@),
            self.spec_allocated() == other.spec_allocated(),
            self.spec_capacity() == other.spec_capacity(),
    {
        self.lemma_inv();
        other.lemma_inv();
        self.arena.lemma_wf();
        other.arena.lemma_wf();
        self.lemma_same_entries(other);
    }

    /// The map whose persisted form `bytes` are. It holds the entries that
    /// the persisted map held. A read-only map refuses every write.
    pub fn from_image(bytes: &[u8], comparator: C, read_only: bool) -> (r: Self)
        requires
            exists|m: SkipMap<C>|
                m.wf() && #[trigger] m.is_image(bytes@) && *m.spec_comparator() == comparator,
        ensures
            r.wf(),
            r.is_image(bytes@),
            *r.spec_comparator() == comparator,
            r.spec_read_only() == read_only,
            r.spec_capacity() == bytes@.len() - 8,
            r.spec_options().spec_capacity() == bytes@.len() - 8,
            r.spec_options().spec_max_height() == r.spec_tower_height(8),
            r.spec_options().spec_max_key_size() == MAX_KEY_SIZE,
            r.spec_options().spec_max_value_size() == MAX_VALUE_SIZE,
            r.spec_options().spec_seed() is None,
            forall|m: SkipMap<C>|
                m.wf() && #[trigger] m.is_image(bytes@) ==> r@ == m@ && r.spec_allocated()
                    == m.spec_allocated() && r.spec_capacity() == m.spec_capacity(),
    {
        let ghost m0: SkipMap<C> = choose|m: SkipMap<C>|
            m.wf() && #[trigger] m.is_image(bytes@) && *m.spec_comparator() == comparator;
        proof {
            m0.lemma_inv();
            m0.arena.lemma_wf();
            m0.opts.lemma_wf();
        }
        let n: usize = bytes.len();
        let allocated: u64 = load_u64_le(bytes, 0);
        let data: Vec<u8> = slice_to_vec(slice_subrange(bytes, 8, n));
        let arena = Arena::from_parts(data, allocated);
        proof {
            arena.lemma_wf();
            let last = m0.chain@.len() - 1;
            assert(node_ok(m0.arena@, m0.arena.spec_size() as int, m0.tags@, m0.chain@[0]));
            assert(node_ok(m0.arena@, m0.arena.spec_size() as int, m0.tags@, m0.chain@[last]));
        }
        let head: u32 = 8;
        let head_node = load_node(&arena, head);
        let max_height: u8 = head_node.height;
        let nsize: u32 = node_size(max_height);
        let start: u32 = nsize + 15;
        let tail: u32 = start - start % 8;
        let (len, min_version, max_version, height) = measure(
            &arena,
            head,
            tail,
            Ghost(m0.chain@),
            Ghost(m0.tags@),
            Ghost(m0.height as int),
        );
        let capacity: u32 = arena.capacity() as u32;
        let opts = Options::new().with_capacity(capacity).with_max_height(max_height);
        let rng = make_rng(None);
        let map = SkipMap {
            arena,
            comparator,
            opts,
            head,
            tail,
            height,
            len,
            min_version,
            max_version,
            read_only,
            rng,
            chain: Ghost(m0.chain@),
            tags: Ghost(m0.tags@),
        };
        proof {
            map.opts.lemma_wf();
            assert(map.inv());
            map.lemma_inv();
            assert forall|m: SkipMap<C>| m.wf() && #[trigger] m.is_image(bytes@) implies map@ == m@
                && map.spec_allocated() == m.spec_allocated() && map.spec_capacity()
                == m.spec_capacity() by {
                m.lemma_inv();
                m.arena.lemma_wf();
                map.lemma_same_entries(&m);
            }
        }
        map
    }

    /// Makes a map of `bytes` if they are the persisted form of one, which
    /// is checked in full: the header, the place of every node, key and
    /// value, the order of the entries and every link of every tower. The
    /// persisted form of every well-formed map with this comparator is
    /// accepted.
    pub fn open_image(bytes: &[u8], comparator: C, read_only: bool) -> (r: Result<Self, Error>)
        ensures
            (exists|m: SkipMap<C>|
                m.wf() && #[trigger] m.is_image(bytes@) && *m.spec_comparator() == comparator)
                ==> r is Ok,
            r matches Ok(m) ==> {
                &&& m.wf()
                &&& m.is_image(bytes@)
                &&& *m.spec_comparator() == comparator
                &&& m.spec_read_only() == read_only
                &&& m.spec_capacity() == bytes@.len() - 8
                &&& m.spec_options().spec_capacity() == bytes@.len() - 8
                &&& m.spec_options().spec_max_height() == m.spec_tower_height(8)
                &&& m.spec_options().spec_max_key_size() == MAX_KEY_SIZE
                &&& m.spec_options().spec_max_value_size() == MAX_VALUE_SIZE
                &&& m.spec_options().spec_seed() is None
                &&& forall|o: SkipMap<C>|
                    o.wf() && #[trigger] o.is_image(bytes@) ==> m@ == o@ && m.spec_allocated()
                        == o.spec_allocated()
            },
            r matches Err(e) ==> e == Error::Corrupt,
    {
        let ghost valid: bool = exists|m: SkipMap<C>|
            m.wf() && #[trigger] m.is_image(bytes@) && *m.spec_comparator() == comparator;
        let ghost m0: SkipMap<C> = choose|m: SkipMap<C>|
            m.wf() && #[trigger] m.is_image(bytes@) && *m.spec_comparator() == comparator;
        proof {
            if valid {
                m0.lemma_inv();
                m0.arena.lemma_wf();
                m0.opts.lemma_wf();
                assert(node_ok(m0.arena@, m0.arena.spec_size() as int, m0.tags@, m0.chain@[0]));
            }
        }
        let n: usize = bytes.len();
        if n < 9 || n - 8 > u32::MAX as usize {
            return Err(Error::Corrupt);
        }
        let allocated: u64 = load_u64_le(bytes, 0);
        if allocated < 1 || allocated > (n - 8) as u64 {
            return Err(Error::Corrupt);
        }
        let data: Vec<u8> = slice_to_vec(slice_subrange(bytes, 8, n));
        let arena = Arena::from_parts(data, allocated);
        proof {
            arena.lemma_wf();
        }
        let head: u32 = 8;
        let head_node = match read_checked(&arena, head, MAX_HEIGHT as u8) {
            Some(node) => node,
            None => {
                return Err(Error::Corrupt);
            },
        };
        let top: u8 = head_node.height;
        let nsize: u32 = node_size(top);
        if 1 + 2 * (nsize as u64 + 7) > allocated {
            return Err(Error::Corrupt);
        }
        let start: u32 = nsize + 15;
        let tail: u32 = start - start % 8;
        let s = match survey(&arena, &comparator, tail, top, Ghost(m0), Ghost(valid)) {
            Some(s) => s,
            None => {
                return Err(Error::Corrupt);
            },
        };
        let ghost image = arena@;
        let ghost taken = arena.spec_size() as int;
        let ghost chain = s.chain(tail);
        let ghost tags = s.tags@;
        // keys and values must not overlap headers or towers
        let count: usize = s.nodes.len();
        let mut j: usize = 0;
        while j <= count
            invariant
                arena.wf(),
                image == arena@,
                taken == arena.spec_size(),
                taken <= arena.spec_capacity() <= u32::MAX,
                image.len() == arena.spec_capacity(),
                count == s.nodes@.len(),
                24 * (count + 1) <= taken,
                j <= count + 1,
                chain == s.chain(tail),
                chain.len() == count + 1,
                tags == s.tags@,
                s.marks@.len() == image.len(),
                marks_match(s.marks@, tags),
                forall|i: int| 0 <= i < chain.len() ==> meta_ok(image, taken, tags, #[trigger] chain[i]),
                forall|i: int| 0 <= i < j ==> data_clear(image, tags, #[trigger] chain[i]),
                valid == (exists|m: SkipMap<C>|
                    m.wf() && #[trigger] m.is_image(bytes@) && *m.spec_comparator()
                        == comparator),
                valid ==> m0.wf() && m0.inv() && m0.arena@ == image && m0.arena.spec_size() == taken
                    && chain == m0.chain@,
                valid ==> forall|p: int|
                    0 <= p < tags.len() && #[trigger] tags[p] != 0 ==> m0.tags@[p] != 0,
            decreases count + 1 - j,
        {
            let off: u32 = if j < count {
                s.nodes[j]
            } else {
                tail
            };
            proof {
                assert(chain[j as int] == off);
                assert(meta_ok(image, taken, tags, chain[j as int]));
            }
            let node = load_node(&arena, off);
            proof {
                if valid {
                    assert(node_ok(image, taken, m0.tags@, m0.chain@[j as int]));
                }
            }
            if !region_clear(&s.marks, node.key_offset as usize, node.key_size as usize) {
                proof {
                    if valid {
                        let q = choose|q: int|
                            node.key_offset <= q < node.key_offset + node.key_size
                                && #[trigger] s.marks@[q];
                        assert(tags[q] != 0);
                        assert(m0.tags@[q] == 0);
                        assert(false);
                    }
                }
                return Err(Error::Corrupt);
            }
            if !node.removed() && !region_clear(
                &s.marks,
                node.value_offset as usize,
                node.value_size as usize,
            ) {
                proof {
                    if valid {
                        let q = choose|q: int|
                            node.value_offset <= q < node.value_offset + node.value_size
                                && #[trigger] s.marks@[q];
                        assert(tags[q] != 0);
                        assert(m0.tags@[q] == 0);
                        assert(false);
                    }
                }
                return Err(Error::Corrupt);
            }
            proof {
                assert(data_clear(image, tags, off as int)) by {
                    let m = node_at(image, off as int);
                    assert forall|p: int|
                        m.key_offset <= p < m.key_offset + m.key_size implies #[trigger] tags[p]
                        == 0 by {
                        assert(!s.marks@[p]);
                    }
                    if !m.removed() {
                        assert forall|p: int|
                            m.value_offset <= p < m.value_offset
                                + m.value_size implies #[trigger] tags[p] == 0 by {
                            assert(!s.marks@[p]);
                        }
                    }
                }
            }
            j = j + 1;
        }
        let capacity: u32 = arena.capacity() as u32;
        let opts = Options::new().with_capacity(capacity).with_max_height(top);
        let rng = make_rng(None);
        let map = SkipMap {
            arena,
            comparator,
            opts,
            head,
            tail,
            height: s.height,
            len: (count - 1) as u32,
            min_version: s.least,
            max_version: s.greatest,
            read_only,
            rng,
            chain: Ghost(chain),
            tags: Ghost(tags),
        };
        proof {
            map.opts.lemma_wf();
            assert forall|i: int| 0 <= i < chain.len() implies node_ok(
                image,
                taken,
                tags,
                #[trigger] chain[i],
            ) by {
                assert(meta_ok(image, taken, tags, chain[i]));
                assert(data_clear(image, tags, chain[i]));
            }
            assert(store_ok(image, taken, tags, chain));
            assert(chain[0] == 8);
            assert(map.inv());
            map.lemma_inv();
            assert forall|o: SkipMap<C>| o.wf() && #[trigger] o.is_image(bytes@) implies map@ == o@
                && map.spec_allocated() == o.spec_allocated() by {
                o.lemma_inv();
                o.arena.lemma_wf();
                map.lemma_same_entries(&o);
            }
        }
        Ok(map)
    }
}

} // verus!
