//! Checking that bytes are the persisted form of a map before a map is
//! made of them.

use vstd::prelude::*;
use crate::arena::Arena;
use crate::codec::MAX_HEIGHT;
use crate::comparator::{Comparator, Order};
use crate::layout::{entries_of, heights_of, links_ok, node_entry, node_ok, tags_with};
use crate::links::{is_next, lemma_is_next_unique, lemma_next_at_is_next, next_at};
use crate::map::{sentinel_space, tail_offset, SkipMap};
use crate::model::{
    before,
    lemma_sorted_push,
    max_version_of,
    min_version_of,
    pair_order,
    sorted,
    EntrySpec,
};
use crate::node::{
    load_next,
    load_node,
    node_at,
    node_key,
    node_next,
    node_size,
    NodeView,
};

verus! {

/// Every link whose target lies before position `n` of the chain points
/// where it has to.
pub open spec fn links_upto(bytes: Seq<u8>, chain: Seq<int>, hs: Seq<int>, n: int) -> bool {
    forall|j: int, level: int|
        0 <= j < n && 0 <= level < hs[j] && next_at(hs, j, level) < n ==> #[trigger] node_next(
            bytes,
            chain[j],
            level,
        ) == chain[next_at(hs, j, level)]
}

/// Whether `li` is the last position before `n` that takes part in
/// `level`.
pub open spec fn is_last_at(hs: Seq<int>, n: int, level: int, li: int) -> bool {
    &&& 0 <= li < n
    &&& hs[li] > level
    &&& forall|m: int| li < m < n ==> #[trigger] hs[m] <= level
}

/// A node whose predecessors at each of its levels link to it can be
/// appended to the chain: all links whose targets lie within the longer
/// chain point where they have to.
pub proof fn lemma_links_append(
    bytes: Seq<u8>,
    vis: Seq<int>,
    hs: Seq<int>,
    tail: int,
    x: int,
    hx: int,
    lasts: Seq<int>,
)
    requires
        vis.len() >= 1,
        hs.len() == vis.len() + 1,
        links_upto(bytes, vis.push(tail), hs, vis.len() as int),
        1 <= hx,
        lasts.len() >= hx,
        forall|l: int| 0 <= l < hx ==> #[trigger] is_last_at(hs, vis.len() as int, l, lasts[l]),
        forall|l: int| 0 <= l < hx ==> #[trigger] node_next(bytes, vis[lasts[l]], l) == x,
    ensures
        links_upto(
            bytes,
            vis.push(x).push(tail),
            hs.insert(vis.len() as int, hx),
            vis.len() as int + 1,
        ),
{
    let p = vis.len() as int;
    let c1 = vis.push(tail);
    let c2 = vis.push(x).push(tail);
    let hs2 = hs.insert(p, hx);
    assert forall|j: int, level: int|
        0 <= j < p + 1 && 0 <= level < hs2[j] && next_at(hs2, j, level) < p + 1 implies #[trigger] node_next(
        bytes,
        c2[j],
        level,
    ) == c2[next_at(hs2, j, level)] by {
        let k = next_at(hs2, j, level);
        if j < p {
            lemma_next_at_is_next(hs2, j, level);
            assert(hs2[j] == hs[j]);
            assert(c2[j] == c1[j]);
            assert forall|m: int| j < m < k implies #[trigger] hs[m] <= level by {
                assert(hs2[m] == hs[m]);
            }
            if k < p {
                assert(hs2[k] == hs[k]);
                assert(is_next(hs, j, level, k));
                lemma_is_next_unique(hs, j, level, k);
                assert(node_next(bytes, c1[j], level) == c1[next_at(hs, j, level)]);
                assert(c2[k] == c1[k]);
            } else {
                // the target is the new node: j is the last before it on this level
                assert(hs2[p] == hx);
                assert(is_last_at(hs, p, level, lasts[level]));
                let li = lasts[level];
                if li < j {
                    assert(hs[j] <= level);
                } else if li > j {
                    assert(hs[li] <= level);
                }
                assert(node_next(bytes, vis[lasts[level]], level) == x);
            }
        }
    }
}

/// When the last node of every level links to the tail, all links of the
/// chain point where they have to.
pub proof fn lemma_links_close(
    bytes: Seq<u8>,
    vis: Seq<int>,
    hs: Seq<int>,
    tail: int,
    top: int,
    lasts: Seq<int>,
)
    requires
        vis.len() >= 1,
        hs.len() == vis.len() + 1,
        links_upto(bytes, vis.push(tail), hs, vis.len() as int),
        lasts.len() >= top,
        forall|j: int| 0 <= j < vis.len() ==> #[trigger] hs[j] <= top,
        forall|l: int| 0 <= l < top ==> #[trigger] is_last_at(hs, vis.len() as int, l, lasts[l]),
        forall|l: int| 0 <= l < top ==> #[trigger] node_next(bytes, vis[lasts[l]], l) == tail,
    ensures
        forall|j: int, level: int|
            0 <= j < vis.len() && 0 <= level < hs[j] ==> #[trigger] node_next(
                bytes,
                vis.push(tail)[j],
                level,
            ) == vis.push(tail)[next_at(hs, j, level)],
{
    let p = vis.len() as int;
    let c1 = vis.push(tail);
    assert forall|j: int, level: int| 0 <= j < p && 0 <= level < hs[j] implies #[trigger] node_next(
        bytes,
        c1[j],
        level,
    ) == c1[next_at(hs, j, level)] by {
        let k = next_at(hs, j, level);
        lemma_next_at_is_next(hs, j, level);
        if k == p {
            assert(is_last_at(hs, p, level, lasts[level]));
            let li = lasts[level];
            if li < j {
                assert(hs[j] <= level);
            } else if li > j {
                assert(hs[li] <= level);
            }
            assert(node_next(bytes, vis[lasts[level]], level) == tail);
        }
    }
}

/// The node at `off` lies inside the allocated part of the arena, and so
/// do its key and its value; the bytes of its header and tower carry its
/// offset as their tag.
pub open spec fn meta_ok(bytes: Seq<u8>, allocated: int, tags: Seq<int>, off: int) -> bool {
    let n = node_at(bytes, off);
    &&& 1 <= off
    &&& 1 <= n.height <= MAX_HEIGHT
    &&& off + n.size() <= allocated
    &&& 1 <= n.key_offset
    &&& n.key_offset + n.key_size <= allocated
    &&& !n.removed() ==> 1 <= n.value_offset && n.value_offset + n.value_size <= allocated
    &&& forall|p: int| off <= p < off + n.size() ==> #[trigger] tags[p] == off
}

/// The bytes of the key and of the value of the node at `off` carry no
/// tag.
pub open spec fn data_clear(bytes: Seq<u8>, tags: Seq<int>, off: int) -> bool {
    let n = node_at(bytes, off);
    &&& forall|p: int| n.key_offset <= p < n.key_offset + n.key_size ==> #[trigger] tags[p] == 0
    &&& !n.removed() ==> forall|p: int|
        n.value_offset <= p < n.value_offset + n.value_size ==> #[trigger] tags[p] == 0
}

/// The node at `off` lies inside the allocated part of the arena with
/// header, tower, key and value, and its height is between 1 and `top`.
pub open spec fn bounds_ok(bytes: Seq<u8>, allocated: int, off: int, top: int) -> bool {
    let n = node_at(bytes, off);
    &&& 1 <= off
    &&& off + 24 <= allocated
    &&& 1 <= n.height <= top
    &&& off + n.size() <= allocated
    &&& 1 <= n.key_offset
    &&& n.key_offset + n.key_size <= allocated
    &&& !n.removed() ==> 1 <= n.value_offset && n.value_offset + n.value_size <= allocated
}

/// The marks say of each byte whether it carries a tag.
pub open spec fn marks_match(marks: Seq<bool>, tags: Seq<int>) -> bool {
    &&& marks.len() == tags.len()
    &&& forall|p: int| 0 <= p < marks.len() ==> #[trigger] marks[p] == (tags[p] != 0)
}

/// The offsets of a vector as integers.
pub open spec fn offsets(nodes: Seq<u32>) -> Seq<int> {
    nodes.map_values(|x: u32| x as int)
}

/// Whether no byte of `[off, off + len)` is marked.
pub(crate) fn region_clear(marks: &Vec<bool>, off: usize, len: usize) -> (b: bool)
    requires
        off + len <= marks@.len(),
    ensures
        b == forall|p: int| off <= p < off + len ==> !#[trigger] marks@[p],
{
    let _n: usize = marks.len();
    let mut k: usize = 0;
    while k < len
        invariant
            k <= len,
            off + len <= marks@.len() <= usize::MAX,
            forall|p: int| off <= p < off + k ==> !#[trigger] marks@[p],
        decreases len - k,
    {
        if marks[off + k] {
            return false;
        }
        k = k + 1;
    }
    true
}

/// Marks the bytes of `[off, off + len)`.
fn mark_region(marks: &mut Vec<bool>, off: usize, len: usize)
    requires
        off + len <= old(marks)@.len(),
    ensures
        final(marks)@.len() == old(marks)@.len(),
        forall|p: int|
            0 <= p < old(marks)@.len() ==> (#[trigger] final(marks)@[p]) == (old(marks)@[p] || (off
                <= p < off + len)),
{
    let _n: usize = marks.len();
    let mut k: usize = 0;
    while k < len
        invariant
            k <= len,
            off + len <= marks@.len() <= usize::MAX,
            marks@.len() == old(marks)@.len(),
            forall|p: int|
                0 <= p < marks@.len() ==> (#[trigger] marks@[p]) == (old(marks)@[p] || (off <= p
                    < off + k)),
        decreases len - k,
    {
        marks.set(off + k, true);
        k = k + 1;
    }
}

/// Reads the node at `off` if its header, tower, key and value all lie
/// inside the allocated part of the arena and its height is between 1 and
/// `top`.
pub(crate) fn read_checked(arena: &Arena, off: u32, top: u8) -> (r: Option<NodeView>)
    requires
        arena.wf(),
        top <= MAX_HEIGHT,
    ensures
        r is Some <==> bounds_ok(arena@, arena.spec_size() as int, off as int, top as int),
        r matches Some(n) ==> n@ == node_at(arena@, off as int),
{
    proof {
        arena.lemma_wf();
    }
    let allocated: u64 = arena.size() as u64;
    if off < 1 || off as u64 + 24 > allocated {
        return None;
    }
    let n = load_node(arena, off);
    if n.height < 1 || n.height > top {
        return None;
    }
    if off as u64 + node_size(n.height) as u64 > allocated {
        return None;
    }
    if n.key_offset < 1 || n.key_offset as u64 + n.key_size as u64 > allocated {
        return None;
    }
    if !n.removed() && (n.value_offset < 1 || n.value_offset as u64 + n.value_size as u64
        > allocated) {
        return None;
    }
    Some(n)
}

/// Reads the node at `off`, checks that it lies inside the allocated
/// part of the arena and that none of the bytes of its header and tower
/// is marked, and marks them.
fn claim(arena: &Arena, marks: &mut Vec<bool>, off: u32, top: u8, Ghost(tags): Ghost<Seq<int>>) -> (r:
    Option<NodeView>)
    requires
        arena.wf(),
        top <= MAX_HEIGHT,
        old(marks)@.len() == arena@.len(),
        marks_match(old(marks)@, tags),
    ensures
        final(marks)@.len() == old(marks)@.len(),
        r is None ==> final(marks)@ == old(marks)@,
        r is None ==> !bounds_ok(arena@, arena.spec_size() as int, off as int, top as int) || exists|
            p: int,
        |
            off <= p < off + node_at(arena@, off as int).size() && #[trigger] old(marks)@[p],
        r matches Some(n) ==> {
            &&& n@ == node_at(arena@, off as int)
            &&& 1 <= n.height <= top
            &&& meta_ok(
                arena@,
                arena.spec_size() as int,
                tags_with(tags, off as int, n@.size()),
                off as int,
            )
            &&& marks_match(final(marks)@, tags_with(tags, off as int, n@.size()))
            &&& forall|p: int| off <= p < off + n@.size() ==> #[trigger] tags[p] == 0
        },
{
    proof {
        arena.lemma_wf();
    }
    let n = match read_checked(arena, off, top) {
        Some(n) => n,
        None => {
            return None;
        },
    };
    let size: usize = node_size(n.height) as usize;
    if !region_clear(marks, off as usize, size) {
        return None;
    }
    mark_region(marks, off as usize, size);
    proof {
        let t2 = tags_with(tags, off as int, n@.size());
        assert forall|p: int| 0 <= p < marks@.len() implies #[trigger] marks@[p] == (t2[p] != 0) by {
            assert(old(marks)@[p] == (tags[p] != 0));
        }
        assert forall|p: int| off <= p < off + n@.size() implies #[trigger] tags[p] == 0 by {
            assert(!old(marks)@[p]);
        }
    }
    Some(n)
}

/// Whether the last node of each level below `height` links to the node
/// at `x`; if so, that node becomes the last of these levels.
fn splice_in(arena: &Arena, lasts: &mut Vec<u32>, x: u32, height: u8) -> (ok: bool)
    requires
        arena.wf(),
        height <= MAX_HEIGHT,
        old(lasts)@.len() == MAX_HEIGHT,
        forall|l: int|
            0 <= l < height ==> (#[trigger] old(lasts)@[l]) + 24 + 4 * l + 4 <= arena.spec_size(),
    ensures
        final(lasts)@.len() == MAX_HEIGHT,
        !ok ==> exists|l: int|
            0 <= l < height && #[trigger] node_next(arena@, old(lasts)@[l] as int, l) != x,
        ok ==> forall|l: int|
            0 <= l < height ==> #[trigger] node_next(arena@, old(lasts)@[l] as int, l) == x,
        ok ==> forall|l: int|
            0 <= l < MAX_HEIGHT ==> (#[trigger] final(lasts)@[l]) == if l < height {
                x
            } else {
                old(lasts)@[l]
            },
{
    proof {
        arena.lemma_wf();
    }
    let mut l: usize = 0;
    while l < height as usize
        invariant
            arena.wf(),
            arena.spec_size() <= arena.spec_capacity(),
            l <= height <= MAX_HEIGHT,
            lasts@.len() == MAX_HEIGHT,
            forall|k: int|
                0 <= k < height ==> (#[trigger] old(lasts)@[k]) + 24 + 4 * k + 4
                    <= arena.spec_size(),
            forall|k: int| 0 <= k < l ==> #[trigger] node_next(arena@, old(lasts)@[k] as int, k) == x,
            forall|k: int|
                0 <= k < MAX_HEIGHT ==> (#[trigger] lasts@[k]) == if k < l {
                    x
                } else {
                    old(lasts)@[k]
                },
        decreases height - l,
    {
        let from: u32 = lasts[l];
        proof {
            assert(old(lasts)@[l as int] == from);
        }
        if load_next(arena, from, l) != x {
            assert(node_next(arena@, old(lasts)@[l as int] as int, l as int) != x);
            return false;
        }
        lasts.set(l, x);
        l = l + 1;
    }
    true
}

/// In a chain whose links all point where they have to, the last node
/// before `p` on a level links to the node at `p` if that one takes part
/// in the level or is the end of the chain. `hs` gives heights that agree
/// with those of the chain up to `p`.
pub proof fn lemma_witness_link(
    bytes: Seq<u8>,
    w: Seq<int>,
    hs: Seq<int>,
    p: int,
    level: int,
    li: int,
)
    requires
        links_ok(bytes, w, heights_of(bytes, w)),
        1 <= p <= w.len() - 1,
        hs.len() > p,
        forall|j: int| 0 <= j < p ==> #[trigger] hs[j] == node_at(bytes, w[j]).height,
        is_last_at(hs, p, level, li),
        0 <= level,
        p == w.len() - 1 || level < node_at(bytes, w[p]).height,
    ensures
        node_next(bytes, w[li], level) == w[p],
{
    let hw = heights_of(bytes, w);
    assert(hw[li] == node_at(bytes, w[li]).height);
    assert(hs[li] == node_at(bytes, w[li]).height);
    assert forall|k: int| li < k < p implies #[trigger] hw[k] <= level by {
        assert(hw[k] == node_at(bytes, w[k]).height);
        assert(hs[k] <= level);
    }
    if p < w.len() - 1 {
        assert(hw[p] == node_at(bytes, w[p]).height);
    }
    assert(is_next(hw, li, level, p));
    lemma_is_next_unique(hw, li, level, p);
    assert(node_next(bytes, w[li], level) == w[next_at(hw, li, level)]);
}

impl<C: Comparator> SkipMap<C> {
    /// What the invariant of a map says of the node at position `p` of its
    /// chain and of the node before it.
    pub(crate) proof fn lemma_witness_step(&self, p: int)
        requires
            self.wf(),
            1 <= p <= self.chain@.len() - 1,
        ensures
            self.chain@[p] == node_next(self.arena@, self.chain@[p - 1], 0),
            (self.chain@[p] == self.tail) == (p == self.chain@.len() - 1),
            self.tail == tail_offset(self.opts.spec_max_height() as int),
            forall|j: int| 0 <= j < p ==> #[trigger] self.chain@[j] != self.chain@[p],
            node_ok(self.arena@, self.arena.spec_size() as int, self.tags@, self.chain@[p]),
            p < self.chain@.len() - 1 ==> bounds_ok(
                self.arena@,
                self.arena.spec_size() as int,
                self.chain@[p],
                self.opts.spec_max_height() as int,
            ),
            links_ok(self.arena@, self.chain@, heights_of(self.arena@, self.chain@)),
            24 * self.chain@.len() <= self.arena.spec_size(),
            2 <= p < self.chain@.len() - 1 ==> pair_order(
                &self.comparator,
                node_key(self.arena@, self.chain@[p - 1]),
                node_at(self.arena@, self.chain@[p - 1]).version,
                node_key(self.arena@, self.chain@[p]),
                node_at(self.arena@, self.chain@[p]).version,
            ) == Order::Less,
    {
        self.lemma_inv();
        self.opts.lemma_wf();
        self.lemma_bottom_chain(p - 1);
        let bytes = self.arena@;
        let w = self.chain@;
        let last = w.len() - 1;
        assert(node_ok(bytes, self.arena.spec_size() as int, self.tags@, w[p]));
        if p != last {
            assert(w[p] != w[last]);
        }
        if 2 <= p < last {
            let es = entries_of(bytes, w);
            assert(es[p - 2] == node_entry(bytes, w[p - 2 + 1]));
            assert(es[p - 1] == node_entry(bytes, w[p - 1 + 1]));
            assert(before(&self.comparator, es[p - 2], es[p - 1].key, es[p - 1].version));
        }
    }
}

/// What a walk along the bottom level found: the nodes before the tail,
/// the marks of the bytes of all headers and towers, the least and the
/// greatest version, and the height of the highest tower.
pub(crate) struct Survey {
    pub nodes: Vec<u32>,
    pub marks: Vec<bool>,
    pub least: u64,
    pub greatest: u64,
    pub height: u8,
    pub tags: Ghost<Seq<int>>,
}

impl Survey {
    /// The chain that the walk found: its nodes, then the tail.
    pub(crate) open spec fn chain(&self, tail: u32) -> Seq<int> {
        offsets(self.nodes@).push(tail as int)
    }

    /// What the walk has established of the bytes of an arena whose first
    /// `allocated` bytes are taken, with the sentinels `head` and `tail` of
    /// height `top`: everything that a map demands of them, except that
    /// keys and values may still overlap headers and towers.
    pub(crate) open spec fn holds<C: Comparator>(
        &self,
        c: &C,
        bytes: Seq<u8>,
        allocated: int,
        tail: u32,
        top: u8,
    ) -> bool {
        let chain = self.chain(tail);
        let tags = self.tags@;
        &&& self.nodes@.len() >= 1
        &&& self.nodes@[0] == 8
        &&& marks_match(self.marks@, tags)
        &&& tags.len() == bytes.len()
        &&& forall|p: int| allocated <= p < tags.len() ==> #[trigger] tags[p] == 0
        &&& forall|j: int| 0 <= j < chain.len() ==> meta_ok(bytes, allocated, tags, #[trigger] chain[j])
        &&& forall|i: int, j: int|
            0 <= i < j < chain.len() ==> #[trigger] chain[i] != #[trigger] chain[j]
        &&& links_ok(bytes, chain, heights_of(bytes, chain))
        &&& sorted(c, entries_of(bytes, chain))
        &&& node_at(bytes, 8).height == top
        &&& node_at(bytes, tail as int).height == top
        &&& 1 <= self.height <= top
        &&& forall|j: int|
            1 <= j < chain.len() - 1 ==> node_at(bytes, #[trigger] chain[j]).height <= self.height
        &&& 24 * chain.len() <= allocated
        &&& self.nodes@.len() <= u32::MAX
        &&& self.least == min_version_of(entries_of(bytes, chain))
        &&& self.greatest == max_version_of(entries_of(bytes, chain))
    }
}

/// Walks the bottom level from the head to the tail and checks on the way
/// that every node lies inside the allocated part of the arena, that no
/// two headers or towers overlap, that the entries stand in strict order,
/// and that every link of every tower points to the nearest following
/// node that reaches its level.
///
/// The walk succeeds on the arena of every well-formed map: `valid` says
/// that `m` is such a map on this arena.
pub(crate) fn survey<C: Comparator>(
    arena: &Arena,
    comparator: &C,
    tail: u32,
    top: u8,
    Ghost(m): Ghost<SkipMap<C>>,
    Ghost(valid): Ghost<bool>,
) -> (r: Option<Survey>)
    requires
        arena.wf(),
        1 <= top <= MAX_HEIGHT,
        tail == tail_offset(top as int),
        sentinel_space(top as int) <= arena.spec_size(),
        valid ==> m.wf() && m.arena@ == arena@ && m.arena.spec_size() == arena.spec_size()
            && m.comparator == *comparator && m.opts.spec_max_height() == top,
    ensures
        r matches Some(s) ==> s.holds(comparator, arena@, arena.spec_size() as int, tail, top),
        valid ==> r is Some,
        r matches Some(s) ==> (valid ==> s.chain(tail) == m.chain@ && forall|p: int|
            0 <= p < s.tags@.len() && #[trigger] s.tags@[p] != 0 ==> m.tags@[p] != 0),
{
    proof {
        arena.lemma_wf();
        if valid {
            m.lemma_inv();
            m.arena.lemma_wf();
            m.opts.lemma_wf();
        }
    }
    let ghost w: Seq<int> = m.chain@;
    let ghost tw: Seq<int> = m.tags@;
    let ghost wlast: int = w.len() - 1;
    let ghost bytes = arena@;
    let ghost allocated = arena.spec_size() as int;
    let cap: usize = arena.capacity();
    let head: u32 = 8;
    let mut marks: Vec<bool> = vec![false; cap];
    let ghost tags0: Seq<int> = Seq::new(cap as nat, |p: int| 0int);
    proof {
        if valid {
            assert(node_ok(bytes, allocated, tw, w[0]));
            assert(node_ok(bytes, allocated, tw, w[wlast]));
            assert(w[0] != w[wlast]);
        }
    }
    let hn = match claim(arena, &mut marks, head, top, Ghost(tags0)) {
        Some(n) => n,
        None => {
            proof {
                if valid {
                    assert(false);
                }
            }
            return None;
        },
    };
    if hn.height != top {
        return None;
    }
    let ghost tags1 = tags_with(tags0, head as int, hn@.size());
    let ghost marks1 = marks@;
    let tn = match claim(arena, &mut marks, tail, top, Ghost(tags1)) {
        Some(n) => n,
        None => {
            proof {
                if valid {
                    let q = choose|q: int|
                        tail <= q < tail + node_at(bytes, tail as int).size() && #[trigger] marks1[q];
                    assert(tags1[q] != 0);
                    assert(tw[q] == w[0]);
                    assert(tw[q] == w[wlast]);
                    assert(false);
                }
            }
            return None;
        },
    };
    if tn.height != top {
        return None;
    }
    let ghost mut tags = tags_with(tags1, tail as int, tn@.size());
    let mut nodes: Vec<u32> = Vec::new();
    nodes.push(head);
    let mut lasts: Vec<u32> = vec![head; MAX_HEIGHT];
    let ghost mut lasts_idx: Seq<int> = Seq::new(MAX_HEIGHT as nat, |l: int| 0int);
    let ghost mut owner: Seq<int> = Seq::new(cap as nat, |p: int| 0int);
    let mut cur: u32 = head;
    let mut prev_key: &[u8] = arena.get_bytes(hn.key_offset as usize, hn.key_size as usize);
    let mut prev_version: u64 = 0;
    let mut least: u64 = u64::MAX;
    let mut greatest: u64 = 0;
    let mut height: u8 = 1;
    proof {
        let vis = offsets(nodes@);
        let chain = vis.push(tail as int);
        let hs = heights_of(bytes, chain);
        assert(vis[0] == 8);
        assert(tags[8] == 8) by {
            assert(tags1[8] == 8);
        }
        assert(meta_ok(bytes, allocated, tags, 8)) by {
            assert forall|p: int| 8 <= p < 8 + hn@.size() implies #[trigger] tags[p] == 8 by {
                assert(tags1[p] == 8);
            }
        }
        assert(entries_of(bytes, chain) =~= Seq::<EntrySpec>::empty());
        assert forall|l: int| 0 <= l < top implies #[trigger] is_last_at(hs, 1, l, lasts_idx[l]) by {
            assert(hs[0] == node_at(bytes, chain[0]).height);
        }
        assert(links_upto(bytes, chain, hs, 1)) by {
            assert forall|j: int, level: int|
                0 <= j < 1 && 0 <= level < hs[j] && next_at(hs, j, level) < 1 implies #[trigger] node_next(
                bytes,
                chain[j],
                level,
            ) == chain[next_at(hs, j, level)] by {
                lemma_next_at_is_next(hs, j, level);
            }
        }
        assert forall|q: int| 0 <= q < tags.len() && #[trigger] tags[q] != 0 implies (tags[q]
            == tail || (0 <= owner[q] < 1 && nodes@[owner[q]] == tags[q])) && (valid ==> tw[q]
            == tags[q]) by {
            if tail <= q < tail + tn@.size() {
            } else {
                assert(tags1[q] != 0);
                assert(tags1[q] == 8);
            }
        }
    }
    loop
        invariant
            arena.wf(),
            bytes == arena@,
            allocated == arena.spec_size(),
            allocated <= arena.spec_capacity() <= u32::MAX,
            bytes.len() == arena.spec_capacity(),
            1 <= top <= MAX_HEIGHT,
            head == 8,
            node_at(bytes, tail as int).height == top,
            node_at(bytes, 8).height == top,
            meta_ok(bytes, allocated, tags, tail as int),
            nodes@.len() >= 1,
            nodes@[0] == 8,
            cur == nodes@[nodes@.len() - 1],
            marks@.len() == bytes.len(),
            marks_match(marks@, tags),
            forall|p: int| allocated <= p < tags.len() ==> #[trigger] tags[p] == 0,
            forall|j: int|
                0 <= j < nodes@.len() ==> meta_ok(bytes, allocated, tags, (#[trigger] nodes@[j]) as int)
                    && nodes@[j] != tail && node_at(bytes, nodes@[j] as int).height <= top,
            forall|i: int, j: int|
                0 <= i < j < nodes@.len() ==> #[trigger] nodes@[i] != #[trigger] nodes@[j],
            links_upto(
                bytes,
                offsets(nodes@).push(tail as int),
                heights_of(bytes, offsets(nodes@).push(tail as int)),
                nodes@.len() as int,
            ),
            lasts@.len() == MAX_HEIGHT,
            lasts_idx.len() == MAX_HEIGHT,
            forall|l: int|
                0 <= l < top ==> #[trigger] is_last_at(
                    heights_of(bytes, offsets(nodes@).push(tail as int)),
                    nodes@.len() as int,
                    l,
                    lasts_idx[l],
                ) && lasts@[l] == nodes@[lasts_idx[l]],
            sorted(comparator, entries_of(bytes, offsets(nodes@).push(tail as int))),
            nodes@.len() >= 2 ==> prev_key@ == node_key(bytes, cur as int) && prev_version
                == node_at(bytes, cur as int).version,
            24 * (nodes@.len() + 1) <= allocated,
            least == min_version_of(entries_of(bytes, offsets(nodes@).push(tail as int))),
            greatest == max_version_of(entries_of(bytes, offsets(nodes@).push(tail as int))),
            1 <= height <= top,
            forall|j: int|
                1 <= j < nodes@.len() ==> node_at(bytes, (#[trigger] nodes@[j]) as int).height
                    <= height,
            tail == tail_offset(top as int),
            w == m.chain@,
            tw == m.tags@,
            wlast == w.len() - 1,
            owner.len() == tags.len(),
            tags.len() == bytes.len(),
            forall|q: int|
                0 <= q < tags.len() && #[trigger] tags[q] != 0 ==> tags[q] == tail || (0
                    <= owner[q] < nodes@.len() && nodes@[owner[q]] == tags[q]),
            valid ==> m.wf() && m.arena@ == bytes && m.arena.spec_size() == allocated
                && m.comparator == *comparator && m.opts.spec_max_height() == top,
            valid ==> nodes@.len() <= wlast,
            valid ==> forall|j: int| 0 <= j < nodes@.len() ==> (#[trigger] nodes@[j]) == w[j],
            valid ==> forall|q: int| 0 <= q < tags.len() && #[trigger] tags[q] != 0 ==> tw[q] == tags[q],
        decreases allocated - 24 * nodes@.len(),
    {
        let ghost vis = offsets(nodes@);
        let ghost p = vis.len() as int;
        let ghost chain = vis.push(tail as int);
        let ghost hs = heights_of(bytes, chain);
        let ghost entries = entries_of(bytes, chain);
        proof {
            assert(meta_ok(bytes, allocated, tags, nodes@[p - 1] as int));
            assert forall|l: int| 0 <= l < top implies (#[trigger] lasts@[l]) + 24 + 4 * l + 4
                <= allocated by {
                assert(is_last_at(hs, p, l, lasts_idx[l]));
                let li = lasts_idx[l];
                assert(hs[li] == node_at(bytes, chain[li]).height);
                assert(chain[li] == nodes@[li]);
                assert(meta_ok(bytes, allocated, tags, nodes@[li] as int));
            }
        }
        let next: u32 = load_next(arena, cur, 0);
        proof {
            if valid {
                m.lemma_witness_step(p);
                assert(nodes@[p - 1] == w[p - 1]);
                assert(w[p] == next);
            }
        }
        let ghost old_lasts = lasts@;
        if next == tail {
            if !splice_in(arena, &mut lasts, tail, top) {
                proof {
                    if valid {
                        let l = choose|l: int|
                            0 <= l < top && #[trigger] node_next(bytes, old_lasts[l] as int, l)
                                != tail;
                        assert(is_last_at(hs, p, l, lasts_idx[l]));
                        assert forall|j: int| 0 <= j < p implies #[trigger] hs[j] == node_at(
                            bytes,
                            w[j],
                        ).height by {
                            assert(chain[j] == nodes@[j]);
                        }
                        lemma_witness_link(bytes, w, hs, p, l, lasts_idx[l]);
                        assert(old_lasts[l] == nodes@[lasts_idx[l]]);
                        assert(false);
                    }
                }
                return None;
            }
            proof {
                assert forall|j: int| 0 <= j < vis.len() implies #[trigger] hs[j] <= top by {
                    assert(hs[j] == node_at(bytes, chain[j]).height);
                    assert(chain[j] == nodes@[j]);
                }
                assert forall|l: int| 0 <= l < top implies #[trigger] node_next(
                    bytes,
                    vis[lasts_idx[l]],
                    l,
                ) == tail by {
                    assert(is_last_at(hs, p, l, lasts_idx[l]));
                    assert(vis[lasts_idx[l]] == nodes@[lasts_idx[l]]);
                }
                assert forall|l: int| 0 <= l < top implies #[trigger] is_last_at(
                    hs,
                    vis.len() as int,
                    l,
                    lasts_idx[l],
                ) by {}
                lemma_links_close(bytes, vis, hs, tail as int, top as int, lasts_idx);
                assert forall|j: int| 0 <= j < chain.len() implies meta_ok(
                    bytes,
                    allocated,
                    tags,
                    #[trigger] chain[j],
                ) by {
                    if j < p {
                        assert(chain[j] == nodes@[j]);
                    }
                }
                assert forall|i: int, j: int| 0 <= i < j < chain.len() implies #[trigger] chain[i]
                    != #[trigger] chain[j] by {
                    assert(chain[i] == nodes@[i]);
                    if j < p {
                        assert(chain[j] == nodes@[j]);
                    }
                }
                assert forall|j: int| 1 <= j < chain.len() - 1 implies node_at(
                    bytes,
                    #[trigger] chain[j],
                ).height <= height by {
                    assert(chain[j] == nodes@[j]);
                }
                if valid {
                    assert forall|j: int| 0 <= j < chain.len() implies chain[j] == w[j] by {
                        if j < p {
                            assert(chain[j] == nodes@[j]);
                        }
                    }
                    assert(chain =~= w);
                }
            }
            return Some(Survey { nodes, marks, least, greatest, height, tags: Ghost(tags) });
        }
        let ghost marks0 = marks@;
        let n = match claim(arena, &mut marks, next, top, Ghost(tags)) {
            Some(n) => n,
            None => {
                proof {
                    if valid {
                        assert(bounds_ok(bytes, allocated, next as int, top as int));
                        let q = choose|q: int|
                            next <= q < next + node_at(bytes, next as int).size()
                                && #[trigger] marks0[q];
                        assert(tags[q] != 0);
                        assert(tw[q] == w[p]);
                        if tags[q] != tail {
                            assert(nodes@[owner[q]] == w[owner[q]]);
                            assert(w[owner[q]] != w[p]);
                        }
                        assert(false);
                    }
                }
                return None;
            },
        };
        let key = arena.get_bytes(n.key_offset as usize, n.key_size as usize);
        if nodes.len() >= 2 {
            let in_order: bool = match comparator.compare(prev_key, key) {
                Order::Less => true,
                Order::Greater => false,
                Order::Equal => prev_version > n.version,
            };
            if !in_order {
                proof {
                    if valid {
                        assert(false);
                    }
                }
                return None;
            }
        }
        if !splice_in(arena, &mut lasts, next, n.height) {
            proof {
                if valid {
                    let l = choose|l: int|
                        0 <= l < n.height && #[trigger] node_next(bytes, old_lasts[l] as int, l)
                            != next;
                    assert(is_last_at(hs, p, l, lasts_idx[l]));
                    assert forall|j: int| 0 <= j < p implies #[trigger] hs[j] == node_at(
                        bytes,
                        w[j],
                    ).height by {
                        assert(chain[j] == nodes@[j]);
                    }
                    lemma_witness_link(bytes, w, hs, p, l, lasts_idx[l]);
                    assert(old_lasts[l] == nodes@[lasts_idx[l]]);
                    assert(false);
                }
            }
            return None;
        }
        if 24 * (nodes.len() as u64 + 2) > arena.size() as u64 {
            return None;
        }
        let ghost old_tags = tags;
        let ghost old_lasts_idx = lasts_idx;
        let ghost old_nodes = nodes@;
        nodes.push(next);
        let ghost old_owner = owner;
        proof {
            tags = tags_with(old_tags, next as int, n@.size());
            owner = Seq::new(
                old_owner.len(),
                |q: int|
                    if next <= q < next + n@.size() {
                        p
                    } else {
                        old_owner[q]
                    },
            );
            assert forall|q: int| 0 <= q < tags.len() && #[trigger] tags[q] != 0 implies (tags[q]
                == tail || (0 <= owner[q] < nodes@.len() && nodes@[owner[q]] == tags[q])) && (
            valid ==> tw[q] == tags[q]) by {
                if next <= q < next + n@.size() {
                } else {
                    assert(old_tags[q] != 0);
                    if old_tags[q] != tail {
                        assert(nodes@[old_owner[q]] == old_nodes[old_owner[q]]);
                    }
                }
            }
            if valid {
                assert forall|j: int| 0 <= j < nodes@.len() implies (#[trigger] nodes@[j])
                    == w[j] by {
                    if j < p {
                        assert(nodes@[j] == old_nodes[j]);
                    }
                }
            }
            lasts_idx = Seq::new(
                MAX_HEIGHT as nat,
                |l: int|
                    if l < n.height {
                        p
                    } else {
                        old_lasts_idx[l]
                    },
            );
            let x = next as int;
            let hx = n.height as int;
            let vis2 = offsets(nodes@);
            let chain2 = vis2.push(tail as int);
            let hs2 = heights_of(bytes, chain2);
            assert(vis2 =~= vis.push(x));
            assert(chain2 =~= vis.push(x).push(tail as int));
            assert(hs2 =~= hs.insert(p, hx)) by {
                assert forall|j: int| 0 <= j < hs2.len() implies hs2[j] == hs.insert(p, hx)[j] by {
                    if j < p {
                        assert(chain2[j] == chain[j]);
                    } else if j > p {
                        assert(chain2[j] == chain[j - 1]);
                    }
                }
            }
            // tags of the nodes seen before stay as they were
            assert(old_tags[x] == 0);
            assert forall|j: int| 0 <= j < nodes@.len() implies meta_ok(
                bytes,
                allocated,
                tags,
                (#[trigger] nodes@[j]) as int,
            ) && nodes@[j] != tail && node_at(bytes, nodes@[j] as int).height <= top by {
                if j < p {
                    assert(nodes@[j] == old_nodes[j]);
                    let y = old_nodes[j] as int;
                    assert(meta_ok(bytes, allocated, old_tags, y));
                    let m = node_at(bytes, y);
                    assert forall|q: int| y <= q < y + m.size() implies #[trigger] tags[q] == y by {
                        assert(old_tags[q] == y);
                    }
                }
            }
            assert(meta_ok(bytes, allocated, tags, tail as int)) by {
                let y = tail as int;
                let m = node_at(bytes, y);
                assert forall|q: int| y <= q < y + m.size() implies #[trigger] tags[q] == y by {
                    assert(old_tags[q] == y);
                }
            }
            assert forall|i: int, j: int| 0 <= i < j < nodes@.len() implies #[trigger] nodes@[i]
                != #[trigger] nodes@[j] by {
                assert(nodes@[i] == old_nodes[i]);
                if j < p {
                    assert(nodes@[j] == old_nodes[j]);
                } else {
                    assert(meta_ok(bytes, allocated, old_tags, old_nodes[i] as int));
                    assert(old_tags[old_nodes[i] as int] == old_nodes[i]);
                }
            }
            assert forall|q: int| allocated <= q < tags.len() implies #[trigger] tags[q] == 0 by {
                assert(old_tags[q] == 0);
            }
            // links
            assert forall|l: int| 0 <= l < hx implies #[trigger] is_last_at(
                hs,
                vis.len() as int,
                l,
                old_lasts_idx[l],
            ) by {}
            assert forall|l: int| 0 <= l < hx implies #[trigger] node_next(
                bytes,
                vis[old_lasts_idx[l]],
                l,
            ) == x by {
                assert(is_last_at(hs, p, l, old_lasts_idx[l]));
                assert(vis[old_lasts_idx[l]] == old_nodes[old_lasts_idx[l]]);
            }
            lemma_links_append(bytes, vis, hs, tail as int, x, hx, old_lasts_idx);
            assert forall|l: int| 0 <= l < top implies #[trigger] is_last_at(
                hs2,
                nodes@.len() as int,
                l,
                lasts_idx[l],
            ) && lasts@[l] == nodes@[lasts_idx[l]] by {
                assert(is_last_at(hs, p, l, old_lasts_idx[l]));
                if l < hx {
                    assert(hs2[p] == hx);
                } else {
                    let li = old_lasts_idx[l];
                    assert(hs2[li] == hs[li]);
                    assert forall|m: int| li < m < p + 1 implies #[trigger] hs2[m] <= l by {
                        if m < p {
                            assert(hs2[m] == hs[m]);
                        }
                    }
                    assert(nodes@[li] == old_nodes[li]);
                }
            }
            // order
            let e = node_entry(bytes, x);
            let entries2 = entries_of(bytes, chain2);
            assert(entries2 =~= entries.push(e)) by {
                assert forall|i: int| 0 <= i < entries2.len() implies entries2[i] == entries.push(
                    e,
                )[i] by {
                    if i < p - 1 {
                        assert(chain2[i + 1] == chain[i + 1]);
                    }
                }
            }
            if p >= 2 {
                assert(entries.last() == node_entry(bytes, chain[p - 1]));
                assert(chain[p - 1] == cur);
            }
            lemma_sorted_push(comparator, entries, e);
            assert(entries2.drop_last() =~= entries);
            assert forall|j: int| 1 <= j < nodes@.len() implies node_at(
                bytes,
                (#[trigger] nodes@[j]) as int,
            ).height <= (if n.height > height {
                n.height
            } else {
                height
            }) by {
                if j < p {
                    assert(nodes@[j] == old_nodes[j]);
                }
            }
        }
        if n.version < least {
            least = n.version;
        }
        if n.version > greatest {
            greatest = n.version;
        }
        if n.height > height {
            height = n.height;
        }
        prev_key = key;
        prev_version = n.version;
        cur = next;
    }
}

} // verus!
