//! What has to hold of the bytes of an arena for them to be a skip list:
//! where the nodes lie, that nothing overlaps, and where the links point.

use vstd::prelude::*;
use crate::codec::MAX_HEIGHT;
use crate::links::{
    is_next,
    lemma_next_at_insert_zero,
    lemma_next_at_is_next,
    lemma_next_at_raise_other_level,
    lemma_next_at_raise_same_level,
    lemma_next_at_raise_splice,
    next_at,
    shifted,
};
use crate::model::EntrySpec;
use crate::node::{
    agree_outside,
    apart,
    lemma_header_frame,
    lemma_subrange_frame,
    lemma_u32_frame,
    lemma_u64_frame,
    node_at,
    node_key,
    node_next,
    node_value,
};

verus! {

/// The entry that the node at `off` stands for.
pub open spec fn node_entry(bytes: Seq<u8>, off: int) -> EntrySpec {
    EntrySpec {
        key: node_key(bytes, off),
        version: node_at(bytes, off).version,
        value: node_value(bytes, off),
    }
}

/// The node at `off` lies inside the allocated part of the arena, and so do
/// its key and its value. `tags` says of every byte whether it belongs to the
/// header or tower of a node, and of which one (0: of none). The bytes of
/// this node's header and tower carry its offset; the bytes of its key and
/// value carry 0.
pub open spec fn node_ok(bytes: Seq<u8>, allocated: int, tags: Seq<int>, off: int) -> bool {
    let n = node_at(bytes, off);
    &&& 1 <= off
    &&& 1 <= n.height <= MAX_HEIGHT
    &&& off + n.size() <= allocated
    &&& 1 <= n.key_offset
    &&& n.key_offset + n.key_size <= allocated
    &&& !n.removed() ==> 1 <= n.value_offset && n.value_offset + n.value_size <= allocated
    &&& forall|p: int| off <= p < off + n.size() ==> #[trigger] tags[p] == off
    &&& forall|p: int| n.key_offset <= p < n.key_offset + n.key_size ==> #[trigger] tags[p] == 0
    &&& !n.removed() ==> forall|p: int|
        n.value_offset <= p < n.value_offset + n.value_size ==> #[trigger] tags[p] == 0
}

/// The heights that the nodes of the chain have in their headers.
pub open spec fn heights_of(bytes: Seq<u8>, chain: Seq<int>) -> Seq<int> {
    Seq::new(chain.len(), |j: int| node_at(bytes, chain[j]).height as int)
}

/// The entries of the chain without its first and last node.
pub open spec fn entries_of(bytes: Seq<u8>, chain: Seq<int>) -> Seq<EntrySpec> {
    Seq::new((chain.len() - 2) as nat, |i: int| node_entry(bytes, chain[i + 1]))
}

/// Every link of every node points to the first node behind it that takes
/// part in the link's level, where `hs` gives the number of levels in which
/// each node takes part.
pub open spec fn links_ok(bytes: Seq<u8>, chain: Seq<int>, hs: Seq<int>) -> bool {
    forall|j: int, level: int|
        0 <= j < chain.len() - 1 && 0 <= level < hs[j] ==> #[trigger] node_next(
            bytes,
            chain[j],
            level,
        ) == chain[next_at(hs, j, level)]
}

/// The nodes of the chain are well placed: each inside the allocated part,
/// no two at one offset, and no byte behind the allocated part tagged.
pub open spec fn store_ok(bytes: Seq<u8>, allocated: int, tags: Seq<int>, chain: Seq<int>) -> bool {
    &&& chain.len() >= 2
    &&& 1 <= allocated <= bytes.len()
    &&& bytes.len() == tags.len()
    &&& bytes.len() <= u32::MAX
    &&& forall|j: int| 0 <= j < chain.len() ==> node_ok(bytes, allocated, tags, #[trigger] chain[j])
    &&& forall|i: int, j: int|
        0 <= i < j < chain.len() ==> #[trigger] chain[i] != #[trigger] chain[j]
    &&& forall|p: int| allocated <= p < tags.len() ==> #[trigger] tags[p] == 0
}

/// The bytes in `[lo, hi)` belong to the header or tower of a node other
/// than the one at `off`, or lie behind the allocated part.
pub open spec fn foreign_to(tags: Seq<int>, allocated: int, lo: int, hi: int, off: int) -> bool {
    forall|p: int|
        lo <= p < hi ==> p >= allocated || (#[trigger] tags[p] != off && tags[p] != 0)
}

/// A node reads as before when bytes change that belong neither to it nor
/// to any key or value.
pub proof fn lemma_node_frame(
    b1: Seq<u8>,
    b2: Seq<u8>,
    lo: int,
    hi: int,
    allocated: int,
    tags: Seq<int>,
    off: int,
)
    requires
        agree_outside(b1, b2, lo, hi),
        0 <= lo,
        hi <= b1.len(),
        allocated <= b1.len(),
        b1.len() == tags.len(),
        node_ok(b1, allocated, tags, off),
        foreign_to(tags, allocated, lo, hi, off),
    ensures
        node_at(b2, off) == node_at(b1, off),
        node_key(b2, off) == node_key(b1, off),
        node_value(b2, off) == node_value(b1, off),
        node_entry(b2, off) == node_entry(b1, off),
        forall|level: int|
            0 <= level < node_at(b1, off).height ==> #[trigger] node_next(b2, off, level)
                == node_next(b1, off, level),
        node_ok(b2, allocated, tags, off),
{
    let n = node_at(b1, off);
    if lo < hi {
        // the changed bytes and the node's own bytes have no position in common
        let p = if lo >= off {
            lo
        } else {
            off
        };
        if !apart(off, n.size(), lo, hi) {
            assert(tags[p] == off);
            assert(false);
        }
        if !apart(n.key_offset as int, n.key_size as int, lo, hi) {
            let q = if lo >= n.key_offset {
                lo
            } else {
                n.key_offset as int
            };
            assert(tags[q] == 0);
            assert(false);
        }
        if !n.removed() && !apart(n.value_offset as int, n.value_size as int, lo, hi) {
            let q = if lo >= n.value_offset {
                lo
            } else {
                n.value_offset as int
            };
            assert(tags[q] == 0);
            assert(false);
        }
    }
    lemma_header_frame(b1, b2, lo, hi, off);
    lemma_subrange_frame(b1, b2, lo, hi, n.key_offset as int, n.key_size as int);
    if !n.removed() {
        lemma_subrange_frame(b1, b2, lo, hi, n.value_offset as int, n.value_size as int);
    }
    assert forall|level: int| 0 <= level < n.height implies #[trigger] node_next(b2, off, level)
        == node_next(b1, off, level) by {
        lemma_u32_frame(b1, b2, lo, hi, off + 24 + 4 * level);
    }
}

/// When one link of a node is overwritten, the node's header, key, value and
/// other links read as before.
pub proof fn lemma_link_write_frame(
    b1: Seq<u8>,
    b2: Seq<u8>,
    allocated: int,
    tags: Seq<int>,
    off: int,
    e: int,
)
    requires
        agree_outside(b1, b2, off + 24 + 4 * e, off + 24 + 4 * e + 4),
        allocated <= b1.len(),
        b1.len() == tags.len(),
        node_ok(b1, allocated, tags, off),
        0 <= e < node_at(b1, off).height,
    ensures
        node_at(b2, off) == node_at(b1, off),
        node_key(b2, off) == node_key(b1, off),
        node_value(b2, off) == node_value(b1, off),
        node_entry(b2, off) == node_entry(b1, off),
        forall|level: int|
            0 <= level < node_at(b1, off).height && level != e ==> #[trigger] node_next(
                b2,
                off,
                level,
            ) == node_next(b1, off, level),
        node_ok(b2, allocated, tags, off),
{
    let n = node_at(b1, off);
    let lo = off + 24 + 4 * e;
    let hi = lo + 4;
    assert(tags[lo] == off);
    if !apart(n.key_offset as int, n.key_size as int, lo, hi) {
        let q = if lo >= n.key_offset {
            lo
        } else {
            n.key_offset as int
        };
        assert(tags[q] == 0);
        assert(tags[q] == off);
        assert(false);
    }
    if !n.removed() && !apart(n.value_offset as int, n.value_size as int, lo, hi) {
        let q = if lo >= n.value_offset {
            lo
        } else {
            n.value_offset as int
        };
        assert(tags[q] == 0);
        assert(tags[q] == off);
        assert(false);
    }
    lemma_header_frame(b1, b2, lo, hi, off);
    lemma_subrange_frame(b1, b2, lo, hi, n.key_offset as int, n.key_size as int);
    if !n.removed() {
        lemma_subrange_frame(b1, b2, lo, hi, n.value_offset as int, n.value_size as int);
    }
    assert forall|level: int|
        0 <= level < n.height && level != e implies #[trigger] node_next(b2, off, level)
        == node_next(b1, off, level) by {
        lemma_u32_frame(b1, b2, lo, hi, off + 24 + 4 * level);
    }
}

/// When the value word of a node is overwritten, the node's key, version,
/// height and links read as before.
pub proof fn lemma_value_write_frame(
    b1: Seq<u8>,
    b2: Seq<u8>,
    allocated: int,
    tags: Seq<int>,
    off: int,
)
    requires
        agree_outside(b1, b2, off, off + 8),
        allocated <= b1.len(),
        b1.len() == tags.len(),
        node_ok(b1, allocated, tags, off),
    ensures
        node_at(b2, off).key_offset == node_at(b1, off).key_offset,
        node_at(b2, off).key_size == node_at(b1, off).key_size,
        node_at(b2, off).height == node_at(b1, off).height,
        node_at(b2, off).version == node_at(b1, off).version,
        node_key(b2, off) == node_key(b1, off),
        forall|level: int|
            0 <= level < node_at(b1, off).height ==> #[trigger] node_next(b2, off, level)
                == node_next(b1, off, level),
        forall|at: int, n: int|
            0 <= at && 0 <= n && at + n <= b1.len() && (forall|p: int|
                at <= p < at + n ==> #[trigger] tags[p] == 0) ==> #[trigger] b2.subrange(
                at,
                at + n,
            ) == b1.subrange(at, at + n),
{
    let n = node_at(b1, off);
    let lo = off;
    let hi = off + 8;
    assert(tags[lo] == off);
    lemma_u32_frame(b1, b2, lo, hi, off + 8);
    lemma_u32_frame(b1, b2, lo, hi, off + 12);
    lemma_u64_frame(b1, b2, lo, hi, off + 16);
    if !apart(n.key_offset as int, n.key_size as int, lo, hi) {
        let q = if lo >= n.key_offset {
            lo
        } else {
            n.key_offset as int
        };
        assert(tags[q] == 0);
        assert(tags[q] == off);
        assert(false);
    }
    lemma_subrange_frame(b1, b2, lo, hi, n.key_offset as int, n.key_size as int);
    assert forall|level: int| 0 <= level < n.height implies #[trigger] node_next(b2, off, level)
        == node_next(b1, off, level) by {
        lemma_u32_frame(b1, b2, lo, hi, off + 24 + 4 * level);
    }
    assert forall|at: int, m: int|
        0 <= at && 0 <= m && at + m <= b1.len() && (forall|p: int|
            at <= p < at + m ==> #[trigger] tags[p] == 0) implies #[trigger] b2.subrange(
        at,
        at + m,
    ) == b1.subrange(at, at + m) by {
        if !apart(at, m, lo, hi) {
            let q = if lo >= at {
                lo
            } else {
                at
            };
            assert(tags[q] == 0);
            assert(tags[q] == off);
            assert(false);
        }
        lemma_subrange_frame(b1, b2, lo, hi, at, m);
    }
}

/// The tags after the `size` bytes at `off` became the header and tower of
/// a node.
pub open spec fn tags_with(tags: Seq<int>, off: int, size: int) -> Seq<int> {
    Seq::new(
        tags.len(),
        |q: int|
            if off <= q < off + size {
                off
            } else {
                tags[q]
            },
    )
}

/// What holds once a new node was written into fresh bytes at `off` and
/// entered into the chain at `p`, before any link points to it: the nodes
/// are still well placed, the old nodes read as before, and every link
/// still points where it has to, the new node counting as taking part in no
/// level.
pub proof fn lemma_insert_fresh(
    b1: Seq<u8>,
    b2: Seq<u8>,
    a1: int,
    a2: int,
    tags: Seq<int>,
    chain: Seq<int>,
    p: int,
    off: int,
    total: int,
)
    requires
        store_ok(b1, a1, tags, chain),
        links_ok(b1, chain, heights_of(b1, chain)),
        agree_outside(b1, b2, off, off + total),
        a1 <= off,
        off + total <= a2 <= b1.len(),
        1 <= node_at(b2, off).height <= MAX_HEIGHT,
        node_at(b2, off).key_offset == off + node_at(b2, off).size(),
        node_at(b2, off).value_offset == node_at(b2, off).key_offset + node_at(b2, off).key_size,
        total == node_at(b2, off).size() + node_at(b2, off).key_size + node_at(
            b2,
            off,
        ).value_len(),
        1 <= p <= chain.len() - 1,
    ensures
        store_ok(
            b2,
            a2,
            tags_with(tags, off, node_at(b2, off).size()),
            chain.insert(p, off),
        ),
        links_ok(b2, chain.insert(p, off), heights_of(b1, chain).insert(p, 0)),
        forall|j: int|
            0 <= j < chain.len() ==> node_at(b2, #[trigger] chain[j]) == node_at(b1, chain[j])
                && node_entry(b2, chain[j]) == node_entry(b1, chain[j]),
        entries_of(b2, chain.insert(p, off)) == entries_of(b1, chain).insert(
            p - 1,
            node_entry(b2, off),
        ),
        heights_of(b2, chain.insert(p, off)) == heights_of(b1, chain).insert(
            p,
            node_at(b2, off).height as int,
        ),
{
    let n = node_at(b2, off);
    let chain2 = chain.insert(p, off);
    let tags2 = tags_with(tags, off, n.size());
    let hs = heights_of(b1, chain);
    let hs0 = hs.insert(p, 0);
    assert forall|j: int| 0 <= j < chain.len() implies node_at(b2, #[trigger] chain[j]) == node_at(
        b1,
        chain[j],
    ) && node_entry(b2, chain[j]) == node_entry(b1, chain[j]) && node_ok(
        b2,
        a2,
        tags2,
        chain[j],
    ) && chain[j] < off && (forall|level: int|
        0 <= level < node_at(b1, chain[j]).height ==> #[trigger] node_next(b2, chain[j], level)
            == node_next(b1, chain[j], level)) by {
        assert(node_ok(b1, a1, tags, chain[j]));
        lemma_node_frame(b1, b2, off, off + total, a1, tags, chain[j]);
        let m = node_at(b1, chain[j]);
        assert forall|q: int| chain[j] <= q < chain[j] + m.size() implies #[trigger] tags2[q]
            == chain[j] by {
            assert(tags[q] == chain[j]);
        }
        assert forall|q: int|
            m.key_offset <= q < m.key_offset + m.key_size implies #[trigger] tags2[q] == 0 by {
            assert(tags[q] == 0);
        }
        if !m.removed() {
            assert forall|q: int|
                m.value_offset <= q < m.value_offset + m.value_size implies #[trigger] tags2[q]
                == 0 by {
                assert(tags[q] == 0);
            }
        }
    }
    // the new node
    assert forall|q: int| n.key_offset <= q < n.key_offset + n.key_size implies #[trigger] tags2[q]
        == 0 by {
        assert(tags[q] == 0);
    }
    if !n.removed() {
        assert forall|q: int|
            n.value_offset <= q < n.value_offset + n.value_size implies #[trigger] tags2[q]
            == 0 by {
            assert(tags[q] == 0);
        }
    }
    assert(node_ok(b2, a2, tags2, off));
    assert forall|j: int| 0 <= j < chain2.len() implies node_ok(
        b2,
        a2,
        tags2,
        #[trigger] chain2[j],
    ) by {
        if j < p {
            assert(chain2[j] == chain[j]);
        } else if j > p {
            assert(chain2[j] == chain[j - 1]);
        }
    }
    assert forall|i: int, j: int| 0 <= i < j < chain2.len() implies #[trigger] chain2[i]
        != #[trigger] chain2[j] by {
        let i1 = if i < p {
            i
        } else {
            i - 1
        };
        let j1 = if j < p {
            j
        } else {
            j - 1
        };
        if i != p {
            assert(chain2[i] == chain[i1]);
        }
        if j != p {
            assert(chain2[j] == chain[j1]);
        }
    }
    assert forall|q: int| a2 <= q < tags2.len() implies #[trigger] tags2[q] == 0 by {
        assert(tags[q] == 0);
    }
    // links
    assert forall|j: int, level: int|
        0 <= j < chain2.len() - 1 && 0 <= level < hs0[j] implies #[trigger] node_next(
        b2,
        chain2[j],
        level,
    ) == chain2[next_at(hs0, j, level)] by {
        if j != p {
            let j1 = if j < p {
                j
            } else {
                j - 1
            };
            assert(chain2[j] == chain[j1]);
            assert(hs0[j] == hs[j1]);
            assert(hs[j1] == node_at(b1, chain[j1]).height);
            assert(node_next(b2, chain[j1], level) == node_next(b1, chain[j1], level));
            assert(node_next(b1, chain[j1], level) == chain[next_at(hs, j1, level)]);
            lemma_next_at_insert_zero(hs, p, j1, level);
            lemma_next_at_is_next(hs, j1, level);
            let k = next_at(hs, j1, level);
            assert(shifted(j1, p) == j);
            assert(chain2[shifted(k, p)] == chain[k]);
        }
    }
    assert(entries_of(b2, chain2) =~= entries_of(b1, chain).insert(p - 1, node_entry(b2, off)))
        by {
        let e1 = entries_of(b1, chain);
        let e2 = entries_of(b2, chain2);
        let e3 = e1.insert(p - 1, node_entry(b2, off));
        assert(e2.len() == e3.len());
        assert forall|i: int| 0 <= i < e2.len() implies e2[i] == e3[i] by {
            if i < p - 1 {
                assert(chain2[i + 1] == chain[i + 1]);
            } else if i > p - 1 {
                assert(chain2[i + 1] == chain[i]);
                assert(e3[i] == e1[i - 1]);
            }
        }
    }
    assert(heights_of(b2, chain2) =~= hs.insert(p, n.height as int)) by {
        let h2 = heights_of(b2, chain2);
        let h3 = hs.insert(p, n.height as int);
        assert forall|i: int| 0 <= i < h2.len() implies h2[i] == h3[i] by {
            if i < p {
                assert(chain2[i] == chain[i]);
            } else if i > p {
                assert(chain2[i] == chain[i - 1]);
                assert(h3[i] == hs[i - 1]);
            }
        }
    }
}

/// What holds once the link at level `e` of the node at `pi` was pointed to
/// the node at `p`, which so far took part in the levels below `e` only:
/// now it takes part in level `e` too, and everything else is as before.
pub proof fn lemma_link_step(
    b1: Seq<u8>,
    b2: Seq<u8>,
    allocated: int,
    tags: Seq<int>,
    chain: Seq<int>,
    hs: Seq<int>,
    p: int,
    pi: int,
    ni: int,
)
    requires
        store_ok(b1, allocated, tags, chain),
        links_ok(b1, chain, hs),
        hs.len() == chain.len(),
        forall|j: int| 0 <= j < chain.len() ==> #[trigger] hs[j] <= node_at(b1, chain[j]).height,
        0 <= pi < p < ni <= chain.len() - 1,
        0 <= hs[p] < node_at(b1, chain[p]).height,
        is_next(hs, pi, hs[p], ni),
        hs[pi] > hs[p],
        node_next(b1, chain[p], hs[p]) == chain[ni],
        agree_outside(b1, b2, chain[pi] + 24 + 4 * hs[p], chain[pi] + 24 + 4 * hs[p] + 4),
        node_next(b2, chain[pi], hs[p]) == chain[p],
    ensures
        store_ok(b2, allocated, tags, chain),
        links_ok(b2, chain, hs.update(p, hs[p] + 1)),
        forall|j: int|
            0 <= j < chain.len() ==> node_at(b2, #[trigger] chain[j]) == node_at(b1, chain[j])
                && node_entry(b2, chain[j]) == node_entry(b1, chain[j]),
        forall|level: int|
            hs[p] < level < node_at(b1, chain[p]).height ==> #[trigger] node_next(
                b2,
                chain[p],
                level,
            ) == node_next(b1, chain[p], level),
        entries_of(b2, chain) == entries_of(b1, chain),
        heights_of(b2, chain) == heights_of(b1, chain),
{
    let e = hs[p];
    let hs2 = hs.update(p, e + 1);
    let x = chain[pi];
    let lo = x + 24 + 4 * e;
    let hi = lo + 4;
    assert(node_ok(b1, allocated, tags, chain[pi]));
    assert(hs[pi] <= node_at(b1, chain[pi]).height);
    assert forall|j: int| 0 <= j < chain.len() implies node_at(b2, #[trigger] chain[j]) == node_at(
        b1,
        chain[j],
    ) && node_entry(b2, chain[j]) == node_entry(b1, chain[j]) && node_ok(
        b2,
        allocated,
        tags,
        chain[j],
    ) && (forall|level: int|
        0 <= level < node_at(b1, chain[j]).height && !(j == pi && level == e)
            ==> #[trigger] node_next(b2, chain[j], level) == node_next(b1, chain[j], level)) by {
        assert(node_ok(b1, allocated, tags, chain[j]));
        if j == pi {
            lemma_link_write_frame(b1, b2, allocated, tags, x, e);
        } else {
            if j < pi {
                assert(chain[j] != chain[pi]);
            } else {
                assert(chain[pi] != chain[j]);
            }
            assert forall|q: int| lo <= q < hi implies q >= allocated || (#[trigger] tags[q]
                != chain[j] && tags[q] != 0) by {
                assert(tags[q] == x);
            }
            lemma_node_frame(b1, b2, lo, hi, allocated, tags, chain[j]);
        }
    }
    assert forall|j: int, level: int|
        0 <= j < chain.len() - 1 && 0 <= level < hs2[j] implies #[trigger] node_next(
        b2,
        chain[j],
        level,
    ) == chain[next_at(hs2, j, level)] by {
        assert(hs[j] <= node_at(b1, chain[j]).height);
        if level != e {
            lemma_next_at_raise_other_level(hs, p, j, level);
            assert(level < hs[j]);
            assert(node_next(b1, chain[j], level) == chain[next_at(hs, j, level)]);
            assert(node_next(b2, chain[j], level) == node_next(b1, chain[j], level));
        } else if j == pi {
            lemma_next_at_raise_splice(hs, p, pi, ni);
        } else if j == p {
            lemma_next_at_raise_splice(hs, p, pi, ni);
            assert(node_next(b2, chain[j], level) == node_next(b1, chain[j], level));
        } else {
            assert(hs[j] > e);
            lemma_next_at_raise_same_level(hs, p, pi, ni, j);
            assert(node_next(b1, chain[j], level) == chain[next_at(hs, j, level)]);
            assert(node_next(b2, chain[j], level) == node_next(b1, chain[j], level));
        }
    }
    assert(entries_of(b2, chain) =~= entries_of(b1, chain));
    assert(heights_of(b2, chain) =~= heights_of(b1, chain));
}

/// What holds once fresh bytes `[voff, voff + vlen)` were written and the
/// value word of the node at `j` was pointed to them (or marked as
/// removed): the node has the new value, and everything else is as before.
pub proof fn lemma_value_update(
    b1: Seq<u8>,
    b2: Seq<u8>,
    b3: Seq<u8>,
    a1: int,
    a2: int,
    tags: Seq<int>,
    chain: Seq<int>,
    j: int,
    voff: int,
    vlen: int,
)
    requires
        store_ok(b1, a1, tags, chain),
        links_ok(b1, chain, heights_of(b1, chain)),
        0 <= j < chain.len(),
        a1 <= a2 <= b1.len(),
        0 <= vlen,
        a1 <= voff,
        voff + vlen <= a2,
        agree_outside(b1, b2, voff, voff + vlen),
        agree_outside(b2, b3, chain[j], chain[j] + 8),
        node_at(b3, chain[j]).value_offset == voff,
        node_at(b3, chain[j]).removed() || node_at(b3, chain[j]).value_size == vlen,
    ensures
        store_ok(b3, a2, tags, chain),
        links_ok(b3, chain, heights_of(b3, chain)),
        heights_of(b3, chain) == heights_of(b1, chain),
        forall|k: int|
            0 <= k < chain.len() && k != j ==> node_at(b3, #[trigger] chain[k]) == node_at(
                b1,
                chain[k],
            ) && node_entry(b3, chain[k]) == node_entry(b1, chain[k]),
        node_at(b3, chain[j]).height == node_at(b1, chain[j]).height,
        node_at(b3, chain[j]).key_offset == node_at(b1, chain[j]).key_offset,
        node_at(b3, chain[j]).key_size == node_at(b1, chain[j]).key_size,
        node_entry(b3, chain[j]) == (EntrySpec {
            key: node_key(b1, chain[j]),
            version: node_at(b1, chain[j]).version,
            value: if node_at(b3, chain[j]).removed() {
                None
            } else {
                Some(b2.subrange(voff, voff + vlen))
            },
        }),
        1 <= j < chain.len() - 1 ==> entries_of(b3, chain) == entries_of(b1, chain).update(
            j - 1,
            node_entry(b3, chain[j]),
        ),
        b3.subrange(
            node_at(b1, chain[j]).key_offset as int,
            node_at(b1, chain[j]).key_offset + node_at(b1, chain[j]).key_size,
        ) == node_key(b1, chain[j]),
        !node_at(b1, chain[j]).removed() ==> b3.subrange(
            node_at(b1, chain[j]).value_offset as int,
            node_at(b1, chain[j]).value_offset + node_at(b1, chain[j]).value_size,
        ) == node_value(b1, chain[j])->0,
{
    let x = chain[j];
    let n1 = node_at(b1, x);
    assert(node_ok(b1, a1, tags, chain[j]));
    // after the fresh bytes were written
    assert forall|k: int| 0 <= k < chain.len() implies node_at(b2, #[trigger] chain[k]) == node_at(
        b1,
        chain[k],
    ) && node_entry(b2, chain[k]) == node_entry(b1, chain[k]) && node_ok(b2, a2, tags, chain[k])
        && (forall|level: int|
        0 <= level < node_at(b1, chain[k]).height ==> #[trigger] node_next(b2, chain[k], level)
            == node_next(b1, chain[k], level)) by {
        assert(node_ok(b1, a1, tags, chain[k]));
        lemma_node_frame(b1, b2, voff, voff + vlen, a1, tags, chain[k]);
    }
    // after the value word was written
    lemma_value_write_frame(b2, b3, a2, tags, x);
    assert forall|k: int| 0 <= k < chain.len() && k != j implies node_at(b3, #[trigger] chain[k])
        == node_at(b1, chain[k]) && node_entry(b3, chain[k]) == node_entry(b1, chain[k])
        && node_ok(b3, a2, tags, chain[k]) && (forall|level: int|
        0 <= level < node_at(b1, chain[k]).height ==> #[trigger] node_next(b3, chain[k], level)
            == node_next(b1, chain[k], level)) by {
        if k < j {
            assert(chain[k] != chain[j]);
        } else {
            assert(chain[j] != chain[k]);
        }
        assert(node_ok(b2, a2, tags, chain[k]));
        assert(node_ok(b2, a2, tags, chain[j]));
        assert forall|q: int| x <= q < x + 8 implies q >= a2 || (#[trigger] tags[q] != chain[k]
            && tags[q] != 0) by {
            assert(tags[q] == x);
        }
        lemma_node_frame(b2, b3, x, x + 8, a2, tags, chain[k]);
        assert forall|level: int| 0 <= level < node_at(b1, chain[k]).height implies #[trigger] node_next(
            b3,
            chain[k],
            level,
        ) == node_next(b1, chain[k], level) by {
            assert(node_next(b2, chain[k], level) == node_next(b1, chain[k], level));
        }
    }
    // the node itself
    let n3 = node_at(b3, x);
    assert(node_ok(b2, a2, tags, chain[j]));
    assert(node_key(b3, x) == node_key(b1, x));
    if !n3.removed() {
        assert forall|q: int| voff <= q < voff + vlen implies #[trigger] tags[q] == 0 by {}
        assert(b3.subrange(voff, voff + vlen) == b2.subrange(voff, voff + vlen));
    }
    if !n1.removed() {
        assert(b3.subrange(n1.value_offset as int, n1.value_offset + n1.value_size)
            == b2.subrange(n1.value_offset as int, n1.value_offset + n1.value_size));
    }
    assert(b3.subrange(n1.key_offset as int, n1.key_offset + n1.key_size) == b2.subrange(
        n1.key_offset as int,
        n1.key_offset + n1.key_size,
    ));
    assert(node_ok(b3, a2, tags, x));
    assert forall|level: int| 0 <= level < n1.height implies #[trigger] node_next(b3, x, level)
        == node_next(b1, x, level) by {
        assert(node_next(b2, x, level) == node_next(b1, x, level));
    }
    assert forall|k: int| 0 <= k < chain.len() implies node_ok(b3, a2, tags, #[trigger] chain[k]) by {
        if k != j {
        }
    }
    assert(heights_of(b3, chain) =~= heights_of(b1, chain)) by {
        assert forall|k: int| 0 <= k < chain.len() implies heights_of(b3, chain)[k] == heights_of(
            b1,
            chain,
        )[k] by {
            if k != j {
                assert(node_at(b3, chain[k]) == node_at(b1, chain[k]));
            }
        }
    }
    let hs = heights_of(b1, chain);
    assert forall|k: int, level: int|
        0 <= k < chain.len() - 1 && 0 <= level < hs[k] implies #[trigger] node_next(
        b3,
        chain[k],
        level,
    ) == chain[next_at(hs, k, level)] by {
        assert(hs[k] == node_at(b1, chain[k]).height);
        assert(node_next(b1, chain[k], level) == chain[next_at(hs, k, level)]);
        if k != j {
            assert(node_at(b3, chain[k]) == node_at(b1, chain[k]));
        }
        assert(node_next(b3, chain[k], level) == node_next(b1, chain[k], level));
    }
    if 1 <= j < chain.len() - 1 {
        let e1 = entries_of(b1, chain).update(j - 1, node_entry(b3, chain[j]));
        let e3 = entries_of(b3, chain);
        assert forall|i: int| 0 <= i < e3.len() implies e3[i] == e1[i] by {
            if i != j - 1 {
                assert(node_entry(b3, chain[i + 1]) == node_entry(b1, chain[i + 1]));
            }
        }
        assert(e3 =~= e1);
    }
}

} // verus!
