//! The layout of a node inside the arena, and how its fields are read.
//!
//! A node is a fixed header followed by its tower: one 32-bit link for each
//! level it takes part in. Key and value bytes lie elsewhere in the arena
//! and are reached through offsets in the header.
//!
//! | bytes        | field                                             |
//! |--------------|---------------------------------------------------|
//! | `0..8`       | value word: offset (low half), length (high half) |
//! | `8..12`      | key offset                                        |
//! | `12..16`     | key size (27 low bits) and height (5 high bits)   |
//! | `16..24`     | version                                           |
//! | `24..24+4h`  | tower: the next node's offset at each level       |

use vstd::prelude::*;
use crate::arena::Arena;
use crate::codec::{
    decode_key_size_and_height,
    decode_value,
    encode_key_size_and_height,
    encode_value,
    is_removed,
    MAX_KEY_SIZE,
    MAX_VALUE_SIZE,
    REMOVED,
    spec_decode_key_size_and_height,
    spec_decode_value,
    spec_is_removed,
    spec_u32_le,
    spec_u64_le,
    MAX_HEIGHT,
};

verus! {

/// The size of a node of full height.
pub const MAX_NODE_SIZE: usize = 104;

/// Nodes start at multiples of this.
pub const NODE_ALIGN: u32 = 8;

/// The number of bytes that a node of height `height` takes.
pub open spec fn spec_node_size(height: int) -> int {
    24 + 4 * height
}

/// The number of bytes that a node of height `height` takes.
pub fn node_size(height: u8) -> (n: u32)
    requires
        height <= MAX_HEIGHT,
    ensures
        n == spec_node_size(height as int),
{
    24 + 4 * (height as u32)
}

/// What the bytes of a node say, field by field.
pub struct NodeSpec {
    pub value_offset: u32,
    pub value_size: u32,
    pub key_offset: u32,
    pub key_size: u32,
    pub height: u8,
    pub version: u64,
}

impl NodeSpec {
    /// Whether the node stands for a removed entry.
    pub open spec fn removed(self) -> bool {
        spec_is_removed(self.value_size)
    }

    /// The number of value bytes that the node refers to.
    pub open spec fn value_len(self) -> int {
        if self.removed() {
            0
        } else {
            self.value_size as int
        }
    }

    /// The number of bytes of header and tower.
    pub open spec fn size(self) -> int {
        spec_node_size(self.height as int)
    }
}

/// The header of the node at `off`.
pub open spec fn node_at(bytes: Seq<u8>, off: int) -> NodeSpec {
    let word = spec_u64_le(bytes, off);
    let packed = spec_u32_le(bytes, off + 12);
    NodeSpec {
        value_offset: spec_decode_value(word).0,
        value_size: spec_decode_value(word).1,
        key_offset: spec_u32_le(bytes, off + 8),
        key_size: spec_decode_key_size_and_height(packed).0,
        height: spec_decode_key_size_and_height(packed).1,
        version: spec_u64_le(bytes, off + 16),
    }
}

/// The link of the node at `off` at level `level`.
pub open spec fn node_next(bytes: Seq<u8>, off: int, level: int) -> u32 {
    spec_u32_le(bytes, off + 24 + 4 * level)
}

/// The key bytes of the node at `off`.
pub open spec fn node_key(bytes: Seq<u8>, off: int) -> Seq<u8> {
    let n = node_at(bytes, off);
    bytes.subrange(n.key_offset as int, n.key_offset as int + n.key_size as int)
}

/// The value bytes of the node at `off`; `None` for a removed entry.
pub open spec fn node_value(bytes: Seq<u8>, off: int) -> Option<Seq<u8>> {
    let n = node_at(bytes, off);
    if n.removed() {
        None
    } else {
        Some(bytes.subrange(n.value_offset as int, n.value_offset as int + n.value_size as int))
    }
}

/// Two byte sequences of one length that differ at most inside `[lo, hi)`.
pub open spec fn agree_outside(b1: Seq<u8>, b2: Seq<u8>, lo: int, hi: int) -> bool {
    &&& b1.len() == b2.len()
    &&& forall|i: int| 0 <= i < b1.len() && !(lo <= i < hi) ==> b1[i] == #[trigger] b2[i]
}

/// Whether `[a, a + n)` and `[lo, hi)` have no position in common.
pub open spec fn apart(a: int, n: int, lo: int, hi: int) -> bool {
    n <= 0 || hi <= lo || a + n <= lo || hi <= a
}

/// A 32-bit field away from the bytes that changed reads as before.
pub proof fn lemma_u32_frame(b1: Seq<u8>, b2: Seq<u8>, lo: int, hi: int, at: int)
    requires
        agree_outside(b1, b2, lo, hi),
        0 <= at,
        at + 4 <= b1.len(),
        apart(at, 4, lo, hi),
    ensures
        spec_u32_le(b2, at) == spec_u32_le(b1, at),
{
    reveal(spec_u32_le);
    assert(b2[at] == b1[at]);
    assert(b2[at + 1] == b1[at + 1]);
    assert(b2[at + 2] == b1[at + 2]);
    assert(b2[at + 3] == b1[at + 3]);
}

/// A 64-bit field away from the bytes that changed reads as before.
pub proof fn lemma_u64_frame(b1: Seq<u8>, b2: Seq<u8>, lo: int, hi: int, at: int)
    requires
        agree_outside(b1, b2, lo, hi),
        0 <= at,
        at + 8 <= b1.len(),
        apart(at, 8, lo, hi),
    ensures
        spec_u64_le(b2, at) == spec_u64_le(b1, at),
{
    reveal(spec_u64_le);
    lemma_u32_frame(b1, b2, lo, hi, at);
    lemma_u32_frame(b1, b2, lo, hi, at + 4);
}

/// A run of bytes away from the bytes that changed reads as before.
pub proof fn lemma_subrange_frame(b1: Seq<u8>, b2: Seq<u8>, lo: int, hi: int, at: int, n: int)
    requires
        agree_outside(b1, b2, lo, hi),
        0 <= at,
        0 <= n,
        at + n <= b1.len(),
        apart(at, n, lo, hi),
    ensures
        b2.subrange(at, at + n) == b1.subrange(at, at + n),
{
    assert(b2.subrange(at, at + n) =~= b1.subrange(at, at + n));
}

/// The header of a node whose 24 header bytes did not change reads as before.
pub proof fn lemma_header_frame(b1: Seq<u8>, b2: Seq<u8>, lo: int, hi: int, off: int)
    requires
        agree_outside(b1, b2, lo, hi),
        0 <= off,
        off + 24 <= b1.len(),
        apart(off, 24, lo, hi),
    ensures
        node_at(b2, off) == node_at(b1, off),
{
    lemma_u64_frame(b1, b2, lo, hi, off);
    lemma_u32_frame(b1, b2, lo, hi, off + 8);
    lemma_u32_frame(b1, b2, lo, hi, off + 12);
    lemma_u64_frame(b1, b2, lo, hi, off + 16);
}

/// Reads the header of the node at `off`.
pub fn load_node(arena: &Arena, off: u32) -> (n: NodeView)
    requires
        off + 24 <= arena.spec_capacity(),
    ensures
        n@ == node_at(arena@, off as int),
        n.key_size <= crate::codec::MAX_KEY_SIZE,
        n.height <= crate::codec::MAX_ENCODED_HEIGHT,
{
    let _cap: usize = arena.capacity();
    let word: u64 = arena.load_u64(off as usize);
    let (value_offset, value_size) = decode_value(word);
    let key_offset: u32 = arena.load_u32(off as usize + 8);
    let packed: u32 = arena.load_u32(off as usize + 12);
    let (key_size, height) = decode_key_size_and_height(packed);
    let version: u64 = arena.load_u64(off as usize + 16);
    NodeView { value_offset, value_size, key_offset, key_size, height, version }
}

/// The header of a node, as read from the arena.
#[derive(Debug, Clone, Copy)]
pub struct NodeView {
    pub value_offset: u32,
    pub value_size: u32,
    pub key_offset: u32,
    pub key_size: u32,
    pub height: u8,
    pub version: u64,
}

impl View for NodeView {
    type V = NodeSpec;

    open spec fn view(&self) -> NodeSpec {
        NodeSpec {
            value_offset: self.value_offset,
            value_size: self.value_size,
            key_offset: self.key_offset,
            key_size: self.key_size,
            height: self.height,
            version: self.version,
        }
    }
}

impl NodeView {
    /// Whether the node stands for a removed entry.
    pub fn removed(&self) -> (b: bool)
        ensures
            b == self@.removed(),
    {
        is_removed(self.value_size)
    }
}

/// Reads the link of the node at `off` at level `level`.
pub fn load_next(arena: &Arena, off: u32, level: usize) -> (next: u32)
    requires
        level < MAX_HEIGHT,
        off + 24 + 4 * level + 4 <= arena.spec_capacity(),
    ensures
        next == node_next(arena@, off as int, level as int),
{
    let _cap: usize = arena.capacity();
    arena.load_u32(off as usize + 24 + 4 * level)
}

/// The length of an optional value, 0 if there is none.
pub open spec fn opt_len(value: Option<&[u8]>) -> int {
    match value {
        Some(v) => v@.len() as int,
        None => 0,
    }
}

/// An optional slice as an optional sequence.
pub open spec fn opt_view(value: Option<&[u8]>) -> Option<Seq<u8>> {
    match value {
        Some(v) => Some(v@),
        None => None,
    }
}

/// Writes a whole node at `off`: header, tower, then the key bytes and the
/// value bytes right behind the tower. Without a value, the node is written
/// as a removed entry.
pub fn write_node(
    arena: &mut Arena,
    off: u32,
    height: u8,
    version: u64,
    key: &[u8],
    value: Option<&[u8]>,
    nexts: &[u32],
)
    requires
        old(arena).wf(),
        1 <= off,
        1 <= height <= MAX_HEIGHT,
        key@.len() <= MAX_KEY_SIZE,
        opt_len(value) <= MAX_VALUE_SIZE,
        nexts@.len() >= height,
        off + spec_node_size(height as int) + key@.len() + opt_len(value) <= old(
            arena,
        ).spec_capacity(),
    ensures
        final(arena).wf(),
        final(arena).spec_size() == old(arena).spec_size(),
        final(arena).spec_capacity() == old(arena).spec_capacity(),
        agree_outside(
            old(arena)@,
            final(arena)@,
            off as int,
            off + spec_node_size(height as int) + key@.len() + opt_len(value),
        ),
        node_at(final(arena)@, off as int) == (NodeSpec {
            value_offset: (off + spec_node_size(height as int) + key@.len()) as u32,
            value_size: match value {
                Some(v) => v@.len() as u32,
                None => REMOVED,
            },
            key_offset: (off + spec_node_size(height as int)) as u32,
            key_size: key@.len() as u32,
            height: height,
            version: version,
        }),
        forall|l: int|
            0 <= l < height ==> #[trigger] node_next(final(arena)@, off as int, l) == nexts@[l],
        node_key(final(arena)@, off as int) == key@,
        node_value(final(arena)@, off as int) == opt_view(value),
{
    proof {
        arena.lemma_wf();
    }
    let _cap: usize = arena.capacity();
    let ghost b0 = arena@;
    let nsize: u32 = node_size(height);
    let klen: u32 = key.len() as u32;
    let koff: u32 = off + nsize;
    let voff: u32 = koff + klen;
    let ghost total: int = nsize + klen + opt_len(value);
    arena.put_bytes(koff as usize, key);
    let vsize: u32 = match value {
        Some(v) => {
            arena.put_bytes(voff as usize, v);
            v.len() as u32
        },
        None => REMOVED,
    };
    let ghost b2 = arena@;
    proof {
        arena.lemma_view_len();
        assert(b2.subrange(koff as int, koff + klen) =~= key@);
        if let Some(v) = value {
            assert(b2.subrange(voff as int, voff + v@.len()) =~= v@);
        }
        assert(agree_outside(b0, b2, off as int, off + total));
    }
    let mut l: usize = 0;
    while l < height as usize
        invariant
            l <= height,
            1 <= height <= MAX_HEIGHT,
            nexts@.len() >= height,
            arena.wf(),
            arena.spec_size() == old(arena).spec_size(),
            arena.spec_capacity() == old(arena).spec_capacity(),
            arena@.len() == arena.spec_capacity(),
            arena.spec_capacity() <= u32::MAX,
            nsize == spec_node_size(height as int),
            off + nsize <= arena.spec_capacity(),
            agree_outside(b2, arena@, off as int, off + nsize),
            forall|m: int| 0 <= m < l ==> #[trigger] node_next(arena@, off as int, m) == nexts@[m],
        decreases height - l,
    {
        let ghost prev = arena@;
        arena.store_u32(off as usize + 24 + 4 * l, nexts[l]);
        proof {
            let cur = arena@;
            let slot = off as int + 24 + 4 * l;
            assert(agree_outside(prev, cur, slot, slot + 4));
            assert forall|m: int| 0 <= m < l + 1 implies #[trigger] node_next(
                cur,
                off as int,
                m,
            ) == nexts@[m] by {
                if m < l {
                    assert(node_next(prev, off as int, m) == nexts@[m]);
                    lemma_u32_frame(prev, cur, slot, slot + 4, off as int + 24 + 4 * m);
                }
            }
        }
        l = l + 1;
    }
    let ghost b3 = arena@;
    let word: u64 = encode_value(voff, vsize);
    let packed: u32 = encode_key_size_and_height(klen, height);
    arena.store_u64(off as usize, word);
    let ghost b4 = arena@;
    arena.store_u32(off as usize + 8, koff);
    let ghost b5 = arena@;
    arena.store_u32(off as usize + 12, packed);
    let ghost b6 = arena@;
    arena.store_u64(off as usize + 16, version);
    let ghost b7 = arena@;
    proof {
        let o = off as int;
        assert(agree_outside(b3, b4, o, o + 8));
        assert(agree_outside(b4, b5, o + 8, o + 12));
        assert(agree_outside(b5, b6, o + 12, o + 16));
        assert(agree_outside(b6, b7, o + 16, o + 24));
        lemma_u64_frame(b4, b5, o + 8, o + 12, o);
        lemma_u64_frame(b5, b6, o + 12, o + 16, o);
        lemma_u64_frame(b6, b7, o + 16, o + 24, o);
        lemma_u32_frame(b5, b6, o + 12, o + 16, o + 8);
        lemma_u32_frame(b6, b7, o + 16, o + 24, o + 8);
        lemma_u32_frame(b6, b7, o + 16, o + 24, o + 12);
        assert(agree_outside(b3, b7, o, o + 24));
        assert(agree_outside(b2, b7, o, o + nsize));
        assert(agree_outside(b0, b7, o, o + total));
        assert forall|m: int| 0 <= m < height implies #[trigger] node_next(b7, o, m)
            == nexts@[m] by {
            assert(node_next(b3, o, m) == nexts@[m]);
            lemma_u32_frame(b3, b7, o, o + 24, o + 24 + 4 * m);
        }
        lemma_subrange_frame(b2, b7, o, o + nsize, koff as int, klen as int);
        if let Some(v) = value {
            lemma_subrange_frame(b2, b7, o, o + nsize, voff as int, v@.len() as int);
        }
    }
}

/// A pointer to a node: its offset in the arena.
#[derive(Debug, Clone, Copy, PartialEq, Eq, Structural)]
pub struct NodePtr {
    pub offset: u32,
}

impl NodePtr {
    /// The nil pointer: offset 0, which no node has.
    pub fn null() -> (p: NodePtr)
        ensures
            p.offset == 0,
    {
        NodePtr { offset: 0 }
    }

    /// Whether this is the nil pointer.
    pub fn is_null(&self) -> (b: bool)
        ensures
            b == (self.offset == 0),
    {
        self.offset == 0
    }
}

} // verus!
