//! What a read hands out: a view of one entry whose key and value bytes are
//! borrowed from the arena.

use vstd::prelude::*;
use vstd::slice::slice_subrange;
use crate::comparator::Comparator;
use crate::layout::{entries_of, node_entry, node_ok};
use crate::map::SkipMap;
use crate::model::EntrySpec;
use crate::node::{load_node, opt_view};

verus! {

/// The fixed-size record that every entry carries besides key and value. It
/// holds at least a version.
pub trait Trailer {
    /// The version that the trailer holds.
    spec fn spec_version(&self) -> u64;

    /// The version that the trailer holds.
    fn version(&self) -> (v: u64)
        ensures
            v == self.spec_version(),
    ;
}

impl Trailer for u64 {
    open spec fn spec_version(&self) -> u64 {
        *self
    }

    fn version(&self) -> (v: u64) {
        *self
    }
}

/// One entry of a map. The bytes of key and value stay in the arena.
#[derive(Debug)]
pub struct EntryRef<'a, C: Comparator> {
    pub(crate) comparator: &'a C,
    pub(crate) key: &'a [u8],
    pub(crate) trailer: u64,
    pub(crate) value: Option<&'a [u8]>,
}

impl<'a, C: Comparator> Clone for EntryRef<'a, C> {
    fn clone(&self) -> (r: Self)
        ensures
            r == *self,
    {
        EntryRef {
            comparator: self.comparator,
            key: self.key,
            trailer: self.trailer,
            value: self.value,
        }
    }
}

impl<'a, C: Comparator> Copy for EntryRef<'a, C> {

}

impl<'a, C: Comparator> View for EntryRef<'a, C> {
    type V = EntrySpec;

    closed spec fn view(&self) -> EntrySpec {
        EntrySpec { key: self.key@, version: self.trailer, value: opt_view(self.value) }
    }
}

impl<'a, C: Comparator> EntryRef<'a, C> {
    /// The comparator of the map that the entry came from.
    pub closed spec fn spec_comparator(&self) -> &C {
        self.comparator
    }

    /// The view of an entry, field by field.
    pub(crate) proof fn lemma_view(&self)
        ensures
            self@.key == self.key@,
            self@.version == self.trailer,
            self@.value == opt_view(self.value),
            self.spec_comparator() == self.comparator,
    {
    }

    /// The key of the entry.
    pub fn key(&self) -> (k: &'a [u8])
        ensures
            k@ == self@.key,
    {
        self.key
    }

    /// The value of the entry; empty if the entry marks a removal.
    pub fn value(&self) -> (v: &'a [u8])
        ensures
            v@ == match self@.value {
                Some(bytes) => bytes,
                None => Seq::<u8>::empty(),
            },
    {
        match self.value {
            Some(v) => v,
            None => slice_subrange(self.key, 0, 0),
        }
    }

    /// The trailer of the entry: its version.
    pub fn trailer(&self) -> (t: &u64)
        ensures
            *t == self@.version,
    {
        &self.trailer
    }

    /// Whether the entry marks a removal.
    pub fn is_removed(&self) -> (b: bool)
        ensures
            b == (self@.value is None),
    {
        self.value.is_none()
    }

    /// The version of the entry.
    pub fn version(&self) -> (v: u64)
        ensures
            v == self@.version,
    {
        self.trailer
    }
}

impl<C: Comparator> SkipMap<C> {
    /// The entry that the node at `off` stands for.
    pub(crate) fn entry_at<'a>(&'a self, off: u32, Ghost(j): Ghost<int>) -> (e: EntryRef<'a, C>)
        requires
            self.wf(),
            1 <= j < self.chain@.len() - 1,
            self.chain@[j] == off,
        ensures
            e@ == self@[j - 1],
            e@ == node_entry(self.arena@, off as int),
            e.spec_comparator() == self.spec_comparator(),
    {
        proof {
            self.lemma_inv();
            self.arena.lemma_wf();
            assert(node_ok(self.arena@, self.arena.spec_size() as int, self.tags@, self.chain@[j]));
            assert(entries_of(self.arena@, self.chain@)[j - 1] == node_entry(
                self.arena@,
                self.chain@[j - 1 + 1],
            ));
        }
        let n = load_node(&self.arena, off);
        let key = self.arena.get_bytes(n.key_offset as usize, n.key_size as usize);
        let value = if n.removed() {
            None
        } else {
            Some(self.arena.get_bytes(n.value_offset as usize, n.value_size as usize))
        };
        EntryRef { comparator: &self.comparator, key, trailer: n.version, value }
    }
}

} // verus!
