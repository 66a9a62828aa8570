//! What holds of every map, stated over its model.

use vstd::prelude::*;

use crate::comparator::{Comparator, Order};
use crate::filter::{lemma_equal_keys, lemma_later_in_run};
use crate::error::Error;
use crate::layout::{heights_of, node_ok};
use crate::links::{is_next, lemma_is_next_unique, lemma_next_at_is_next, next_at};
use crate::map::SkipMap;
use crate::model::{
    adjacent_ordered,
    at_pair,
    before,
    holds_pair,
    is_newest_visible,
    latest,
    yields,
    Filter,
    lemma_pair_reflexive,
    lemma_rank_bounds,
    lemma_rank_is,
    lemma_rank_splits,
    lemma_sorted_adjacent,
    lemma_sorted_insert_at_rank,
    rank,
    sorted,
    EntrySpec,
};
use crate::node::node_at;
use crate::ops::{write_spec, MapState};
use crate::options::Options;

verus! {

impl<C: Comparator> SkipMap<C> {
    /// Of two entries that follow each other, the first has the lesser
    /// key, or the keys are equal and the first has the higher version.
    pub proof fn lemma_adjacent_entries_ordered(&self)
        requires
            self.wf(),
        ensures
            adjacent_ordered(self.spec_comparator(), self@),
    {
        self.lemma_wf();
        lemma_sorted_adjacent(self.spec_comparator(), self@);
    }

    /// The bottom level links each node to the next one: it is the chain
    /// of all nodes. The entries of the map are the entries of the nodes
    /// between head and tail.
    pub proof fn lemma_bottom_chain(&self, j: int)
        requires
            self.wf(),
            0 <= j < self.spec_nodes().len() - 1,
        ensures
            self.spec_nodes().len() == self@.len() + 2,
            self.spec_tower_height(self.spec_nodes()[j]) >= 1,
            self.spec_link(self.spec_nodes()[j], 0) == self.spec_nodes()[j + 1],
    {
        self.lemma_inv();
        let bytes = self.arena@;
        let chain = self.chain@;
        let hs = heights_of(bytes, chain);
        assert(node_ok(bytes, self.arena.spec_size() as int, self.tags@, chain[j]));
        assert(node_ok(bytes, self.arena.spec_size() as int, self.tags@, chain[j + 1]));
        assert(hs[j] == node_at(bytes, chain[j]).height);
        assert(hs[j + 1] == node_at(bytes, chain[j + 1]).height);
        assert(is_next(hs, j, 0, j + 1));
        lemma_is_next_unique(hs, j, 0, j + 1);
    }

    /// Towers are nested: the link of a node at any of its levels points
    /// to a node further along the bottom chain, namely to the nearest
    /// one whose tower reaches that level.
    pub proof fn lemma_tower_nesting(&self, j: int, level: int) -> (k: int)
        requires
            self.wf(),
            0 <= j < self.spec_nodes().len() - 1,
            0 <= level < self.spec_tower_height(self.spec_nodes()[j]),
        ensures
            j < k < self.spec_nodes().len(),
            self.spec_link(self.spec_nodes()[j], level) == self.spec_nodes()[k],
            level < self.spec_tower_height(self.spec_nodes()[k]),
            forall|m: int|
                j < m < k ==> self.spec_tower_height(#[trigger] self.spec_nodes()[m]) <= level,
    {
        self.lemma_inv();
        self.opts.lemma_wf();
        let bytes = self.arena@;
        let chain = self.chain@;
        let hs = heights_of(bytes, chain);
        let k = next_at(hs, j, level);
        lemma_next_at_is_next(hs, j, level);
        assert(hs[j] == node_at(bytes, chain[j]).height);
        assert(hs[k] == node_at(bytes, chain[k]).height);
        assert(node_ok(bytes, self.arena.spec_size() as int, self.tags@, chain[j]));
        assert forall|m: int| j < m < k implies self.spec_tower_height(
            #[trigger] self.spec_nodes()[m],
        ) <= level by {
            assert(hs[m] == node_at(bytes, chain[m]).height);
        }
        k
    }
}

/// Among the writers of one pair there is one winner: once a
/// `get_or_insert` of `(key, version)` has inserted its value, every later
/// `get_or_insert` of the same pair, whatever its value and tower height,
/// returns the winner's entry and changes nothing.
pub proof fn lemma_one_winner<C: Comparator>(
    c: &C,
    opts: Options,
    capacity: nat,
    pre: MapState,
    h1: u8,
    h2: u8,
    version: u64,
    key: Seq<u8>,
    v1: Seq<u8>,
    v2: Seq<u8>,
)
    requires
        sorted(c, pre.entries),
        write_spec(c, opts, false, capacity, pre, h1, version, key, Some(v1), false).1 == Ok::<
            Option<EntrySpec>,
            Error,
        >(None),
        v2.len() <= opts.spec_max_value_size(),
    ensures
        ({
            let mid = write_spec(c, opts, false, capacity, pre, h1, version, key, Some(v1), false).0;
            write_spec(c, opts, false, capacity, mid, h2, version, key, Some(v2), false) == (
                mid,
                Ok::<Option<EntrySpec>, Error>(
                    Some(EntrySpec { key: key, version: version, value: Some(v1) }),
                ),
            )
        }),
{
    let s = pre.entries;
    let e = EntrySpec { key: key, version: version, value: Some(v1) };
    let p = rank(c, s, key, version);
    lemma_sorted_insert_at_rank(c, s, e);
    lemma_rank_splits(c, s, key, version);
    let t = s.insert(p, e);
    lemma_pair_reflexive(c, key, version);
    assert forall|i: int| 0 <= i < p implies before(c, #[trigger] t[i], key, version) by {
        assert(t[i] == s[i]);
    }
    assert forall|i: int| p <= i < t.len() implies !before(c, #[trigger] t[i], key, version) by {
        if i > p {
            assert(t[i] == s[i - 1]);
        }
    }
    lemma_rank_is(c, t, key, version, p);
    assert(at_pair(c, t[p], key, version));
}

/// A value is replaced as a whole: after an `insert` of a pair that the
/// map holds, the entry has the new value and nothing of the old one, and
/// all other entries are as before.
pub proof fn lemma_replace_whole<C: Comparator>(
    c: &C,
    opts: Options,
    capacity: nat,
    pre: MapState,
    height: u8,
    version: u64,
    key: Seq<u8>,
    value: Seq<u8>,
)
    requires
        holds_pair(c, pre.entries, key, version),
        write_spec(c, opts, false, capacity, pre, height, version, key, Some(value), true).1 is Ok,
    ensures
        ({
            let p = rank(c, pre.entries, key, version);
            let post = write_spec(
                c,
                opts,
                false,
                capacity,
                pre,
                height,
                version,
                key,
                Some(value),
                true,
            ).0;
            &&& post.entries.len() == pre.entries.len()
            &&& post.entries[p].value == Some(value)
            &&& post.entries[p].key == pre.entries[p].key
            &&& post.entries[p].version == pre.entries[p].version
            &&& forall|i: int|
                0 <= i < pre.entries.len() && i != p ==> #[trigger] post.entries[i]
                    == pre.entries[i]
        }),
{
    lemma_rank_bounds(c, pre.entries, key, version);
}

/// An iterator over the newest versions shows an entry exactly if a
/// reader at the iterator's version gets that entry for its key.
pub proof fn lemma_iter_shows_what_get_returns<C: Comparator>(
    c: &C,
    s: Seq<EntrySpec>,
    version: u64,
    i: int,
)
    requires
        0 <= i < s.len(),
    ensures
        yields(c, s, latest(version), i) <==> is_newest_visible(c, s, s[i].key, version, i),
{
}

/// An iterator over the newest versions shows at most one entry of each
/// key.
pub proof fn lemma_one_entry_per_key<C: Comparator>(
    c: &C,
    s: Seq<EntrySpec>,
    f: Filter,
    i: int,
    j: int,
)
    requires
        sorted(c, s),
        !f.all_versions,
        yields(c, s, f, i),
        yields(c, s, f, j),
        c.spec_compare(s[i].key, s[j].key) == Order::Equal,
    ensures
        i == j,
{
    lemma_equal_keys(c, s[i].key, s[j].key, s[j].key);
    if i < j {
        lemma_later_in_run(c, s, f, i, j);
    } else if j < i {
        lemma_later_in_run(c, s, f, j, i);
    }
}

} // verus!
