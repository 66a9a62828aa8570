//! Writes: inserting entries, replacing values, marking entries as removed.

use vstd::prelude::*;
use crate::arena::alloc_fits;

use crate::comparator::{Comparator, Order};
use crate::either::Either;
use crate::entry::EntryRef;
use crate::error::{ArenaError, Error};
use crate::layout::{node_entry, node_ok};
use crate::map::SkipMap;
use crate::model::{holds_pair, rank, visible, EntrySpec};
use crate::sampler::random_height;
use crate::node::{load_node, opt_view};
use crate::options::Options;
use crate::write::{node_fits, node_reserve, node_space};

verus! {

/// What a write can change of a map: its entries, how much of the arena is
/// taken, and the height of the highest tower.
pub struct MapState {
    pub entries: Seq<EntrySpec>,
    pub allocated: nat,
    pub height: u8,
}

/// The length of an optional value, 0 if there is none.
pub open spec fn spec_opt_len(value: Option<Seq<u8>>) -> nat {
    match value {
        Some(v) => v.len(),
        None => 0,
    }
}

/// What writing `(key, version)` with the given value does to a map in
/// state `pre`, and what it returns. Without a value the entry written is a
/// removal mark. `height` is the tower height that a new node gets.
///
/// - A read-only map, a key or a value that is too long: an error, and
///   nothing changes.
/// - The map holds the pair already: the entry found is returned. With
///   `replace` its value is replaced, for which the new value's bytes must
///   fit into the arena.
/// - The map does not hold the pair: a new entry is inserted at the pair's
///   rank if a node for it fits into the arena, and nothing is returned.
pub open spec fn write_spec<C: Comparator>(
    c: &C,
    opts: Options,
    read_only: bool,
    capacity: nat,
    pre: MapState,
    height: u8,
    version: u64,
    key: Seq<u8>,
    value: Option<Seq<u8>>,
    replace: bool,
) -> (MapState, Result<Option<EntrySpec>, Error>) {
    let s = pre.entries;
    let p = rank(c, s, key, version);
    let vlen = spec_opt_len(value);
    if read_only {
        (pre, Err(Error::ReadOnly))
    } else if key.len() > opts.spec_max_key_size() {
        (
            pre,
            Err(
                Error::KeyTooLarge { size: key.len() as u64, max: opts.spec_max_key_size() as u64 },
            ),
        )
    } else if vlen > opts.spec_max_value_size() {
        (
            pre,
            Err(Error::ValueTooLarge { size: vlen as u64, max: opts.spec_max_value_size() as u64 }),
        )
    } else if holds_pair(c, s, key, version) {
        if !replace {
            (pre, Ok(Some(s[p])))
        } else if alloc_fits(pre.allocated, capacity, vlen, 1, 0) {
            (
                MapState {
                    entries: s.update(
                        p,
                        EntrySpec { key: s[p].key, version: s[p].version, value: value },
                    ),
                    allocated: pre.allocated + vlen,
                    height: pre.height,
                },
                Ok(Some(s[p])),
            )
        } else {
            (
                pre,
                Err(
                    Error::Arena(
                        ArenaError::InsufficientSpace {
                            requested: vlen as u64,
                            remaining: (capacity - pre.allocated) as u64,
                        },
                    ),
                ),
            )
        }
    } else if node_fits(pre.allocated, capacity, height as int, key.len() as int, vlen as int) {
        (
            MapState {
                entries: s.insert(p, EntrySpec { key: key, version: version, value: value }),
                allocated: (pre.allocated + node_space(height as int, key.len() as int, vlen as int)
                    + 7) as nat,
                height: if height > pre.height {
                    height
                } else {
                    pre.height
                },
            },
            Ok(None),
        )
    } else {
        (
            pre,
            Err(
                Error::Arena(
                    ArenaError::InsufficientSpace {
                        requested: (node_space(height as int, key.len() as int, vlen as int) + 7
                            + node_reserve(height as int)) as u64,
                        remaining: (capacity - pre.allocated) as u64,
                    },
                ),
            ),
        )
    }
}

/// What a write returned, with the entry as a mathematical value.
pub open spec fn result_view<'a, C: Comparator>(
    r: Result<Option<EntryRef<'a, C>>, Error>,
) -> Result<Option<EntrySpec>, Error> {
    match r {
        Ok(Some(e)) => Ok(Some(e@)),
        Ok(None) => Ok(None),
        Err(e) => Err(e),
    }
}

impl<C: Comparator> SkipMap<C> {
    /// What a write can change of the map.
    pub open spec fn state(&self) -> MapState {
        MapState {
            entries: self@,
            allocated: self.spec_allocated(),
            height: self.spec_height(),
        }
    }

    /// Writes `(key, version)` with the given value, or as a removal mark
    /// if there is none. A new node gets a tower of `height` levels.
    pub(crate) fn write<'a>(
        &'a mut self,
        height: u8,
        version: u64,
        key: &[u8],
        value: Option<&[u8]>,
        replace: bool,
    ) -> (r: Result<Option<EntryRef<'a, C>>, Error>)
        requires
            old(self).wf(),
            1 <= height <= old(self).spec_options().spec_max_height(),
        ensures
            final(self).wf(),
            final(self).spec_options() == old(self).spec_options(),
            final(self).spec_comparator() == old(self).spec_comparator(),
            final(self).spec_read_only() == old(self).spec_read_only(),
            final(self).spec_capacity() == old(self).spec_capacity(),
            (final(self).state(), result_view(r)) == write_spec(
                old(self).spec_comparator(),
                old(self).spec_options(),
                old(self).spec_read_only(),
                old(self).spec_capacity(),
                old(self).state(),
                height,
                version,
                key@,
                opt_view(value),
                replace,
            ),
            r matches Ok(Some(e)) ==> e.spec_comparator() == old(self).spec_comparator(),
    {
        proof {
            self.lemma_inv();
            self.lemma_wf();
            self.opts.lemma_wf();
        }
        if self.read_only {
            return Err(Error::ReadOnly);
        }
        let max_key: u32 = self.opts.max_key_size();
        let max_value: u32 = self.opts.max_value_size();
        if key.len() > max_key as usize {
            return Err(Error::KeyTooLarge { size: key.len() as u64, max: max_key as u64 });
        }
        let vlen: usize = match value {
            Some(v) => v.len(),
            None => 0,
        };
        if vlen > max_value as usize {
            return Err(Error::ValueTooLarge { size: vlen as u64, max: max_value as u64 });
        }
        let (prevs, nexts, Ghost(pis), Ghost(nis)) = self.find_splices(key, version);
        let next: u32 = nexts[0];
        let ghost j = nis[0];
        let ghost s = self@;
        let ghost c = &self.comparator;
        proof {
            assert(self.is_splice(key@, version, 0, pis[0], nis[0], prevs@[0], nexts@[0]));
            self.lemma_bottom_splice(key@, version, pis[0], nis[0], prevs@[0], nexts@[0]);
            reveal(SkipMap::is_splice);
            if j != self.chain@.len() - 1 {
                assert(self.chain@[j] != self.chain@[self.chain@.len() - 1]);
                assert(s[j - 1] == node_entry(self.arena@, self.chain@[j - 1 + 1]));
            }
        }
        let found: bool = next != self.tail && match self.compare_node(
            next,
            key,
            version,
            Ghost(j),
        ) {
            Order::Equal => true,
            _ => false,
        };
        assert(found == holds_pair(c, s, key@, version));
        if found {
            if !replace {
                let e = self.entry_at(next, Ghost(j));
                return Ok(Some(e));
            }
            proof {
                assert(node_ok(
                    self.arena@,
                    self.arena.spec_size() as int,
                    self.tags@,
                    self.chain@[j],
                ));
                self.arena.lemma_wf();
            }
            let n0 = load_node(&self.arena, next);
            match self.update_value(next, value, Ghost(j)) {
                Ok(()) => {},
                Err(e) => {
                    proof {
                        self.lemma_inv();
                    }
                    return Err(Error::Arena(e));
                },
            }
            proof {
                self.lemma_inv();
                self.arena.lemma_wf();
            }
            let old_key = self.arena.get_bytes(n0.key_offset as usize, n0.key_size as usize);
            let old_value = if n0.removed() {
                None
            } else {
                Some(self.arena.get_bytes(n0.value_offset as usize, n0.value_size as usize))
            };
            let e = EntryRef {
                comparator: &self.comparator,
                key: old_key,
                trailer: n0.version,
                value: old_value,
            };
            proof {
                e.lemma_view();
                assert(e@ =~= s[j - 1]);
            }
            return Ok(Some(e));
        }
        match self.insert_node(height, version, key, value, &prevs, &nexts, Ghost(pis), Ghost(nis)) {
            Ok(()) => {
                proof {
                    self.lemma_inv();
                }
                Ok(None)
            },
            Err(e) => {
                proof {
                    self.lemma_inv();
                }
                Err(Error::Arena(e))
            },
        }
    }

    /// Inserts `key` at `version` with `value` unless the map holds the
    /// pair already, in which case the entry found is returned and nothing
    /// changes. A new node gets a tower of `height` levels.
    pub fn get_or_insert_with_height<'a>(
        &'a mut self,
        height: u8,
        version: u64,
        key: &[u8],
        value: &[u8],
    ) -> (r: Result<Option<EntryRef<'a, C>>, Error>)
        requires
            old(self).wf(),
            1 <= height <= old(self).spec_options().spec_max_height(),
        ensures
            final(self).wf(),
            final(self).spec_options() == old(self).spec_options(),
            final(self).spec_comparator() == old(self).spec_comparator(),
            final(self).spec_read_only() == old(self).spec_read_only(),
            final(self).spec_capacity() == old(self).spec_capacity(),
            final(self).spec_allocated() >= old(self).spec_allocated(),
            final(self).spec_height() >= old(self).spec_height(),
            (final(self).state(), result_view(r)) == write_spec(
                old(self).spec_comparator(),
                old(self).spec_options(),
                old(self).spec_read_only(),
                old(self).spec_capacity(),
                old(self).state(),
                height,
                version,
                key@,
                Some(value@),
                false,
            ),
            r matches Ok(Some(e)) ==> e.spec_comparator() == old(self).spec_comparator(),
    {
        self.write(height, version, key, Some(value), false)
    }

    /// Inserts `key` at `version` with `value`, or replaces the value if
    /// the map holds the pair already, in which case the entry as it was is
    /// returned. A new node gets a tower of `height` levels.
    pub fn insert_with_height<'a>(
        &'a mut self,
        height: u8,
        version: u64,
        key: &[u8],
        value: &[u8],
    ) -> (r: Result<Option<EntryRef<'a, C>>, Error>)
        requires
            old(self).wf(),
            1 <= height <= old(self).spec_options().spec_max_height(),
        ensures
            final(self).wf(),
            final(self).spec_options() == old(self).spec_options(),
            final(self).spec_comparator() == old(self).spec_comparator(),
            final(self).spec_read_only() == old(self).spec_read_only(),
            final(self).spec_capacity() == old(self).spec_capacity(),
            final(self).spec_allocated() >= old(self).spec_allocated(),
            final(self).spec_height() >= old(self).spec_height(),
            (final(self).state(), result_view(r)) == write_spec(
                old(self).spec_comparator(),
                old(self).spec_options(),
                old(self).spec_read_only(),
                old(self).spec_capacity(),
                old(self).state(),
                height,
                version,
                key@,
                Some(value@),
                true,
            ),
            r matches Ok(Some(e)) ==> e.spec_comparator() == old(self).spec_comparator(),
    {
        self.write(height, version, key, Some(value), true)
    }

    /// Draws a tower height for the next new node.
    pub(crate) fn sample_height(&mut self) -> (h: u8)
        requires
            old(self).wf(),
        ensures
            final(self).wf(),
            1 <= h <= old(self).spec_options().spec_max_height(),
            final(self).spec_options() == old(self).spec_options(),
            final(self).spec_comparator() == old(self).spec_comparator(),
            final(self).spec_read_only() == old(self).spec_read_only(),
            final(self).spec_capacity() == old(self).spec_capacity(),
            final(self).state() == old(self).state(),
            final(self)@ == old(self)@,
    {
        proof {
            self.lemma_inv();
            self.opts.lemma_wf();
        }
        let max: u8 = self.opts.max_height();
        let h = random_height(&mut self.rng, max);
        proof {
            assert(self.inv());
            self.lemma_inv();
        }
        h
    }

    /// Inserts `key` at `version` with `value` unless the map holds the
    /// pair already, in which case the entry found is returned and nothing
    /// changes. The height of a new node's tower is drawn at random; for
    /// the height drawn, the map does what `get_or_insert_with_height`
    /// does.
    pub fn get_or_insert<'a>(&'a mut self, version: u64, key: &[u8], value: &[u8]) -> (r: Result<
        Option<EntryRef<'a, C>>,
        Error,
    >)
        requires
            old(self).wf(),
        ensures
            final(self).wf(),
            final(self).spec_options() == old(self).spec_options(),
            final(self).spec_comparator() == old(self).spec_comparator(),
            final(self).spec_read_only() == old(self).spec_read_only(),
            final(self).spec_capacity() == old(self).spec_capacity(),
            final(self).spec_allocated() >= old(self).spec_allocated(),
            final(self).spec_height() >= old(self).spec_height(),
            exists|height: u8|
                1 <= height <= old(self).spec_options().spec_max_height() && (
                    final(self).state(),
                    result_view(r),
                ) == #[trigger] write_spec(
                    old(self).spec_comparator(),
                    old(self).spec_options(),
                    old(self).spec_read_only(),
                    old(self).spec_capacity(),
                    old(self).state(),
                    height,
                    version,
                    key@,
                    Some(value@),
                    false,
                ),
            r matches Ok(Some(e)) ==> e.spec_comparator() == old(self).spec_comparator(),
    {
        let height = self.sample_height();
        self.write(height, version, key, Some(value), false)
    }

    /// Inserts `key` at `version` with `value`, or replaces the value if
    /// the map holds the pair already, in which case the entry as it was is
    /// returned. The height of a new node's tower is drawn at random; for
    /// the height drawn, the map does what `insert_with_height` does.
    pub fn insert<'a>(&'a mut self, version: u64, key: &[u8], value: &[u8]) -> (r: Result<
        Option<EntryRef<'a, C>>,
        Error,
    >)
        requires
            old(self).wf(),
        ensures
            final(self).wf(),
            final(self).spec_options() == old(self).spec_options(),
            final(self).spec_comparator() == old(self).spec_comparator(),
            final(self).spec_read_only() == old(self).spec_read_only(),
            final(self).spec_capacity() == old(self).spec_capacity(),
            final(self).spec_allocated() >= old(self).spec_allocated(),
            final(self).spec_height() >= old(self).spec_height(),
            exists|height: u8|
                1 <= height <= old(self).spec_options().spec_max_height() && (
                    final(self).state(),
                    result_view(r),
                ) == #[trigger] write_spec(
                    old(self).spec_comparator(),
                    old(self).spec_options(),
                    old(self).spec_read_only(),
                    old(self).spec_capacity(),
                    old(self).state(),
                    height,
                    version,
                    key@,
                    Some(value@),
                    true,
                ),
            r matches Ok(Some(e)) ==> e.spec_comparator() == old(self).spec_comparator(),
    {
        let height = self.sample_height();
        self.write(height, version, key, Some(value), true)
    }
}

/// What `get_or_remove` does to a map in state `pre`, and what it returns.
///
/// - A read-only map or a key that is too long: an error.
/// - The map holds the pair: nothing changes; the entry found is returned
///   unless it is a removal mark.
/// - The map does not hold the pair, and a reader at `version` sees an
///   entry for `key`: a removal mark is inserted at the pair's rank, if a
///   node for it fits into the arena.
/// - Otherwise nothing changes.
pub open spec fn get_or_remove_spec<C: Comparator>(
    c: &C,
    opts: Options,
    read_only: bool,
    capacity: nat,
    pre: MapState,
    height: u8,
    version: u64,
    key: Seq<u8>,
) -> (MapState, Result<Option<EntrySpec>, Error>) {
    let s = pre.entries;
    let p = rank(c, s, key, version);
    let w = write_spec(c, opts, read_only, capacity, pre, height, version, key, None, false);
    if read_only || key.len() > opts.spec_max_key_size() {
        (pre, w.1)
    } else if holds_pair(c, s, key, version) {
        (
            pre,
            Ok(
                if s[p].value is Some {
                    Some(s[p])
                } else {
                    None
                },
            ),
        )
    } else if exists|i: int| 0 <= i < s.len() && visible(c, #[trigger] s[i], key, version) {
        (
            w.0,
            match w.1 {
                Ok(_) => Ok(None),
                Err(e) => Err(e),
            },
        )
    } else {
        (pre, Ok(None))
    }
}

/// What `compare_remove` returns, given what the write of the removal mark
/// returned: the entry as it was if it was not a removal mark already.
pub open spec fn remove_result(w: Result<Option<EntrySpec>, Error>) -> Result<
    Either<Option<EntrySpec>, EntrySpec>,
    Error,
> {
    match w {
        Ok(Some(e)) => Ok(
            Either::Left(
                if e.value is Some {
                    Some(e)
                } else {
                    None
                },
            ),
        ),
        Ok(None) => Ok(Either::Left(None)),
        Err(e) => Err(e),
    }
}

/// What a removal returned, with the entries as mathematical values.
pub open spec fn either_view<'a, C: Comparator>(
    r: Result<Either<Option<EntryRef<'a, C>>, EntryRef<'a, C>>, Error>,
) -> Result<Either<Option<EntrySpec>, EntrySpec>, Error> {
    match r {
        Ok(Either::Left(Some(e))) => Ok(Either::Left(Some(e@))),
        Ok(Either::Left(None)) => Ok(Either::Left(None)),
        Ok(Either::Right(e)) => Ok(Either::Right(e@)),
        Err(e) => Err(e),
    }
}

impl<C: Comparator> SkipMap<C> {
    /// Marks `key` at `version` as removed: if the map holds the pair, its
    /// entry becomes a removal mark, and the entry as it was is returned
    /// on the left unless it was one already; if not, a removal mark is
    /// inserted, with a tower of `height` levels. The right side is for an
    /// entry that another writer changed in the meantime; with one writer
    /// it never comes.
    pub fn compare_remove_with_height<'a>(&'a mut self, height: u8, version: u64, key: &[u8]) -> (r:
        Result<Either<Option<EntryRef<'a, C>>, EntryRef<'a, C>>, Error>)
        requires
            old(self).wf(),
            1 <= height <= old(self).spec_options().spec_max_height(),
        ensures
            final(self).wf(),
            final(self).spec_options() == old(self).spec_options(),
            final(self).spec_comparator() == old(self).spec_comparator(),
            final(self).spec_read_only() == old(self).spec_read_only(),
            final(self).spec_capacity() == old(self).spec_capacity(),
            final(self).spec_allocated() >= old(self).spec_allocated(),
            final(self).spec_height() >= old(self).spec_height(),
            final(self).state() == write_spec(
                old(self).spec_comparator(),
                old(self).spec_options(),
                old(self).spec_read_only(),
                old(self).spec_capacity(),
                old(self).state(),
                height,
                version,
                key@,
                None,
                true,
            ).0,
            either_view(r) == remove_result(
                write_spec(
                    old(self).spec_comparator(),
                    old(self).spec_options(),
                    old(self).spec_read_only(),
                    old(self).spec_capacity(),
                    old(self).state(),
                    height,
                    version,
                    key@,
                    None,
                    true,
                ).1,
            ),
    {
        match self.write(height, version, key, None, true) {
            Ok(Some(e)) => {
                if e.is_removed() {
                    Ok(Either::Left(None))
                } else {
                    Ok(Either::Left(Some(e)))
                }
            },
            Ok(None) => Ok(Either::Left(None)),
            Err(e) => Err(e),
        }
    }

    /// Marks `key` at `version` as removed, as `compare_remove_with_height`
    /// does for the height drawn at random.
    pub fn compare_remove<'a>(&'a mut self, version: u64, key: &[u8]) -> (r: Result<
        Either<Option<EntryRef<'a, C>>, EntryRef<'a, C>>,
        Error,
    >)
        requires
            old(self).wf(),
        ensures
            final(self).wf(),
            final(self).spec_options() == old(self).spec_options(),
            final(self).spec_comparator() == old(self).spec_comparator(),
            final(self).spec_read_only() == old(self).spec_read_only(),
            final(self).spec_capacity() == old(self).spec_capacity(),
            final(self).spec_allocated() >= old(self).spec_allocated(),
            final(self).spec_height() >= old(self).spec_height(),
            exists|height: u8|
                1 <= height <= old(self).spec_options().spec_max_height() && (
                    final(self).state(),
                    either_view(r),
                ) == (
                    (#[trigger] write_spec(
                        old(self).spec_comparator(),
                        old(self).spec_options(),
                        old(self).spec_read_only(),
                        old(self).spec_capacity(),
                        old(self).state(),
                        height,
                        version,
                        key@,
                        None,
                        true,
                    )).0,
                    remove_result(
                        write_spec(
                            old(self).spec_comparator(),
                            old(self).spec_options(),
                            old(self).spec_read_only(),
                            old(self).spec_capacity(),
                            old(self).state(),
                            height,
                            version,
                            key@,
                            None,
                            true,
                        ).1,
                    ),
                ),
    {
        let height = self.sample_height();
        self.compare_remove_with_height(height, version, key)
    }

    /// Returns the entry of `key` at `version` if the map holds it and it
    /// is not a removal mark. If the map does not hold the pair but a
    /// reader at `version` sees an entry for `key`, a removal mark is
    /// inserted, with a tower of `height` levels.
    pub fn get_or_remove_with_height<'a>(&'a mut self, height: u8, version: u64, key: &[u8]) -> (r:
        Result<Option<EntryRef<'a, C>>, Error>)
        requires
            old(self).wf(),
            1 <= height <= old(self).spec_options().spec_max_height(),
        ensures
            final(self).wf(),
            final(self).spec_options() == old(self).spec_options(),
            final(self).spec_comparator() == old(self).spec_comparator(),
            final(self).spec_read_only() == old(self).spec_read_only(),
            final(self).spec_capacity() == old(self).spec_capacity(),
            final(self).spec_allocated() >= old(self).spec_allocated(),
            final(self).spec_height() >= old(self).spec_height(),
            (final(self).state(), result_view(r)) == get_or_remove_spec(
                old(self).spec_comparator(),
                old(self).spec_options(),
                old(self).spec_read_only(),
                old(self).spec_capacity(),
                old(self).state(),
                height,
                version,
                key@,
            ),
    {
        proof {
            self.lemma_inv();
            self.lemma_wf();
            self.opts.lemma_wf();
        }
        if self.read_only {
            return Err(Error::ReadOnly);
        }
        let max_key: u32 = self.opts.max_key_size();
        if key.len() > max_key as usize {
            return Err(Error::KeyTooLarge { size: key.len() as u64, max: max_key as u64 });
        }
        let (prev, next, Ghost(pi), Ghost(ni)) = self.seek(key, version);
        let ghost s = self@;
        let ghost c = &self.comparator;
        proof {
            self.lemma_bottom_splice(key@, version, pi, ni, prev, next);
            reveal(SkipMap::is_splice);
            if ni != self.chain@.len() - 1 {
                assert(self.chain@[ni] != self.chain@[self.chain@.len() - 1]);
                assert(s[ni - 1] == node_entry(self.arena@, self.chain@[ni - 1 + 1]));
            }
        }
        let found: bool = next != self.tail && match self.compare_node(
            next,
            key,
            version,
            Ghost(ni),
        ) {
            Order::Equal => true,
            _ => false,
        };
        assert(found == holds_pair(c, s, key@, version));
        if found {
            let e = self.entry_at(next, Ghost(ni));
            if e.is_removed() {
                return Ok(None);
            }
            return Ok(Some(e));
        }
        if !self.contains_key(version, key) {
            return Ok(None);
        }
        match self.write(height, version, key, None, false) {
            Ok(_) => Ok(None),
            Err(e) => Err(e),
        }
    }

    /// What `get_or_remove_with_height` does, for the height drawn at
    /// random.
    pub fn get_or_remove<'a>(&'a mut self, version: u64, key: &[u8]) -> (r: Result<
        Option<EntryRef<'a, C>>,
        Error,
    >)
        requires
            old(self).wf(),
        ensures
            final(self).wf(),
            final(self).spec_options() == old(self).spec_options(),
            final(self).spec_comparator() == old(self).spec_comparator(),
            final(self).spec_read_only() == old(self).spec_read_only(),
            final(self).spec_capacity() == old(self).spec_capacity(),
            final(self).spec_allocated() >= old(self).spec_allocated(),
            final(self).spec_height() >= old(self).spec_height(),
            exists|height: u8|
                1 <= height <= old(self).spec_options().spec_max_height() && (
                    final(self).state(),
                    result_view(r),
                ) == #[trigger] get_or_remove_spec(
                    old(self).spec_comparator(),
                    old(self).spec_options(),
                    old(self).spec_read_only(),
                    old(self).spec_capacity(),
                    old(self).state(),
                    height,
                    version,
                    key@,
                ),
    {
        let height = self.sample_height();
        self.get_or_remove_with_height(height, version, key)
    }
}

impl SkipMap<crate::comparator::Ascend> {
    /// An empty map with the default settings and ascending keys.
    pub fn new() -> (r: Result<Self, Error>)
        ensures
            r is Ok,
            r matches Ok(m) ==> m.wf() && m@ == Seq::<EntrySpec>::empty() && m.spec_options()
                == Options::spec_new() && !m.spec_read_only() && m.spec_capacity() == 1024
                && m.spec_allocated() == 223 && m.spec_height() == 1,
    {
        let opts = Options::new();
        proof {
            opts.lemma_wf();
        }
        SkipMap::build(opts, crate::comparator::Ascend)
    }

    /// An empty map with the given settings and ascending keys. Fails if
    /// the capacity does not suffice for the two sentinel nodes.
    pub fn with_options(opts: Options) -> (r: Result<Self, Error>)
        requires
            opts.wf(),
        ensures
            r is Ok <==> crate::map::sentinel_space(opts.spec_max_height() as int) <= (
            if opts.spec_capacity() == 0 {
                1
            } else {
                opts.spec_capacity() as int
            }),
            r matches Ok(m) ==> m.wf() && m@ == Seq::<EntrySpec>::empty() && m.spec_options()
                == opts && !m.spec_read_only() && m.spec_height() == 1 && m.spec_capacity() == (
            if opts.spec_capacity() == 0 {
                1
            } else {
                opts.spec_capacity() as nat
            }) && m.spec_allocated() == crate::map::sentinel_space(opts.spec_max_height() as int),
            r matches Err(e) ==> e is Arena,
    {
        SkipMap::build(opts, crate::comparator::Ascend)
    }
}

impl<C: Comparator> SkipMap<C> {
    /// An empty map with the default settings and the given comparator.
    pub fn with_comparator(comparator: C) -> (r: Result<Self, Error>)
        ensures
            r is Ok,
            r matches Ok(m) ==> m.wf() && m@ == Seq::<EntrySpec>::empty() && m.spec_options()
                == Options::spec_new() && *m.spec_comparator() == comparator && !m.spec_read_only()
                && m.spec_capacity() == 1024 && m.spec_allocated() == 223 && m.spec_height() == 1,
    {
        let opts = Options::new();
        proof {
            opts.lemma_wf();
        }
        SkipMap::build(opts, comparator)
    }

    /// An empty map with the given settings and comparator. Fails if the
    /// capacity does not suffice for the two sentinel nodes.
    pub fn with_options_and_comparator(opts: Options, comparator: C) -> (r: Result<Self, Error>)
        requires
            opts.wf(),
        ensures
            r is Ok <==> crate::map::sentinel_space(opts.spec_max_height() as int) <= (
            if opts.spec_capacity() == 0 {
                1
            } else {
                opts.spec_capacity() as int
            }),
            r matches Ok(m) ==> m.wf() && m@ == Seq::<EntrySpec>::empty() && m.spec_options()
                == opts && *m.spec_comparator() == comparator && !m.spec_read_only()
                && m.spec_height() == 1 && m.spec_capacity() == (if opts.spec_capacity() == 0 {
                1
            } else {
                opts.spec_capacity() as nat
            }) && m.spec_allocated() == crate::map::sentinel_space(opts.spec_max_height() as int),
            r matches Err(e) ==> e is Arena,
    {
        SkipMap::build(opts, comparator)
    }
}

} // verus!
