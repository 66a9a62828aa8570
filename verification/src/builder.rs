//! Writes whose key or value is made by a builder: a closure that fills a
//! buffer of a given capacity, and may fail.

use vstd::prelude::*;
use crate::buffer::VacantBuffer;
use crate::comparator::Comparator;
use crate::either::Either;
use crate::entry::EntryRef;
use crate::error::Error;
use crate::map::SkipMap;
use crate::model::EntrySpec;
use crate::ops::write_spec;

verus! {

/// Whether `b` is an empty buffer of capacity `size`.
pub open spec fn fresh(b: VacantBuffer, size: u32) -> bool {
    &&& b.wf()
    &&& b.spec_capacity() == size
    &&& b@ == Seq::<u8>::empty()
}

/// What a builder made: the bytes in its buffer if it succeeded, else its
/// error.
pub open spec fn made<E>(o: Result<(), E>, bytes: Seq<u8>) -> Result<Seq<u8>, E> {
    match o {
        Ok(_) => Ok(bytes),
        Err(e) => Err(e),
    }
}

/// The bytes of a vector, or the error in its place.
pub open spec fn bytes_view<E>(r: Result<Vec<u8>, E>) -> Result<Seq<u8>, E> {
    match r {
        Ok(v) => Ok(v@),
        Err(e) => Err(e),
    }
}

/// Whether the builder `f` accepts every empty buffer of capacity `size`.
pub open spec fn accepts<E, F: FnOnce(&mut VacantBuffer) -> Result<(), E>>(f: F, size: u32) -> bool {
    forall|b: &mut VacantBuffer| fresh(*b, size) ==> #[trigger] call_requires(f, (b,))
}

/// What a write with builders returned, with the entry as a mathematical
/// value.
pub open spec fn built_view<'a, C: Comparator, E>(
    r: Result<Option<EntryRef<'a, C>>, Either<E, Error>>,
) -> Result<Option<EntrySpec>, Either<E, Error>> {
    match r {
        Ok(Some(e)) => Ok(Some(e@)),
        Ok(None) => Ok(None),
        Err(e) => Err(e),
    }
}

/// The result of a write as the result of a write with builders: an error
/// of the map goes to the right.
pub open spec fn to_right<E>(w: Result<Option<EntrySpec>, Error>) -> Result<
    Option<EntrySpec>,
    Either<E, Error>,
> {
    match w {
        Ok(x) => Ok(x),
        Err(e) => Err(Either::Right(e)),
    }
}

/// Runs a builder on an empty buffer of capacity `size`.
pub fn fill<E, F: FnOnce(&mut VacantBuffer) -> Result<(), E>>(size: u32, f: F) -> (r: Result<
    Vec<u8>,
    E,
>)
    requires
        accepts(f, size),
    ensures
        exists|b: &mut VacantBuffer, o: Result<(), E>|
            fresh(*b, size) && #[trigger] call_ensures(f, (b,), o) && bytes_view(r) == made(
                o,
                final(b)@,
            ),
{
    let mut b = VacantBuffer::new(size as usize);
    match f(&mut b) {
        Ok(()) => Ok(b.into_vec()),
        Err(e) => Err(e),
    }
}

impl<C: Comparator> SkipMap<C> {
    /// What a write of `key` at `version` does whose value comes from a
    /// builder: if the builder fails, nothing changes and its error is
    /// returned on the left; if not, the map does for some tower height
    /// what a write of the bytes built does.
    pub open spec fn built_value_outcome<'a, E>(
        pre: &SkipMap<C>,
        post: &SkipMap<C>,
        version: u64,
        key: Seq<u8>,
        vo: Result<Seq<u8>, E>,
        replace: bool,
        r: Result<Option<EntryRef<'a, C>>, Either<E, Error>>,
    ) -> bool {
        match vo {
            Err(e) => built_view(r) == Err::<Option<EntrySpec>, Either<E, Error>>(Either::Left(e))
                && post.state() == pre.state(),
            Ok(v) => exists|height: u8|
                {
                    &&& 1 <= height <= pre.spec_options().spec_max_height()
                    &&& post.state() == (#[trigger] write_spec(
                        pre.spec_comparator(),
                        pre.spec_options(),
                        pre.spec_read_only(),
                        pre.spec_capacity(),
                        pre.state(),
                        height,
                        version,
                        key,
                        Some(v),
                        replace,
                    )).0
                    &&& built_view(r) == to_right::<E>(
                        write_spec(
                            pre.spec_comparator(),
                            pre.spec_options(),
                            pre.spec_read_only(),
                            pre.spec_capacity(),
                            pre.state(),
                            height,
                            version,
                            key,
                            Some(v),
                            replace,
                        ).1,
                    )
                },
        }
    }

    /// Writes `key` at `version` with the bytes of `value`.
    fn write_built<'a, E>(
        &'a mut self,
        version: u64,
        key: &[u8],
        value: Result<Vec<u8>, E>,
        replace: bool,
    ) -> (r: Result<Option<EntryRef<'a, C>>, Either<E, Error>>)
        requires
            old(self).wf(),
        ensures
            final(self).wf(),
            final(self).spec_options() == old(self).spec_options(),
            final(self).spec_comparator() == old(self).spec_comparator(),
            final(self).spec_read_only() == old(self).spec_read_only(),
            final(self).spec_capacity() == old(self).spec_capacity(),
            final(self).spec_allocated() >= old(self).spec_allocated(),
            final(self).spec_height() >= old(self).spec_height(),
            SkipMap::built_value_outcome(
                old(self),
                final(self),
                version,
                key@,
                bytes_view(value),
                replace,
                r,
            ),
    {
        match value {
            Err(e) => Err(Either::Left(e)),
            Ok(v) => {
                let height = self.sample_height();
                match self.write(height, version, key, Some(v.as_slice()), replace) {
                    Ok(x) => Ok(x),
                    Err(e) => Err(Either::Right(e)),
                }
            },
        }
    }

    /// Inserts `key` at `version` with a value that `value` builds in a
    /// buffer of capacity `value_size`, or replaces the value if the map
    /// holds the pair already, in which case the entry as it was is
    /// returned.
    pub fn insert_with_value<'a, E, F: FnOnce(&mut VacantBuffer) -> Result<(), E>>(
        &'a mut self,
        version: u64,
        key: &[u8],
        value_size: u32,
        value: F,
    ) -> (r: Result<Option<EntryRef<'a, C>>, Either<E, Error>>)
        requires
            old(self).wf(),
            accepts(value, value_size),
        ensures
            final(self).wf(),
            final(self).spec_options() == old(self).spec_options(),
            final(self).spec_comparator() == old(self).spec_comparator(),
            final(self).spec_read_only() == old(self).spec_read_only(),
            final(self).spec_capacity() == old(self).spec_capacity(),
            final(self).spec_allocated() >= old(self).spec_allocated(),
            final(self).spec_height() >= old(self).spec_height(),
            exists|b: &mut VacantBuffer, o: Result<(), E>|
                fresh(*b, value_size) && #[trigger] call_ensures(value, (b,), o)
                    && SkipMap::built_value_outcome(
                    old(self),
                    final(self),
                    version,
                    key@,
                    made(o, final(b)@),
                    true,
                    r,
                ),
    {
        let v = fill(value_size, value);
        self.write_built(version, key, v, true)
    }

    /// Inserts `key` at `version` with a value that `value` builds in a
    /// buffer of capacity `value_size`, unless the map holds the pair
    /// already, in which case the entry found is returned and nothing
    /// changes.
    pub fn get_or_insert_with_value<'a, E, F: FnOnce(&mut VacantBuffer) -> Result<(), E>>(
        &'a mut self,
        version: u64,
        key: &[u8],
        value_size: u32,
        value: F,
    ) -> (r: Result<Option<EntryRef<'a, C>>, Either<E, Error>>)
        requires
            old(self).wf(),
            accepts(value, value_size),
        ensures
            final(self).wf(),
            final(self).spec_options() == old(self).spec_options(),
            final(self).spec_comparator() == old(self).spec_comparator(),
            final(self).spec_read_only() == old(self).spec_read_only(),
            final(self).spec_capacity() == old(self).spec_capacity(),
            final(self).spec_allocated() >= old(self).spec_allocated(),
            final(self).spec_height() >= old(self).spec_height(),
            exists|b: &mut VacantBuffer, o: Result<(), E>|
                fresh(*b, value_size) && #[trigger] call_ensures(value, (b,), o)
                    && SkipMap::built_value_outcome(
                    old(self),
                    final(self),
                    version,
                    key@,
                    made(o, final(b)@),
                    false,
                    r,
                ),
    {
        let v = fill(value_size, value);
        self.write_built(version, key, v, false)
    }

    /// Inserts at `version` a key and a value that `key` and `value` build
    /// in buffers of capacities `key_size` and `value_size`, or replaces
    /// the value if the map holds the pair already, in which case the
    /// entry as it was is returned. The value is built only if the key
    /// was.
    pub fn insert_with<
        'a,
        E,
        F: FnOnce(&mut VacantBuffer) -> Result<(), E>,
        G: FnOnce(&mut VacantBuffer) -> Result<(), E>,
    >(&'a mut self, version: u64, key_size: u32, key: F, value_size: u32, value: G) -> (r: Result<
        Option<EntryRef<'a, C>>,
        Either<E, Error>,
    >)
        requires
            old(self).wf(),
            accepts(key, key_size),
            accepts(value, value_size),
        ensures
            final(self).wf(),
            final(self).spec_options() == old(self).spec_options(),
            final(self).spec_comparator() == old(self).spec_comparator(),
            final(self).spec_read_only() == old(self).spec_read_only(),
            final(self).spec_capacity() == old(self).spec_capacity(),
            final(self).spec_allocated() >= old(self).spec_allocated(),
            final(self).spec_height() >= old(self).spec_height(),
            exists|kb: &mut VacantBuffer, ko: Result<(), E>|
                fresh(*kb, key_size) && #[trigger] call_ensures(key, (kb,), ko) && match ko {
                    Err(e) => built_view(r) == Err::<Option<EntrySpec>, Either<E, Error>>(
                        Either::Left(e),
                    ) && final(self).state() == old(self).state(),
                    Ok(_) => exists|vb: &mut VacantBuffer, vo: Result<(), E>|
                        fresh(*vb, value_size) && #[trigger] call_ensures(value, (vb,), vo)
                            && SkipMap::built_value_outcome(
                            old(self),
                            final(self),
                            version,
                            final(kb)@,
                            made(vo, final(vb)@),
                            true,
                            r,
                        ),
                },
    {
        match fill(key_size, key) {
            Err(e) => Err(Either::Left(e)),
            Ok(k) => {
                let v = fill(value_size, value);
                self.write_built(version, k.as_slice(), v, true)
            },
        }
    }

    /// Inserts at `version` a key and a value that `key` and `value` build
    /// in buffers of capacities `key_size` and `value_size`, unless the
    /// map holds the pair already, in which case the entry found is
    /// returned and nothing changes. The value is built only if the key
    /// was.
    pub fn get_or_insert_with<
        'a,
        E,
        F: FnOnce(&mut VacantBuffer) -> Result<(), E>,
        G: FnOnce(&mut VacantBuffer) -> Result<(), E>,
    >(&'a mut self, version: u64, key_size: u32, key: F, value_size: u32, value: G) -> (r: Result<
        Option<EntryRef<'a, C>>,
        Either<E, Error>,
    >)
        requires
            old(self).wf(),
            accepts(key, key_size),
            accepts(value, value_size),
        ensures
            final(self).wf(),
            final(self).spec_options() == old(self).spec_options(),
            final(self).spec_comparator() == old(self).spec_comparator(),
            final(self).spec_read_only() == old(self).spec_read_only(),
            final(self).spec_capacity() == old(self).spec_capacity(),
            final(self).spec_allocated() >= old(self).spec_allocated(),
            final(self).spec_height() >= old(self).spec_height(),
            exists|kb: &mut VacantBuffer, ko: Result<(), E>|
                fresh(*kb, key_size) && #[trigger] call_ensures(key, (kb,), ko) && match ko {
                    Err(e) => built_view(r) == Err::<Option<EntrySpec>, Either<E, Error>>(
                        Either::Left(e),
                    ) && final(self).state() == old(self).state(),
                    Ok(_) => exists|vb: &mut VacantBuffer, vo: Result<(), E>|
                        fresh(*vb, value_size) && #[trigger] call_ensures(value, (vb,), vo)
                            && SkipMap::built_value_outcome(
                            old(self),
                            final(self),
                            version,
                            final(kb)@,
                            made(vo, final(vb)@),
                            false,
                            r,
                        ),
                },
    {
        match fill(key_size, key) {
            Err(e) => Err(Either::Left(e)),
            Ok(k) => {
                let v = fill(value_size, value);
                self.write_built(version, k.as_slice(), v, false)
            },
        }
    }
}

} // verus!
