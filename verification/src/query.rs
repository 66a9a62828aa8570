//! Range reads: iterators, and the first or last entry within a bound.

use vstd::prelude::*;
use crate::comparator::{Bound, Comparator, SpecBound};
use crate::entry::EntryRef;
use crate::iterator::MapIterator;
use crate::map::SkipMap;
use crate::model::{
    is_first_from,
    is_last_upto,
    latest,
    none_from,
    none_upto,
    Filter,
};
use crate::scan::Scope;

verus! {

/// An iterator over a key range.
pub type MapRange<'a, C> = MapIterator<'a, C>;

impl<'a, C: Comparator> MapIterator<'a, C> {
    /// Moves the cursor to the first entry that the iterator shows and
    /// returns it.
    pub fn first(&mut self) -> (r: Option<EntryRef<'a, C>>)
        requires
            old(self).wf(),
        ensures
            final(self).wf(),
            final(self).spec_map() == old(self).spec_map(),
            final(self).spec_filter() == old(self).spec_filter(),
            match r {
                Some(e) => is_first_from(
                    old(self).spec_map().spec_comparator(),
                    old(self).spec_map()@,
                    old(self).spec_filter(),
                    SpecBound::Unbounded,
                    final(self).spec_index(),
                ) && e@ == old(self).spec_map()@[final(self).spec_index()],
                None => none_from(
                    old(self).spec_map().spec_comparator(),
                    old(self).spec_map()@,
                    old(self).spec_filter(),
                    SpecBound::Unbounded,
                ) && final(self).spec_index() == old(self).spec_map()@.len(),
            },
    {
        proof {
            self.lemma_wf();
        }
        let r = self.seek_lower_bound(Bound::Unbounded);
        proof {
            self.lemma_wf();
        }
        r
    }

    /// Moves the cursor to the last key of which the iterator shows an
    /// entry, at the first entry of that key that it shows, and returns
    /// it.
    pub fn last(&mut self) -> (r: Option<EntryRef<'a, C>>)
        requires
            old(self).wf(),
        ensures
            final(self).wf(),
            final(self).spec_map() == old(self).spec_map(),
            final(self).spec_filter() == old(self).spec_filter(),
            match r {
                Some(e) => is_last_upto(
                    old(self).spec_map().spec_comparator(),
                    old(self).spec_map()@,
                    old(self).spec_filter(),
                    SpecBound::Unbounded,
                    final(self).spec_index(),
                ) && e@ == old(self).spec_map()@[final(self).spec_index()],
                None => none_upto(
                    old(self).spec_map().spec_comparator(),
                    old(self).spec_map()@,
                    old(self).spec_filter(),
                    SpecBound::Unbounded,
                ) && final(self).spec_index() == -1,
            },
    {
        proof {
            self.lemma_wf();
        }
        let r = self.seek_upper_bound(Bound::Unbounded);
        proof {
            self.lemma_wf();
        }
        r
    }

    /// The first entry that the iterator shows.
    pub fn min(self) -> (r: Option<EntryRef<'a, C>>)
        requires
            self.wf(),
        ensures
            match r {
                Some(e) => exists|i: int|
                    #[trigger] is_first_from(
                        self.spec_map().spec_comparator(),
                        self.spec_map()@,
                        self.spec_filter(),
                        SpecBound::Unbounded,
                        i,
                    ) && e@ == self.spec_map()@[i],
                None => none_from(
                    self.spec_map().spec_comparator(),
                    self.spec_map()@,
                    self.spec_filter(),
                    SpecBound::Unbounded,
                ),
            },
    {
        let mut it = self;
        let r = it.first();
        proof {
            if r is Some {
                assert(is_first_from(
                    self.spec_map().spec_comparator(),
                    self.spec_map()@,
                    self.spec_filter(),
                    SpecBound::Unbounded,
                    it.spec_index(),
                ));
            }
        }
        r
    }

    /// The first entry that the iterator shows of the last key of which it
    /// shows any.
    pub fn max(self) -> (r: Option<EntryRef<'a, C>>)
        requires
            self.wf(),
        ensures
            match r {
                Some(e) => exists|i: int|
                    #[trigger] is_last_upto(
                        self.spec_map().spec_comparator(),
                        self.spec_map()@,
                        self.spec_filter(),
                        SpecBound::Unbounded,
                        i,
                    ) && e@ == self.spec_map()@[i],
                None => none_upto(
                    self.spec_map().spec_comparator(),
                    self.spec_map()@,
                    self.spec_filter(),
                    SpecBound::Unbounded,
                ),
            },
    {
        let mut it = self;
        let r = it.last();
        proof {
            if r is Some {
                assert(is_last_upto(
                    self.spec_map().spec_comparator(),
                    self.spec_map()@,
                    self.spec_filter(),
                    SpecBound::Unbounded,
                    it.spec_index(),
                ));
            }
        }
        r
    }
}

impl<C: Comparator> SkipMap<C> {
    /// An iterator that shows of each key the newest entry up to `version`
    /// that is not a removal mark.
    pub fn iter<'a>(&'a self, version: u64) -> (it: MapIterator<'a, C>)
        requires
            self.wf(),
        ensures
            it.wf(),
            it.spec_map() == self,
            it.spec_filter() == latest(version),
            it.spec_index() == -1,
    {
        MapIterator::new(
            self,
            Scope {
                version,
                all_versions: false,
                lower: Bound::Unbounded,
                upper: Bound::Unbounded,
            },
        )
    }

    /// An iterator that shows every entry up to `version`, removal marks
    /// too.
    pub fn iter_all_versions<'a>(&'a self, version: u64) -> (it: MapIterator<'a, C>)
        requires
            self.wf(),
        ensures
            it.wf(),
            it.spec_map() == self,
            it.spec_filter() == (Filter {
                version: version,
                all_versions: true,
                lower: SpecBound::Unbounded,
                upper: SpecBound::Unbounded,
            }),
            it.spec_index() == -1,
    {
        MapIterator::new(
            self,
            Scope {
                version,
                all_versions: true,
                lower: Bound::Unbounded,
                upper: Bound::Unbounded,
            },
        )
    }

    /// An iterator over the keys between `lower` and `upper` that shows of
    /// each key the newest entry up to `version` that is not a removal
    /// mark.
    pub fn range<'a>(&'a self, version: u64, lower: Bound<'a>, upper: Bound<'a>) -> (it: MapRange<
        'a,
        C,
    >)
        requires
            self.wf(),
        ensures
            it.wf(),
            it.spec_map() == self,
            it.spec_filter() == (Filter {
                version: version,
                all_versions: false,
                lower: lower@,
                upper: upper@,
            }),
            it.spec_index() == -1,
    {
        MapIterator::new(self, Scope { version, all_versions: false, lower, upper })
    }

    /// An iterator over the keys between `lower` and `upper` that shows
    /// every entry up to `version`, removal marks too.
    pub fn range_all_versions<'a>(
        &'a self,
        version: u64,
        lower: Bound<'a>,
        upper: Bound<'a>,
    ) -> (it: MapRange<'a, C>)
        requires
            self.wf(),
        ensures
            it.wf(),
            it.spec_map() == self,
            it.spec_filter() == (Filter {
                version: version,
                all_versions: true,
                lower: lower@,
                upper: upper@,
            }),
            it.spec_index() == -1,
    {
        MapIterator::new(self, Scope { version, all_versions: true, lower, upper })
    }

    /// The first entry that a reader at `version` sees whose key is not
    /// below `lower`.
    pub fn lower_bound<'a>(&'a self, version: u64, lower: Bound) -> (r: Option<EntryRef<'a, C>>)
        requires
            self.wf(),
        ensures
            match r {
                Some(e) => exists|i: int|
                    #[trigger] is_first_from(
                        self.spec_comparator(),
                        self@,
                        latest(version),
                        lower@,
                        i,
                    ) && e@ == self@[i],
                None => none_from(self.spec_comparator(), self@, latest(version), lower@),
            },
    {
        let mut it = self.iter(version);
        proof {
            it.lemma_wf();
        }
        let r = it.seek_lower_bound(lower);
        proof {
            it.lemma_wf();
            if r is Some {
                assert(is_first_from(
                    self.spec_comparator(),
                    self@,
                    latest(version),
                    lower@,
                    it.spec_index(),
                ));
            }
        }
        r
    }

    /// The entry that a reader at `version` sees for the last key that is
    /// not above `upper` and for which it sees any.
    pub fn upper_bound<'a>(&'a self, version: u64, upper: Bound) -> (r: Option<EntryRef<'a, C>>)
        requires
            self.wf(),
        ensures
            match r {
                Some(e) => exists|i: int|
                    #[trigger] is_last_upto(
                        self.spec_comparator(),
                        self@,
                        latest(version),
                        upper@,
                        i,
                    ) && e@ == self@[i],
                None => none_upto(self.spec_comparator(), self@, latest(version), upper@),
            },
    {
        let mut it = self.iter(version);
        proof {
            it.lemma_wf();
        }
        let r = it.seek_upper_bound(upper);
        proof {
            it.lemma_wf();
            if r is Some {
                assert(is_last_upto(
                    self.spec_comparator(),
                    self@,
                    latest(version),
                    upper@,
                    it.spec_index(),
                ));
            }
        }
        r
    }

    /// The first entry that a reader at `version` sees.
    pub fn first<'a>(&'a self, version: u64) -> (r: Option<EntryRef<'a, C>>)
        requires
            self.wf(),
        ensures
            match r {
                Some(e) => exists|i: int|
                    #[trigger] is_first_from(
                        self.spec_comparator(),
                        self@,
                        latest(version),
                        SpecBound::Unbounded,
                        i,
                    ) && e@ == self@[i],
                None => none_from(
                    self.spec_comparator(),
                    self@,
                    latest(version),
                    SpecBound::Unbounded,
                ),
            },
    {
        self.lower_bound(version, Bound::Unbounded)
    }

    /// The entry that a reader at `version` sees for the last key for
    /// which it sees any.
    pub fn last<'a>(&'a self, version: u64) -> (r: Option<EntryRef<'a, C>>)
        requires
            self.wf(),
        ensures
            match r {
                Some(e) => exists|i: int|
                    #[trigger] is_last_upto(
                        self.spec_comparator(),
                        self@,
                        latest(version),
                        SpecBound::Unbounded,
                        i,
                    ) && e@ == self@[i],
                None => none_upto(
                    self.spec_comparator(),
                    self@,
                    latest(version),
                    SpecBound::Unbounded,
                ),
            },
    {
        self.upper_bound(version, Bound::Unbounded)
    }

    /// The first entry that a reader at `version` sees whose key is not
    /// less than `key`.
    pub fn ge<'a>(&'a self, version: u64, key: &[u8]) -> (r: Option<EntryRef<'a, C>>)
        requires
            self.wf(),
        ensures
            match r {
                Some(e) => exists|i: int|
                    #[trigger] is_first_from(
                        self.spec_comparator(),
                        self@,
                        latest(version),
                        SpecBound::Included(key@),
                        i,
                    ) && e@ == self@[i],
                None => none_from(
                    self.spec_comparator(),
                    self@,
                    latest(version),
                    SpecBound::Included(key@),
                ),
            },
    {
        self.lower_bound(version, Bound::Included(key))
    }

    /// The first entry that a reader at `version` sees whose key is
    /// greater than `key`.
    pub fn gt<'a>(&'a self, version: u64, key: &[u8]) -> (r: Option<EntryRef<'a, C>>)
        requires
            self.wf(),
        ensures
            match r {
                Some(e) => exists|i: int|
                    #[trigger] is_first_from(
                        self.spec_comparator(),
                        self@,
                        latest(version),
                        SpecBound::Excluded(key@),
                        i,
                    ) && e@ == self@[i],
                None => none_from(
                    self.spec_comparator(),
                    self@,
                    latest(version),
                    SpecBound::Excluded(key@),
                ),
            },
    {
        self.lower_bound(version, Bound::Excluded(key))
    }

    /// The entry that a reader at `version` sees for the last key that is
    /// not greater than `key` and for which it sees any.
    pub fn le<'a>(&'a self, version: u64, key: &[u8]) -> (r: Option<EntryRef<'a, C>>)
        requires
            self.wf(),
        ensures
            match r {
                Some(e) => exists|i: int|
                    #[trigger] is_last_upto(
                        self.spec_comparator(),
                        self@,
                        latest(version),
                        SpecBound::Included(key@),
                        i,
                    ) && e@ == self@[i],
                None => none_upto(
                    self.spec_comparator(),
                    self@,
                    latest(version),
                    SpecBound::Included(key@),
                ),
            },
    {
        self.upper_bound(version, Bound::Included(key))
    }

    /// The entry that a reader at `version` sees for the last key that is
    /// less than `key` and for which it sees any.
    pub fn lt<'a>(&'a self, version: u64, key: &[u8]) -> (r: Option<EntryRef<'a, C>>)
        requires
            self.wf(),
        ensures
            match r {
                Some(e) => exists|i: int|
                    #[trigger] is_last_upto(
                        self.spec_comparator(),
                        self@,
                        latest(version),
                        SpecBound::Excluded(key@),
                        i,
                    ) && e@ == self@[i],
                None => none_upto(
                    self.spec_comparator(),
                    self@,
                    latest(version),
                    SpecBound::Excluded(key@),
                ),
            },
    {
        self.upper_bound(version, Bound::Excluded(key))
    }
}

} // verus!
