//! Iterators over a map: forward and backward, within a key range, at a
//! version, over all versions or over the newest version of each key.

use vstd::prelude::*;
use crate::comparator::{above_lower, below_upper, Bound, Comparator, Order, SpecBound};
use crate::entry::EntryRef;
use crate::filter::{
    lemma_backward_keys,
    lemma_forward_from_cursor,
    lemma_forward_from_seek,
    lemma_later_in_run,
    lemma_yields_passes,
};
use crate::map::SkipMap;
use crate::model::{before, passes, run_head, yields, Filter};
use crate::scan::{skip_view, Scope};

verus! {

/// A cursor on a map. It stands before the first entry, behind the last
/// one, or at an entry that it shows.
#[derive(Clone, Copy)]
pub struct MapIterator<'a, C: Comparator> {
    pub(crate) map: &'a SkipMap<C>,
    pub(crate) nd: u32,
    pub(crate) scope: Scope<'a>,
    pub(crate) last: Option<EntryRef<'a, C>>,
    pub(crate) pos: Ghost<int>,
}

impl<'a, C: Comparator> MapIterator<'a, C> {
    /// The map that the iterator walks.
    pub closed spec fn spec_map(&self) -> &SkipMap<C> {
        self.map
    }

    /// What the iterator shows.
    pub closed spec fn spec_filter(&self) -> Filter {
        self.scope@
    }

    /// Where the cursor stands: the index of its entry, -1 before the
    /// first entry, the number of entries behind the last one.
    pub closed spec fn spec_index(&self) -> int {
        self.pos@ - 1
    }

    /// The iterator's invariant: the map is well formed, and the cursor
    /// stands before the first entry, behind the last, or at an entry that
    /// the iterator shows.
    pub closed spec fn wf(&self) -> bool {
        self.inv()
    }

    /// The invariant, spelled out.
    pub(crate) open spec fn inv(&self) -> bool {
        let s = self.map@;
        let i = self.pos@ - 1;
        &&& self.map.wf()
        &&& 0 <= self.pos@ <= self.map.chain@.len() - 1
        &&& self.map.chain@[self.pos@] == self.nd
        &&& (i == -1 || i == s.len() || yields(&self.map.comparator, s, self.scope@, i))
        &&& match self.last {
            Some(e) => 0 <= i < s.len() && e@ == s[i] && e.spec_comparator()
                == self.map.spec_comparator(),
            None => i == -1 || i == s.len(),
        }
    }

    /// The invariant and the public names as the rest of the crate sees
    /// them.
    pub(crate) proof fn lemma_inv(&self)
        ensures
            self.wf() == self.inv(),
            self.spec_map() == self.map,
            self.spec_filter() == self.scope@,
            self.spec_index() == self.pos@ - 1,
    {
    }

    /// What the invariant says over the public names.
    pub proof fn lemma_wf(&self)
        requires
            self.wf(),
        ensures
            self.spec_map().wf(),
            -1 <= self.spec_index() <= self.spec_map()@.len(),
            0 <= self.spec_index() < self.spec_map()@.len() ==> yields(
                self.spec_map().spec_comparator(),
                self.spec_map()@,
                self.spec_filter(),
                self.spec_index(),
            ),
    {
        self.map.lemma_inv();
    }

    /// An iterator on `map` that stands before the first entry.
    pub(crate) fn new(map: &'a SkipMap<C>, scope: Scope<'a>) -> (it: Self)
        requires
            map.wf(),
        ensures
            it.wf(),
            it.spec_map() == map,
            it.spec_filter() == scope@,
            it.spec_index() == -1,
    {
        proof {
            map.lemma_inv();
        }
        MapIterator { map, nd: map.head, scope, last: None, pos: Ghost(0) }
    }

    /// The bounds of the key range that the iterator shows.
    pub fn bounds(&self) -> (r: (Bound<'a>, Bound<'a>))
        ensures
            r.0@ == self.spec_filter().lower,
            r.1@ == self.spec_filter().upper,
    {
        (self.scope.lower, self.scope.upper)
    }

    /// The entry at which the cursor stands.
    pub fn entry(&self) -> (r: Option<EntryRef<'a, C>>)
        requires
            self.wf(),
        ensures
            match r {
                Some(e) => 0 <= self.spec_index() < self.spec_map()@.len() && e@
                    == self.spec_map()@[self.spec_index()],
                None => self.spec_index() == -1 || self.spec_index() == self.spec_map()@.len(),
            },
    {
        self.last
    }

    /// Places the cursor at the node `off`, or behind the last entry if
    /// `off` is the tail.
    fn settle(&mut self, off: u32, Ghost(t): Ghost<int>) -> (r: Option<EntryRef<'a, C>>)
        requires
            old(self).map.wf(),
            1 <= t <= old(self).map.chain@.len() - 1,
            old(self).map.chain@[t] == off,
            t < old(self).map.chain@.len() - 1 ==> yields(
                &old(self).map.comparator,
                old(self).map@,
                old(self).scope@,
                t - 1,
            ),
        ensures
            final(self).wf(),
            final(self).map == old(self).map,
            final(self).scope == old(self).scope,
            final(self).pos@ == t,
            match r {
                Some(e) => t < old(self).map.chain@.len() - 1 && e@ == old(self).map@[t - 1]
                    && e.spec_comparator() == old(self).map.spec_comparator(),
                None => t == old(self).map.chain@.len() - 1,
            },
    {
        proof {
            self.map.lemma_inv();
        }
        let map: &'a SkipMap<C> = self.map;
        if off == map.tail {
            proof {
                if t != map.chain@.len() - 1 {
                    assert(map.chain@[t] != map.chain@[map.chain@.len() - 1]);
                }
            }
            self.nd = off;
            self.last = None;
            self.pos = Ghost(t);
            return None;
        }
        proof {
            if t == map.chain@.len() - 1 {
                assert(false);
            }
        }
        let e = map.entry_at(off, Ghost(t));
        self.nd = off;
        self.last = Some(e);
        self.pos = Ghost(t);
        Some(e)
    }

    /// Places the cursor before the first entry.
    fn rewind(&mut self)
        requires
            old(self).map.wf(),
        ensures
            final(self).wf(),
            final(self).map == old(self).map,
            final(self).scope == old(self).scope,
            final(self).pos@ == 0,
    {
        proof {
            self.map.lemma_inv();
        }
        self.nd = self.map.head;
        self.last = None;
        self.pos = Ghost(0);
    }

    /// Moves the cursor to the next entry that the iterator shows and
    /// returns it. If there is none, the cursor goes behind the last
    /// entry.
    pub fn next(&mut self) -> (r: Option<EntryRef<'a, C>>)
        requires
            old(self).wf(),
        ensures
            final(self).wf(),
            final(self).spec_map() == old(self).spec_map(),
            final(self).spec_filter() == old(self).spec_filter(),
            forall|k: int|
                old(self).spec_index() < k < final(self).spec_index() ==> !#[trigger] yields(
                    old(self).spec_map().spec_comparator(),
                    old(self).spec_map()@,
                    old(self).spec_filter(),
                    k,
                ),
            match r {
                Some(e) => {
                    &&& old(self).spec_index() < final(self).spec_index() < old(
                        self,
                    ).spec_map()@.len()
                    &&& e@ == old(self).spec_map()@[final(self).spec_index()]
                    &&& e.spec_comparator() == old(self).spec_map().spec_comparator()
                },
                None => final(self).spec_index() == old(self).spec_map()@.len(),
            },
    {
        proof {
            self.lemma_inv();
            self.map.lemma_inv();
            self.map.lemma_wf();
        }
        let map: &'a SkipMap<C> = self.map;
        if self.nd == map.tail {
            proof {
                if self.pos@ != map.chain@.len() - 1 {
                    assert(map.chain@[self.pos@] != map.chain@[map.chain@.len() - 1]);
                }
            }
            return None;
        }
        let ghost a = self.pos@ - 1;
        proof {
            if self.pos@ == map.chain@.len() - 1 {
                assert(false);
            }
        }
        let start = map.next_node(self.nd, Ghost(self.pos@));
        let skip: Option<&[u8]> = if self.scope.all_versions {
            None
        } else {
            match self.last {
                Some(e) => Some(e.key()),
                None => None,
            }
        };
        let floor = Bound::Unbounded;
        let (t, Ghost(ti)) = map.scan_forward(
            start,
            &self.scope,
            &floor,
            skip,
            map.tail,
            Ghost(self.pos@ + 1),
            Ghost(map.chain@.len() - 1),
        );
        proof {
            let s = map@;
            let c = &map.comparator;
            assert forall|m: int| a < m < ti - 1 implies !passes(
                c,
                #[trigger] s[m],
                self.scope@,
                SpecBound::Unbounded,
                skip_view(skip),
            ) by {
                assert(!passes(c, s[(m + 1) - 1], self.scope@, floor@, skip_view(skip)));
            }
            lemma_forward_from_cursor(c, s, self.scope@, a, skip_view(skip), ti - 1);
        }
        let r = self.settle(t, Ghost(ti));
        proof {
            self.lemma_inv();
        }
        r
    }

    /// Moves the cursor to the previous entry that the iterator shows and
    /// returns it. If there is none, the cursor goes before the first
    /// entry.
    pub fn next_back(&mut self) -> (r: Option<EntryRef<'a, C>>)
        requires
            old(self).wf(),
        ensures
            final(self).wf(),
            final(self).spec_map() == old(self).spec_map(),
            final(self).spec_filter() == old(self).spec_filter(),
            forall|k: int|
                final(self).spec_index() < k < old(self).spec_index() ==> !#[trigger] yields(
                    old(self).spec_map().spec_comparator(),
                    old(self).spec_map()@,
                    old(self).spec_filter(),
                    k,
                ),
            match r {
                Some(e) => {
                    &&& 0 <= final(self).spec_index() < old(self).spec_index()
                    &&& e@ == old(self).spec_map()@[final(self).spec_index()]
                    &&& e.spec_comparator() == old(self).spec_map().spec_comparator()
                },
                None => final(self).spec_index() == -1,
            },
    {
        proof {
            self.lemma_inv();
            self.map.lemma_inv();
            self.map.lemma_wf();
        }
        let map: &'a SkipMap<C> = self.map;
        let ghost s = map@;
        let ghost c = &map.comparator;
        let ghost f = self.scope@;
        let ghost li = self.pos@;
        if self.nd == map.head {
            proof {
                if li != 0 {
                    assert(map.chain@[0] != map.chain@[li]);
                }
            }
            return None;
        }
        proof {
            if li == 0 {
                assert(false);
            }
        }
        let found = if self.scope.all_versions {
            map.scan_back_nodes(self.nd, &self.scope, Ghost(li))
        } else {
            let prev = map.prev_node(self.nd, Ghost(li));
            map.scan_back_keys(prev, &self.scope, Ghost(li - 1))
        };
        match found {
            Some((off, gt)) => {
                let ghost t = gt@;
                proof {
                    if f.all_versions {
                        assert forall|k: int| t - 1 < k < li - 1 implies !#[trigger] yields(
                            c,
                            s,
                            f,
                            k,
                        ) by {
                            assert(!passes(c, s[(k + 1) - 1], f, SpecBound::Unbounded, None));
                        }
                    } else {
                        assert forall|m: int|
                            0 <= m < t - 1 && c.spec_compare((#[trigger] s[m]).key, s[t - 1].key)
                                == Order::Equal implies !passes(
                            c,
                            s[m],
                            f,
                            SpecBound::Unbounded,
                            None,
                        ) by {
                            assert(s[(m + 1) - 1] == s[m]);
                        }
                        crate::filter::lemma_first_passing_yields(c, s, f, t - 1);
                        assert forall|k: int| t - 1 < k < li - 1 implies !#[trigger] yields(
                            c,
                            s,
                            f,
                            k,
                        ) by {
                            if yields(c, s, f, k) {
                                lemma_yields_passes(c, s, f, k);
                                assert(passes(c, s[(k + 1) - 1], f, SpecBound::Unbounded, None));
                                lemma_later_in_run(c, s, f, t - 1, k);
                            }
                        }
                    }
                }
                let r = self.settle(off, Ghost(t));
                proof {
                    self.lemma_inv();
                }
                r
            },
            None => {
                proof {
                    assert forall|k: int| -1 < k < li - 1 implies !#[trigger] yields(c, s, f, k) by {
                        if yields(c, s, f, k) {
                            lemma_yields_passes(c, s, f, k);
                            assert(!passes(c, s[(k + 1) - 1], f, SpecBound::Unbounded, None));
                        }
                    }
                }
                self.rewind();
                proof {
                    self.lemma_inv();
                }
                None
            },
        }
    }

    /// Moves the cursor to the first entry that the iterator shows and
    /// whose key is not below `lower`, and returns it. If there is none,
    /// the cursor goes behind the last entry.
    pub fn seek_lower_bound(&mut self, lower: Bound) -> (r: Option<EntryRef<'a, C>>)
        requires
            old(self).wf(),
        ensures
            final(self).wf(),
            final(self).spec_map() == old(self).spec_map(),
            final(self).spec_filter() == old(self).spec_filter(),
            forall|k: int|
                0 <= k < final(self).spec_index() ==> !(#[trigger] yields(
                    old(self).spec_map().spec_comparator(),
                    old(self).spec_map()@,
                    old(self).spec_filter(),
                    k,
                ) && above_lower(
                    old(self).spec_map().spec_comparator(),
                    lower@,
                    old(self).spec_map()@[k].key,
                )),
            match r {
                Some(e) => {
                    &&& 0 <= final(self).spec_index() < old(self).spec_map()@.len()
                    &&& e@ == old(self).spec_map()@[final(self).spec_index()]
                    &&& above_lower(old(self).spec_map().spec_comparator(), lower@, e@.key)
                    &&& e.spec_comparator() == old(self).spec_map().spec_comparator()
                },
                None => final(self).spec_index() == old(self).spec_map()@.len(),
            },
    {
        proof {
            self.lemma_inv();
            self.map.lemma_inv();
            self.map.lemma_wf();
        }
        let map: &'a SkipMap<C> = self.map;
        let ghost s = map@;
        let ghost c = &map.comparator;
        let ghost f = self.scope@;
        let (start, Ghost(si)) = match lower {
            Bound::Included(key) => {
                let (prev, next, Ghost(pi), Ghost(ni)) = map.seek(key, self.scope.version);
                proof {
                    map.lemma_bottom_splice(key@, self.scope.version, pi, ni, prev, next);
                }
                (next, Ghost(ni))
            },
            Bound::Excluded(key) => {
                let (prev, next, Ghost(pi), Ghost(ni)) = map.seek(key, self.scope.version);
                proof {
                    map.lemma_bottom_splice(key@, self.scope.version, pi, ni, prev, next);
                }
                (next, Ghost(ni))
            },
            Bound::Unbounded => {
                let next = map.next_node(map.head, Ghost(0));
                (next, Ghost(1))
            },
        };
        let (t, Ghost(ti)) = map.scan_forward(
            start,
            &self.scope,
            &lower,
            None,
            map.tail,
            Ghost(si),
            Ghost(map.chain@.len() - 1),
        );
        proof {
            assert forall|m: int| si - 1 <= m < ti - 1 implies !passes(
                c,
                #[trigger] s[m],
                f,
                lower@,
                None,
            ) by {
                assert(!passes(c, s[(m + 1) - 1], f, lower@, skip_view(None)));
            }
            lemma_forward_from_seek(c, s, f, lower@, si - 1, ti - 1);
        }
        let r = self.settle(t, Ghost(ti));
        proof {
            self.lemma_inv();
        }
        r
    }

    /// Moves the cursor to the last key that is not above `upper` and of
    /// which the iterator shows an entry, at the first entry of that key
    /// that it shows, and returns it. If there is none, the cursor goes
    /// before the first entry.
    pub fn seek_upper_bound(&mut self, upper: Bound) -> (r: Option<EntryRef<'a, C>>)
        requires
            old(self).wf(),
        ensures
            final(self).wf(),
            final(self).spec_map() == old(self).spec_map(),
            final(self).spec_filter() == old(self).spec_filter(),
            forall|k: int|
                final(self).spec_index() < k < old(self).spec_map()@.len() ==> !(
                #[trigger] run_head(
                    old(self).spec_map().spec_comparator(),
                    old(self).spec_map()@,
                    old(self).spec_filter(),
                    k,
                ) && below_upper(
                    old(self).spec_map().spec_comparator(),
                    upper@,
                    old(self).spec_map()@[k].key,
                )),
            match r {
                Some(e) => {
                    &&& 0 <= final(self).spec_index() < old(self).spec_map()@.len()
                    &&& e@ == old(self).spec_map()@[final(self).spec_index()]
                    &&& run_head(
                        old(self).spec_map().spec_comparator(),
                        old(self).spec_map()@,
                        old(self).spec_filter(),
                        final(self).spec_index(),
                    )
                    &&& below_upper(old(self).spec_map().spec_comparator(), upper@, e@.key)
                    &&& e.spec_comparator() == old(self).spec_map().spec_comparator()
                },
                None => final(self).spec_index() == -1,
            },
    {
        proof {
            self.lemma_inv();
            self.map.lemma_inv();
            self.map.lemma_wf();
        }
        let map: &'a SkipMap<C> = self.map;
        let ghost s = map@;
        let ghost c = &map.comparator;
        let ghost f = self.scope@;
        let (cand, Ghost(top_index)) = match upper {
            Bound::Included(key) => map.last_at_or_below(key),
            Bound::Excluded(key) => map.last_below(key),
            Bound::Unbounded => map.last_node(),
        };
        let found = map.scan_back_keys(cand, &self.scope, Ghost(top_index));
        let ghost t: int = match found {
            Some((_, gt)) => gt@,
            None => 0,
        };
        proof {
            if t >= 1 {
                assert forall|m: int|
                    0 <= m < t - 1 && c.spec_compare((#[trigger] s[m]).key, s[t - 1].key)
                        == Order::Equal implies !passes(c, s[m], f, SpecBound::Unbounded, None) by {
                    assert(s[(m + 1) - 1] == s[m]);
                }
                assert forall|m: int|
                    t - 1 < m < top_index && passes(
                        c,
                        #[trigger] s[m],
                        f,
                        SpecBound::Unbounded,
                        None,
                    ) implies c.spec_compare(s[m].key, s[t - 1].key) == Order::Equal by {
                    assert(s[(m + 1) - 1] == s[m]);
                }
            } else {
                assert forall|m: int| 0 <= m < top_index implies !passes(
                    c,
                    #[trigger] s[m],
                    f,
                    SpecBound::Unbounded,
                    None,
                ) by {
                    assert(s[(m + 1) - 1] == s[m]);
                }
            }
            assert forall|i: int| 0 <= i < top_index implies below_upper(c, upper@, (#[trigger] s[i]).key) by {}
            assert forall|i: int| top_index <= i < s.len() implies !below_upper(
                c,
                upper@,
                (#[trigger] s[i]).key,
            ) by {}
            lemma_backward_keys(c, s, f, upper@, top_index, t - 1);
        }
        match found {
            Some((off, gt)) => {
                let r = self.settle(off, Ghost(gt@));
                proof {
                    self.lemma_inv();
                }
                r
            },
            None => {
                self.rewind();
                proof {
                    self.lemma_inv();
                }
                None
            },
        }
    }
}

} // verus!
