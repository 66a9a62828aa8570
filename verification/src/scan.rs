//! Walking along the bottom level, forward and backward, to the next entry
//! that passes a filter.

use vstd::prelude::*;
use crate::comparator::{Bound, Comparator, Order, SpecBound};
use crate::entry::EntryRef;

use crate::map::SkipMap;
use crate::model::{
    before,
    lemma_pair_antisymmetric,
    lemma_pair_reflexive,
    lemma_rank_is,
    passes,
    sorted,
    Filter,
};

verus! {

/// The settings of a scan: what an iterator was made with.
#[derive(Debug, Clone, Copy)]
pub struct Scope<'a> {
    pub version: u64,
    pub all_versions: bool,
    pub lower: Bound<'a>,
    pub upper: Bound<'a>,
}

impl<'a> View for Scope<'a> {
    type V = Filter;

    open spec fn view(&self) -> Filter {
        Filter {
            version: self.version,
            all_versions: self.all_versions,
            lower: self.lower@,
            upper: self.upper@,
        }
    }
}

/// An optional key as an optional sequence.
pub open spec fn skip_view(skip: Option<&[u8]>) -> Option<Seq<u8>> {
    match skip {
        Some(k) => Some(k@),
        None => None,
    }
}

impl<C: Comparator> SkipMap<C> {
    /// Whether `entry` passes the filter of a scan.
    pub(crate) fn entry_passes(
        &self,
        entry: &EntryRef<C>,
        scope: &Scope,
        floor: &Bound,
        skip: Option<&[u8]>,
    ) -> (b: bool)
        ensures
            b == passes(&self.comparator, entry@, scope@, floor@, skip_view(skip)),
    {
        proof {
            entry.lemma_view();
        }
        if entry.version() > scope.version {
            return false;
        }
        if !self.comparator.contains(&scope.lower, &scope.upper, entry.key()) {
            return false;
        }
        let unbounded = Bound::Unbounded;
        if !self.comparator.contains(floor, &unbounded, entry.key()) {
            return false;
        }
        if scope.all_versions {
            return true;
        }
        if entry.is_removed() {
            return false;
        }
        match skip {
            Some(k) => match self.comparator.compare(entry.key(), k) {
                Order::Equal => false,
                _ => true,
            },
            None => true,
        }
    }

    /// Starting at the node `start`, the first node on the bottom level
    /// whose entry passes, or the tail if none does.
    pub(crate) fn scan_forward(
        &self,
        start: u32,
        scope: &Scope,
        floor: &Bound,
        skip: Option<&[u8]>,
        limit: u32,
        Ghost(j): Ghost<int>,
        Ghost(li): Ghost<int>,
    ) -> (r: (u32, Ghost<int>))
        requires
            self.wf(),
            1 <= j <= li <= self.chain@.len() - 1,
            self.chain@[j] == start,
            self.chain@[li] == limit,
        ensures
            j <= r.1@ <= li,
            self.chain@[r.1@] == r.0,
            r.1@ < li ==> passes(
                &self.comparator,
                self@[r.1@ - 1],
                scope@,
                floor@,
                skip_view(skip),
            ),
            forall|m: int|
                j <= m < r.1@ ==> !passes(
                    &self.comparator,
                    #[trigger] self@[m - 1],
                    scope@,
                    floor@,
                    skip_view(skip),
                ),
    {
        proof {
            self.lemma_inv();
        }
        let mut cur: u32 = start;
        let ghost mut ci: int = j;
        loop
            invariant
                self.wf(),
                1 <= j <= ci <= li <= self.chain@.len() - 1,
                self.chain@[ci] == cur,
                self.chain@[li] == limit,
                forall|m: int|
                    j <= m < ci ==> !passes(
                        &self.comparator,
                        #[trigger] self@[m - 1],
                        scope@,
                        floor@,
                        skip_view(skip),
                    ),
            decreases self.chain@.len() - ci,
        {
            if cur == limit {
                proof {
                    self.lemma_inv();
                    if ci != li {
                        assert(self.chain@[ci] != self.chain@[li]);
                    }
                }
                return (cur, Ghost(ci));
            }
            proof {
                self.lemma_inv();
                if ci == li {
                    assert(false);
                }
            }
            let e = self.entry_at(cur, Ghost(ci));
            if self.entry_passes(&e, scope, floor, skip) {
                return (cur, Ghost(ci));
            }
            cur = self.next_node(cur, Ghost(ci));
            proof {
                ci = ci + 1;
            }
        }
    }

    /// The node before the node at `off` on the bottom level.
    pub(crate) fn prev_node(&self, off: u32, Ghost(j): Ghost<int>) -> (prev: u32)
        requires
            self.wf(),
            1 <= j <= self.chain@.len() - 1,
            self.chain@[j] == off,
        ensures
            prev == self.chain@[j - 1],
            (prev == self.head) == (j == 1),
    {
        proof {
            self.lemma_inv();
            self.lemma_wf();
            if j != 1 {
                assert(self.chain@[0] != self.chain@[j - 1]);
            }
        }
        if off == self.tail {
            proof {
                if j != self.chain@.len() - 1 {
                    assert(self.chain@[j] != self.chain@[self.chain@.len() - 1]);
                }
            }
            let (prev, _) = self.last_node();
            return prev;
        }
        proof {
            if j == self.chain@.len() - 1 {
                assert(false);
            }
        }
        let e = self.entry_at(off, Ghost(j));
        let (prev, next, Ghost(pi), Ghost(ni)) = self.seek(e.key(), e.version());
        proof {
            let c = &self.comparator;
            let s = self@;
            let key = e@.key;
            let version = e@.version;
            self.lemma_bottom_splice(key, version, pi, ni, prev, next);
            lemma_pair_reflexive(c, key, version);
            assert forall|i: int| j - 1 <= i < s.len() implies !before(
                c,
                #[trigger] s[i],
                key,
                version,
            ) by {
                if i > j - 1 {
                    assert(before(c, s[j - 1], s[i].key, s[i].version));
                    lemma_pair_antisymmetric(c, s[j - 1].key, s[j - 1].version, s[i].key, s[i].version);
                }
            }
            assert forall|i: int| 0 <= i < j - 1 implies before(c, #[trigger] s[i], key, version) by {
                assert(before(c, s[i], s[j - 1].key, s[j - 1].version));
            }
            lemma_rank_is(c, s, key, version, j - 1);
        }
        prev
    }

    /// The last node whose key is less than `key`; the head if there is
    /// none.
    pub(crate) fn last_below(&self, key: &[u8]) -> (r: (u32, Ghost<int>))
        requires
            self.wf(),
        ensures
            0 <= r.1@ <= self.chain@.len() - 2,
            self.chain@[r.1@] == r.0,
            forall|i: int|
                0 <= i < r.1@ ==> self.comparator.spec_compare((#[trigger] self@[i]).key, key@)
                    == Order::Less,
            forall|i: int|
                r.1@ <= i < self@.len() ==> self.comparator.spec_compare(
                    (#[trigger] self@[i]).key,
                    key@,
                ) != Order::Less,
    {
        let (prev, next, Ghost(pi), Ghost(ni)) = self.seek(key, u64::MAX);
        proof {
            self.lemma_inv();
            self.lemma_bottom_splice(key@, u64::MAX, pi, ni, prev, next);
            let c = &self.comparator;
            let s = self@;
            assert forall|i: int| 0 <= i < pi implies c.spec_compare((#[trigger] s[i]).key, key@)
                == Order::Less by {
                assert(before(c, s[i], key@, u64::MAX));
            }
            assert forall|i: int| pi <= i < s.len() implies c.spec_compare(
                (#[trigger] s[i]).key,
                key@,
            ) != Order::Less by {
                assert(!before(c, s[i], key@, u64::MAX));
            }
        }
        (prev, Ghost(pi))
    }

    /// The last node whose key is not greater than `key`; the head if
    /// there is none.
    pub(crate) fn last_at_or_below(&self, key: &[u8]) -> (r: (u32, Ghost<int>))
        requires
            self.wf(),
        ensures
            0 <= r.1@ <= self.chain@.len() - 2,
            self.chain@[r.1@] == r.0,
            forall|i: int|
                0 <= i < r.1@ ==> self.comparator.spec_compare((#[trigger] self@[i]).key, key@)
                    != Order::Greater,
            forall|i: int|
                r.1@ <= i < self@.len() ==> self.comparator.spec_compare(
                    (#[trigger] self@[i]).key,
                    key@,
                ) == Order::Greater,
    {
        let (prev, next, Ghost(pi), Ghost(ni)) = self.seek(key, 0);
        let ghost c = &self.comparator;
        let ghost s = self@;
        proof {
            self.lemma_inv();
            self.lemma_wf();
            self.lemma_bottom_splice(key@, 0, pi, ni, prev, next);
            assert forall|i: int| 0 <= i < pi implies c.spec_compare((#[trigger] s[i]).key, key@)
                != Order::Greater by {
                assert(before(c, s[i], key@, 0));
            }
            if ni != self.chain@.len() - 1 {
                assert(self.chain@[ni] != self.chain@[self.chain@.len() - 1]);
            }
        }
        if next != self.tail {
            let e = self.entry_at(next, Ghost(ni));
            match self.comparator.compare(e.key(), key) {
                Order::Equal => {
                    proof {
                        // the node holds (key, 0): nothing behind it has this key
                        assert(!before(c, s[pi], key@, 0));
                        assert forall|i: int| ni <= i < s.len() implies c.spec_compare(
                            (#[trigger] s[i]).key,
                            key@,
                        ) == Order::Greater by {
                            assert(before(c, s[pi], s[i].key, s[i].version));
                            assert(!before(c, s[i], key@, 0));
                            c.lemma_antisymmetric(s[pi].key, key@);
                            c.lemma_antisymmetric(s[i].key, key@);
                            if c.spec_compare(s[i].key, key@) == Order::Equal {
                                c.lemma_transitive(s[pi].key, key@, s[i].key);
                                c.lemma_transitive(s[i].key, key@, s[pi].key);
                                c.lemma_antisymmetric(s[pi].key, s[i].key);
                            }
                        }
                    }
                    return (next, Ghost(ni));
                },
                _ => {},
            }
        }
        proof {
            assert forall|i: int| pi <= i < s.len() implies c.spec_compare(
                (#[trigger] s[i]).key,
                key@,
            ) == Order::Greater by {
                assert(!before(c, s[pi], key@, 0));
                assert(!before(c, s[i], key@, 0));
                assert(c.spec_compare(s[pi].key, key@) == Order::Greater);
                if i > pi {
                    assert(before(c, s[pi], s[i].key, s[i].version));
                    c.lemma_antisymmetric(s[pi].key, key@);
                    c.lemma_antisymmetric(s[i].key, key@);
                    if c.spec_compare(s[i].key, key@) != Order::Greater {
                        c.lemma_transitive(s[pi].key, s[i].key, key@);
                    }
                }
            }
        }
        (prev, Ghost(pi))
    }

    /// Walking backward from the node before `from`, the first node whose
    /// entry passes; `None` if none does.
    pub(crate) fn scan_back_nodes(&self, from: u32, scope: &Scope, Ghost(li): Ghost<int>) -> (r:
        Option<(u32, Ghost<int>)>)
        requires
            self.wf(),
            1 <= li <= self.chain@.len() - 1,
            self.chain@[li] == from,
        ensures
            match r {
                Some((off, t)) => {
                    &&& 1 <= t@ < li
                    &&& self.chain@[t@] == off
                    &&& passes(&self.comparator, self@[t@ - 1], scope@, SpecBound::Unbounded, None)
                    &&& forall|m: int|
                        t@ < m < li ==> !passes(
                            &self.comparator,
                            #[trigger] self@[m - 1],
                            scope@,
                            SpecBound::Unbounded,
                            None,
                        )
                },
                None => forall|m: int|
                    1 <= m < li ==> !passes(
                        &self.comparator,
                        #[trigger] self@[m - 1],
                        scope@,
                        SpecBound::Unbounded,
                        None,
                    ),
            },
    {
        proof {
            self.lemma_inv();
            self.lemma_wf();
        }
        let floor = Bound::Unbounded;
        let mut cur: u32 = from;
        let ghost mut ci: int = li;
        loop
            invariant
                self.wf(),
                floor@ == SpecBound::Unbounded,
                1 <= ci <= li <= self.chain@.len() - 1,
                self.chain@[ci] == cur,
                forall|m: int|
                    ci <= m < li ==> !passes(
                        &self.comparator,
                        #[trigger] self@[m - 1],
                        scope@,
                        SpecBound::Unbounded,
                        None,
                    ),
            decreases ci,
        {
            let prev = self.prev_node(cur, Ghost(ci));
            if prev == self.head {
                return None;
            }
            let e = self.entry_at(prev, Ghost(ci - 1));
            if self.entry_passes(&e, scope, &floor, None) {
                return Some((prev, Ghost(ci - 1)));
            }
            cur = prev;
            proof {
                ci = ci - 1;
            }
        }
    }

    /// Walking backward from the node `start`, the first key that has an
    /// entry which passes, and of that key the foremost such entry; `None`
    /// if no entry passes.
    pub(crate) fn scan_back_keys(&self, start: u32, scope: &Scope, Ghost(top_index): Ghost<int>) -> (r:
        Option<(u32, Ghost<int>)>)
        requires
            self.wf(),
            0 <= top_index <= self.chain@.len() - 2,
            self.chain@[top_index] == start,
        ensures
            match r {
                Some((off, t)) => {
                    &&& 1 <= t@ <= top_index
                    &&& self.chain@[t@] == off
                    &&& passes(&self.comparator, self@[t@ - 1], scope@, SpecBound::Unbounded, None)
                    &&& forall|m: int|
                        1 <= m < t@ && self.comparator.spec_compare(
                            (#[trigger] self@[m - 1]).key,
                            self@[t@ - 1].key,
                        ) == Order::Equal ==> !passes(
                            &self.comparator,
                            self@[m - 1],
                            scope@,
                            SpecBound::Unbounded,
                            None,
                        )
                    &&& forall|m: int|
                        t@ < m <= top_index && passes(
                            &self.comparator,
                            #[trigger] self@[m - 1],
                            scope@,
                            SpecBound::Unbounded,
                            None,
                        ) ==> self.comparator.spec_compare(self@[m - 1].key, self@[t@ - 1].key)
                            == Order::Equal
                },
                None => forall|m: int|
                    1 <= m <= top_index ==> !passes(
                        &self.comparator,
                        #[trigger] self@[m - 1],
                        scope@,
                        SpecBound::Unbounded,
                        None,
                    ),
            },
    {
        proof {
            self.lemma_inv();
            self.lemma_wf();
        }
        let ghost c = &self.comparator;
        let ghost s = self@;
        let floor = Bound::Unbounded;
        let mut cur: u32 = start;
        let ghost mut ci: int = top_index;
        let mut best: Option<(u32, EntryRef<C>)> = None;
        let ghost mut bi: int = 0;
        loop
            invariant
                self.wf(),
                c == &self.comparator,
                s == self@,
                sorted(c, s),
                s.len() == self.chain@.len() - 2,
                self.head == self.chain@[0],
                floor@ == SpecBound::Unbounded,
                0 <= ci <= top_index <= self.chain@.len() - 2,
                self.chain@[ci] == cur,
                (cur == self.head) == (ci == 0),
                match best {
                    Some((off, e)) => {
                        &&& ci < bi <= top_index
                        &&& self.chain@[bi] == off
                        &&& e@ == s[bi - 1]
                        &&& passes(c, s[bi - 1], scope@, SpecBound::Unbounded, None)
                        &&& forall|m: int|
                            ci < m < bi ==> !passes(
                                c,
                                #[trigger] s[m - 1],
                                scope@,
                                SpecBound::Unbounded,
                                None,
                            )
                        &&& forall|m: int|
                            ci < m <= top_index && passes(
                                c,
                                #[trigger] s[m - 1],
                                scope@,
                                SpecBound::Unbounded,
                                None,
                            ) ==> c.spec_compare(s[m - 1].key, s[bi - 1].key) == Order::Equal
                    },
                    None => forall|m: int|
                        ci < m <= top_index ==> !passes(
                            c,
                            #[trigger] s[m - 1],
                            scope@,
                            SpecBound::Unbounded,
                            None,
                        ),
                },
            decreases ci,
        {
            if cur == self.head {
                return match best {
                    Some((off, _)) => Some((off, Ghost(bi))),
                    None => None,
                };
            }
            let e = self.entry_at(cur, Ghost(ci));
            match best {
                Some((off, b)) => {
                    match self.comparator.compare(e.key(), b.key()) {
                        Order::Equal => {},
                        _ => {
                            proof {
                                // the run of the best entry's key ends here
                                assert(before(c, s[ci - 1], s[bi - 1].key, s[bi - 1].version));
                                assert forall|m: int|
                                    1 <= m < bi && c.spec_compare(
                                        (#[trigger] s[m - 1]).key,
                                        s[bi - 1].key,
                                    ) == Order::Equal implies !passes(
                                    c,
                                    s[m - 1],
                                    scope@,
                                    SpecBound::Unbounded,
                                    None,
                                ) by {
                                    if m < ci {
                                        assert(before(c, s[m - 1], s[ci - 1].key, s[ci - 1].version));
                                        c.lemma_antisymmetric(s[m - 1].key, s[bi - 1].key);
                                        c.lemma_transitive(
                                            s[bi - 1].key,
                                            s[m - 1].key,
                                            s[ci - 1].key,
                                        );
                                        c.lemma_antisymmetric(s[bi - 1].key, s[ci - 1].key);
                                    }
                                }
                            }
                            return Some((off, Ghost(bi)));
                        },
                    }
                },
                None => {},
            }
            if self.entry_passes(&e, scope, &floor, None) {
                proof {
                    c.lemma_reflexive(s[ci - 1].key);
                    if best is Some {
                        assert forall|m: int|
                            ci - 1 < m <= top_index && passes(
                                c,
                                #[trigger] s[m - 1],
                                scope@,
                                SpecBound::Unbounded,
                                None,
                            ) implies c.spec_compare(s[m - 1].key, s[ci - 1].key)
                            == Order::Equal by {
                            if m > ci {
                                c.lemma_antisymmetric(s[ci - 1].key, s[bi - 1].key);
                                c.lemma_transitive(s[m - 1].key, s[bi - 1].key, s[ci - 1].key);
                                c.lemma_transitive(s[ci - 1].key, s[bi - 1].key, s[m - 1].key);
                                c.lemma_antisymmetric(s[m - 1].key, s[ci - 1].key);
                            }
                        }
                    }
                    bi = ci;
                }
                best = Some((cur, e));
            }
            cur = self.prev_node(cur, Ghost(ci));
            proof {
                ci = ci - 1;
            }
        }
    }
}

} // verus!
