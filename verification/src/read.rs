//! Point reads.

use vstd::prelude::*;
use crate::comparator::{Comparator, Order};
use crate::entry::EntryRef;
use crate::map::SkipMap;
use crate::model::{before, is_newest_visible, lemma_equal_keys_compare_alike, sorted, visible};

verus! {

impl<C: Comparator> SkipMap<C> {
    /// The entry that a reader at `version` sees for `key`: among the
    /// entries with this key that are not newer than `version` and are not
    /// removal marks, the one with the highest version. `None` if there is
    /// no such entry.
    pub fn get<'a>(&'a self, version: u64, key: &[u8]) -> (r: Option<EntryRef<'a, C>>)
        requires
            self.wf(),
        ensures
            match r {
                Some(e) => exists|i: int|
                    #[trigger] is_newest_visible(self.spec_comparator(), self@, key@, version, i)
                        && e@ == self@[i],
                None => forall|i: int|
                    0 <= i < self@.len() ==> !visible(
                        self.spec_comparator(),
                        #[trigger] self@[i],
                        key@,
                        version,
                    ),
            },
            r matches Some(e) ==> e.spec_comparator() == self.spec_comparator(),
    {
        let (prev, next, Ghost(pi), Ghost(ni)) = self.seek(key, version);
        let ghost c = &self.comparator;
        let ghost s = self@;
        proof {
            self.lemma_inv();
            self.lemma_wf();
            self.lemma_bottom_splice(key@, version, pi, ni, prev, next);
            // nothing before the pair is visible: its key is less, or it is newer
            assert forall|i: int| 0 <= i < pi implies !visible(c, #[trigger] s[i], key@, version) by {
                assert(before(c, s[i], key@, version));
            }
        }
        let mut cur: u32 = next;
        let ghost mut ci: int = ni;
        loop
            invariant
                self.wf(),
                c == &self.comparator,
                c == self.spec_comparator(),
                s == self@,
                sorted(c, s),
                s.len() == self.chain@.len() - 2,
                self.tail == self.chain@[self.chain@.len() - 1],
                1 <= ni <= ci <= self.chain@.len() - 1,
                ni == pi + 1,
                self.chain@[ci] == cur,
                (cur == self.tail) == (ci == self.chain@.len() - 1),
                forall|i: int| 0 <= i < ci - 1 ==> !visible(c, #[trigger] s[i], key@, version),
                forall|i: int| pi <= i < s.len() ==> !before(c, #[trigger] s[i], key@, version),
                forall|i: int|
                    pi <= i < ci - 1 ==> c.spec_compare((#[trigger] s[i]).key, key@)
                        == Order::Equal,
            decreases self.chain@.len() - ci,
        {
            if cur == self.tail {
                return None;
            }
            let e = self.entry_at(cur, Ghost(ci));
            match self.comparator.compare(e.key(), key) {
                Order::Equal => {},
                _ => {
                    proof {
                        // the key at ci is greater, and so are all keys behind it
                        let x = s[ci - 1];
                        assert(!before(c, x, key@, version));
                        assert(c.spec_compare(x.key, key@) == Order::Greater);
                        assert forall|i: int| ci - 1 <= i < s.len() implies !visible(
                            c,
                            #[trigger] s[i],
                            key@,
                            version,
                        ) by {
                            if i > ci - 1 {
                                assert(before(c, x, s[i].key, s[i].version));
                                c.lemma_antisymmetric(x.key, key@);
                                c.lemma_antisymmetric(s[i].key, key@);
                                if c.spec_compare(s[i].key, key@) == Order::Equal {
                                    c.lemma_transitive(x.key, s[i].key, key@);
                                }
                            }
                        }
                    }
                    return None;
                },
            }
            if !e.is_removed() {
                proof {
                    let x = s[ci - 1];
                    assert(!before(c, x, key@, version));
                    assert(visible(c, x, key@, version));
                    assert forall|j: int|
                        0 <= j < s.len() && visible(c, #[trigger] s[j], key@, version) implies s[j].version
                        <= x.version by {
                        if j > ci - 1 {
                            assert(before(c, x, s[j].key, s[j].version));
                            lemma_equal_keys_compare_alike(c, x.key, key@, s[j].key);
                            c.lemma_antisymmetric(s[j].key, key@);
                        }
                    }
                    assert(is_newest_visible(c, s, key@, version, ci - 1));
                }
                return Some(e);
            }
            cur = self.next_node(cur, Ghost(ci));
            proof {
                ci = ci + 1;
            }
        }
    }

    /// Whether a reader at `version` sees an entry for `key`.
    pub fn contains_key(&self, version: u64, key: &[u8]) -> (b: bool)
        requires
            self.wf(),
        ensures
            b == exists|i: int|
                0 <= i < self@.len() && visible(
                    self.spec_comparator(),
                    #[trigger] self@[i],
                    key@,
                    version,
                ),
    {
        match self.get(version, key) {
            Some(e) => {
                proof {
                    let i = choose|i: int|
                        #[trigger] is_newest_visible(
                            self.spec_comparator(),
                            self@,
                            key@,
                            version,
                            i,
                        ) && e@ == self@[i];
                    assert(visible(self.spec_comparator(), self@[i], key@, version));
                }
                true
            },
            None => false,
        }
    }
}

} // verus!
