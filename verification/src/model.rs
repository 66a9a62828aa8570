//! The mathematical model of the map: a sequence of entries ordered by key
//! and, within one key, from the newest version to the oldest.

use vstd::prelude::*;
use crate::comparator::{above_lower, below_upper, in_range, Comparator, Order, SpecBound};

verus! {

/// One entry of the map: a key at a version, with its value, or with no
/// value if the entry marks a removal.
pub struct EntrySpec {
    pub key: Seq<u8>,
    pub version: u64,
    pub value: Option<Seq<u8>>,
}

/// How the pair `(k1, v1)` stands to `(k2, v2)`: by key under the
/// comparator, and for equal keys with the higher version first.
pub open spec fn pair_order<C: Comparator>(
    c: &C,
    k1: Seq<u8>,
    v1: u64,
    k2: Seq<u8>,
    v2: u64,
) -> Order {
    match c.spec_compare(k1, k2) {
        Order::Less => Order::Less,
        Order::Greater => Order::Greater,
        Order::Equal => if v1 > v2 {
            Order::Less
        } else if v1 < v2 {
            Order::Greater
        } else {
            Order::Equal
        },
    }
}

/// Whether entry `a` stands before `(key, version)`.
pub open spec fn before<C: Comparator>(c: &C, a: EntrySpec, key: Seq<u8>, version: u64) -> bool {
    pair_order(c, a.key, a.version, key, version) == Order::Less
}

/// Whether entry `a` stands at `(key, version)`: same key under the
/// comparator, same version.
pub open spec fn at_pair<C: Comparator>(c: &C, a: EntrySpec, key: Seq<u8>, version: u64) -> bool {
    pair_order(c, a.key, a.version, key, version) == Order::Equal
}

/// Whether the entries are strictly ordered: each stands before all that
/// follow it.
pub open spec fn sorted<C: Comparator>(c: &C, s: Seq<EntrySpec>) -> bool {
    forall|i: int, j: int|
        0 <= i < j < s.len() ==> before(c, #[trigger] s[i], (#[trigger] s[j]).key, s[j].version)
}

/// Whether each entry stands before its successor: its key is less, or the
/// keys are equal and its version is higher.
pub open spec fn adjacent_ordered<C: Comparator>(c: &C, s: Seq<EntrySpec>) -> bool {
    forall|i: int, j: int|
        0 <= i && j == i + 1 && j < s.len() ==> {
            ||| c.spec_compare((#[trigger] s[i]).key, (#[trigger] s[j]).key) == Order::Less
            ||| (c.spec_compare(s[i].key, s[j].key) == Order::Equal && s[i].version
                > s[j].version)
        }
}

/// The number of entries that stand before `(key, version)`. In a sorted
/// sequence this is the position of the pair, or the position at which it
/// would be inserted.
pub open spec fn rank<C: Comparator>(c: &C, s: Seq<EntrySpec>, key: Seq<u8>, version: u64) -> int
    decreases s.len(),
{
    if s.len() == 0 {
        0
    } else {
        rank(c, s.drop_last(), key, version) + if before(c, s.last(), key, version) {
            1int
        } else {
            0int
        }
    }
}

/// Whether the sequence holds an entry at `(key, version)`.
pub open spec fn holds_pair<C: Comparator>(
    c: &C,
    s: Seq<EntrySpec>,
    key: Seq<u8>,
    version: u64,
) -> bool {
    let p = rank(c, s, key, version);
    p < s.len() && at_pair(c, s[p], key, version)
}

/// Whether a reader at `version` looking for `key` can see entry `e`: the
/// key matches, the entry is not newer than the reader, and it is not a
/// removal mark.
pub open spec fn visible<C: Comparator>(c: &C, e: EntrySpec, key: Seq<u8>, version: u64) -> bool {
    &&& c.spec_compare(e.key, key) == Order::Equal
    &&& e.version <= version
    &&& e.value is Some
}

/// Whether `i` is the entry that a reader at `version` gets for `key`: it is
/// visible, and no visible entry has a higher version.
pub open spec fn is_newest_visible<C: Comparator>(
    c: &C,
    s: Seq<EntrySpec>,
    key: Seq<u8>,
    version: u64,
    i: int,
) -> bool {
    &&& 0 <= i < s.len()
    &&& visible(c, s[i], key, version)
    &&& forall|j: int|
        0 <= j < s.len() && visible(c, #[trigger] s[j], key, version) ==> s[j].version
            <= s[i].version
}

/// The lowest version among the entries, `u64::MAX` if there is none.
pub open spec fn min_version_of(s: Seq<EntrySpec>) -> u64
    decreases s.len(),
{
    if s.len() == 0 {
        u64::MAX
    } else {
        let m = min_version_of(s.drop_last());
        if s.last().version < m {
            s.last().version
        } else {
            m
        }
    }
}

/// The highest version among the entries, 0 if there is none.
pub open spec fn max_version_of(s: Seq<EntrySpec>) -> u64
    decreases s.len(),
{
    if s.len() == 0 {
        0
    } else {
        let m = max_version_of(s.drop_last());
        if s.last().version > m {
            s.last().version
        } else {
            m
        }
    }
}

/// Every pair equals itself.
pub proof fn lemma_pair_reflexive<C: Comparator>(c: &C, k: Seq<u8>, v: u64)
    ensures
        pair_order(c, k, v, k, v) == Order::Equal,
{
    c.lemma_reflexive(k);
}

/// Exchanging the sides reverses the outcome.
pub proof fn lemma_pair_antisymmetric<C: Comparator>(
    c: &C,
    k1: Seq<u8>,
    v1: u64,
    k2: Seq<u8>,
    v2: u64,
)
    ensures
        pair_order(c, k2, v2, k1, v1) == pair_order(c, k1, v1, k2, v2).spec_reverse(),
{
    c.lemma_antisymmetric(k1, k2);
}

/// The order on pairs is transitive, strictly so if either step is strict.
pub proof fn lemma_pair_transitive<C: Comparator>(
    c: &C,
    k1: Seq<u8>,
    v1: u64,
    k2: Seq<u8>,
    v2: u64,
    k3: Seq<u8>,
    v3: u64,
)
    requires
        pair_order(c, k1, v1, k2, v2) != Order::Greater,
        pair_order(c, k2, v2, k3, v3) != Order::Greater,
    ensures
        pair_order(c, k1, v1, k3, v3) != Order::Greater,
        pair_order(c, k1, v1, k2, v2) == Order::Less || pair_order(c, k2, v2, k3, v3)
            == Order::Less ==> pair_order(c, k1, v1, k3, v3) == Order::Less,
{
    c.lemma_transitive(k1, k2, k3);
}

/// Keys that the comparator holds equal stand alike to every third key.
pub proof fn lemma_equal_keys_compare_alike<C: Comparator>(
    c: &C,
    a: Seq<u8>,
    b: Seq<u8>,
    x: Seq<u8>,
)
    requires
        c.spec_compare(a, b) == Order::Equal,
    ensures
        c.spec_compare(a, x) == c.spec_compare(b, x),
        c.spec_compare(x, a) == c.spec_compare(x, b),
{
    c.lemma_antisymmetric(a, b);
    c.lemma_antisymmetric(a, x);
    c.lemma_antisymmetric(b, x);
    if c.spec_compare(a, x) != Order::Greater {
        c.lemma_transitive(b, a, x);
        if c.spec_compare(b, x) != Order::Greater {
            c.lemma_transitive(a, b, x);
        }
    } else {
        // a > x, so x < a == b
        c.lemma_transitive(x, a, b);
    }
}

/// A sorted sequence has each entry before its successor.
pub proof fn lemma_sorted_adjacent<C: Comparator>(c: &C, s: Seq<EntrySpec>)
    requires
        sorted(c, s),
    ensures
        adjacent_ordered(c, s),
{
    assert forall|i: int, j: int| 0 <= i && j == i + 1 && j < s.len() implies {
        ||| c.spec_compare((#[trigger] s[i]).key, (#[trigger] s[j]).key) == Order::Less
        ||| (c.spec_compare(s[i].key, s[j].key) == Order::Equal && s[i].version > s[j].version)
    } by {
        assert(before(c, s[i], s[j].key, s[j].version));
    }
}

/// In a sorted sequence, a position with everything before it standing
/// before the pair and nothing from it on doing so is the pair's rank.
pub proof fn lemma_rank_is<C: Comparator>(
    c: &C,
    s: Seq<EntrySpec>,
    key: Seq<u8>,
    version: u64,
    p: int,
)
    requires
        0 <= p <= s.len(),
        forall|i: int| 0 <= i < p ==> before(c, #[trigger] s[i], key, version),
        forall|i: int| p <= i < s.len() ==> !before(c, #[trigger] s[i], key, version),
    ensures
        rank(c, s, key, version) == p,
    decreases s.len(),
{
    if s.len() > 0 {
        let t = s.drop_last();
        if p == s.len() {
            assert(before(c, s[p - 1], key, version));
            lemma_rank_is(c, t, key, version, p - 1);
        } else {
            assert(!before(c, s[s.len() - 1], key, version));
            lemma_rank_is(c, t, key, version, p);
        }
    }
}

/// The rank lies within the sequence.
pub proof fn lemma_rank_bounds<C: Comparator>(c: &C, s: Seq<EntrySpec>, key: Seq<u8>, version: u64)
    ensures
        0 <= rank(c, s, key, version) <= s.len(),
    decreases s.len(),
{
    if s.len() > 0 {
        lemma_rank_bounds(c, s.drop_last(), key, version);
    }
}

/// In a sorted sequence the entries before the rank, and only they, stand
/// before the pair.
pub proof fn lemma_rank_splits<C: Comparator>(
    c: &C,
    s: Seq<EntrySpec>,
    key: Seq<u8>,
    version: u64,
)
    requires
        sorted(c, s),
    ensures
        0 <= rank(c, s, key, version) <= s.len(),
        forall|i: int|
            0 <= i < s.len() ==> (before(c, #[trigger] s[i], key, version) <==> i < rank(
                c,
                s,
                key,
                version,
            )),
    decreases s.len(),
{
    lemma_rank_bounds(c, s, key, version);
    if s.len() > 0 {
        let t = s.drop_last();
        assert forall|i: int, j: int| 0 <= i < j < t.len() implies before(
            c,
            #[trigger] t[i],
            (#[trigger] t[j]).key,
            t[j].version,
        ) by {
            assert(t[i] == s[i] && t[j] == s[j]);
        }
        lemma_rank_splits(c, t, key, version);
        let last = s.len() - 1;
        assert forall|i: int| 0 <= i < s.len() implies (before(c, #[trigger] s[i], key, version)
            <==> i < rank(c, s, key, version)) by {
            if i < last {
                assert(t[i] == s[i]);
                if before(c, s.last(), key, version) {
                    // everything earlier stands before the last, hence before the pair
                    assert(before(c, s[i], s[last].key, s[last].version));
                    lemma_pair_transitive(
                        c,
                        s[i].key,
                        s[i].version,
                        s[last].key,
                        s[last].version,
                        key,
                        version,
                    );
                }
            } else {
                if before(c, s.last(), key, version) {
                    // then all of t stands before the pair, so rank(t) == t.len()
                    assert forall|k: int| 0 <= k < t.len() implies before(
                        c,
                        #[trigger] t[k],
                        key,
                        version,
                    ) by {
                        assert(t[k] == s[k]);
                        assert(before(c, s[k], s[last].key, s[last].version));
                        lemma_pair_transitive(
                            c,
                            s[k].key,
                            s[k].version,
                            s[last].key,
                            s[last].version,
                            key,
                            version,
                        );
                    }
                    lemma_rank_is(c, t, key, version, t.len() as int);
                }
            }
        }
    }
}

/// The lesser of two versions.
pub open spec fn min_u64(a: u64, b: u64) -> u64 {
    if a < b {
        a
    } else {
        b
    }
}

/// The greater of two versions.
pub open spec fn max_u64(a: u64, b: u64) -> u64 {
    if a > b {
        a
    } else {
        b
    }
}

/// Putting an entry where everything before it stands before it and
/// everything behind it stands behind it keeps the sequence sorted.
pub proof fn lemma_sorted_insert<C: Comparator>(c: &C, s: Seq<EntrySpec>, p: int, e: EntrySpec)
    requires
        sorted(c, s),
        0 <= p <= s.len(),
        forall|i: int| 0 <= i < p ==> before(c, #[trigger] s[i], e.key, e.version),
        forall|i: int| p <= i < s.len() ==> before(c, e, (#[trigger] s[i]).key, s[i].version),
    ensures
        sorted(c, s.insert(p, e)),
{
    let t = s.insert(p, e);
    assert forall|i: int, j: int| 0 <= i < j < t.len() implies before(
        c,
        #[trigger] t[i],
        (#[trigger] t[j]).key,
        t[j].version,
    ) by {
        let i1 = if i < p {
            i
        } else {
            i - 1
        };
        let j1 = if j < p {
            j
        } else {
            j - 1
        };
        if i != p {
            assert(t[i] == s[i1]);
        }
        if j != p {
            assert(t[j] == s[j1]);
        }
        if i != p && j != p {
            assert(before(c, s[i1], s[j1].key, s[j1].version));
        }
    }
}

/// Replacing the value of an entry keeps the sequence sorted.
pub proof fn lemma_sorted_update<C: Comparator>(c: &C, s: Seq<EntrySpec>, i: int, e: EntrySpec)
    requires
        sorted(c, s),
        0 <= i < s.len(),
        e.key == s[i].key,
        e.version == s[i].version,
    ensures
        sorted(c, s.update(i, e)),
{
    let t = s.update(i, e);
    assert forall|a: int, b: int| 0 <= a < b < t.len() implies before(
        c,
        #[trigger] t[a],
        (#[trigger] t[b]).key,
        t[b].version,
    ) by {
        assert(before(c, s[a], s[b].key, s[b].version));
    }
}

/// An inserted entry lowers the least version and raises the greatest to
/// its own, where it lies beyond them.
pub proof fn lemma_versions_insert(s: Seq<EntrySpec>, p: int, e: EntrySpec)
    requires
        0 <= p <= s.len(),
    ensures
        min_version_of(s.insert(p, e)) == min_u64(min_version_of(s), e.version),
        max_version_of(s.insert(p, e)) == max_u64(max_version_of(s), e.version),
    decreases s.len(),
{
    let t = s.insert(p, e);
    if p == s.len() {
        assert(t.drop_last() =~= s);
        assert(t.last() == e);
    } else {
        assert(t.drop_last() =~= s.drop_last().insert(p, e));
        assert(t.last() == s.last());
        lemma_versions_insert(s.drop_last(), p, e);
    }
}

/// Replacing an entry by one of the same version changes neither the least
/// nor the greatest version.
pub proof fn lemma_versions_update(s: Seq<EntrySpec>, i: int, e: EntrySpec)
    requires
        0 <= i < s.len(),
        e.version == s[i].version,
    ensures
        min_version_of(s.update(i, e)) == min_version_of(s),
        max_version_of(s.update(i, e)) == max_version_of(s),
    decreases s.len(),
{
    let t = s.update(i, e);
    if i == s.len() - 1 {
        assert(t.drop_last() =~= s.drop_last());
    } else {
        assert(t.drop_last() =~= s.drop_last().update(i, e));
        assert(t.last() == s.last());
        lemma_versions_update(s.drop_last(), i, e);
    }
}

/// Inserting a pair that the sequence does not hold at the pair's rank
/// keeps the sequence sorted.
pub proof fn lemma_sorted_insert_at_rank<C: Comparator>(
    c: &C,
    s: Seq<EntrySpec>,
    e: EntrySpec,
)
    requires
        sorted(c, s),
        !holds_pair(c, s, e.key, e.version),
    ensures
        0 <= rank(c, s, e.key, e.version) <= s.len(),
        sorted(c, s.insert(rank(c, s, e.key, e.version), e)),
{
    let p = rank(c, s, e.key, e.version);
    lemma_rank_splits(c, s, e.key, e.version);
    assert forall|i: int| p <= i < s.len() implies before(
        c,
        e,
        (#[trigger] s[i]).key,
        s[i].version,
    ) by {
        assert(!before(c, s[i], e.key, e.version));
        lemma_pair_antisymmetric(c, s[i].key, s[i].version, e.key, e.version);
        if i == p {
            assert(!at_pair(c, s[i], e.key, e.version));
        } else {
            assert(before(c, s[p], s[i].key, s[i].version));
            lemma_pair_antisymmetric(c, s[p].key, s[p].version, e.key, e.version);
            assert(!before(c, s[p], e.key, e.version));
            lemma_pair_transitive(
                c,
                e.key,
                e.version,
                s[p].key,
                s[p].version,
                s[i].key,
                s[i].version,
            );
        }
    }
    lemma_sorted_insert(c, s, p, e);
}

/// What an iterator shows of a map: the entries up to a version whose keys
/// lie in a range, either all of them or of each key only the newest one
/// that is not a removal mark.
pub struct Filter {
    pub version: u64,
    pub all_versions: bool,
    pub lower: SpecBound,
    pub upper: SpecBound,
}

/// Whether an iterator with filter `f` shows entry `i`.
///
/// With all versions, it shows every entry that is not newer than the
/// filter's version and whose key lies in the range, removal marks too.
/// Otherwise it shows of each key in the range the entry that a reader at
/// the filter's version gets.
pub open spec fn yields<C: Comparator>(c: &C, s: Seq<EntrySpec>, f: Filter, i: int) -> bool {
    &&& 0 <= i < s.len()
    &&& in_range(c, f.lower, f.upper, s[i].key)
    &&& if f.all_versions {
        s[i].version <= f.version
    } else {
        is_newest_visible(c, s, s[i].key, f.version, i)
    }
}

/// Whether entry `i` is the first one of its key that the iterator shows.
pub open spec fn run_head<C: Comparator>(c: &C, s: Seq<EntrySpec>, f: Filter, i: int) -> bool {
    &&& yields(c, s, f, i)
    &&& forall|j: int|
        0 <= j < i && #[trigger] yields(c, s, f, j) ==> c.spec_compare(s[j].key, s[i].key)
            != Order::Equal
}

/// What a scan tests of one entry: that it is not newer than the filter's
/// version, that its key lies in the range and not below `floor`, and,
/// unless all versions are shown, that it is not a removal mark and that
/// its key is not `skip`.
pub open spec fn passes<C: Comparator>(
    c: &C,
    e: EntrySpec,
    f: Filter,
    floor: SpecBound,
    skip: Option<Seq<u8>>,
) -> bool {
    &&& e.version <= f.version
    &&& in_range(c, f.lower, f.upper, e.key)
    &&& above_lower(c, floor, e.key)
    &&& (f.all_versions || (e.value is Some && match skip {
        Some(k) => c.spec_compare(e.key, k) != Order::Equal,
        None => true,
    }))
}

/// The filter of a reader at `version` that sees of each key the newest
/// entry which is not a removal mark, whatever the key.
pub open spec fn latest(version: u64) -> Filter {
    Filter {
        version: version,
        all_versions: false,
        lower: SpecBound::Unbounded,
        upper: SpecBound::Unbounded,
    }
}

/// Whether `i` is the first entry shown whose key is not below `lower`.
pub open spec fn is_first_from<C: Comparator>(
    c: &C,
    s: Seq<EntrySpec>,
    f: Filter,
    lower: SpecBound,
    i: int,
) -> bool {
    &&& yields(c, s, f, i)
    &&& above_lower(c, lower, s[i].key)
    &&& forall|k: int|
        0 <= k < i ==> !(#[trigger] yields(c, s, f, k) && above_lower(c, lower, s[k].key))
}

/// Whether no entry shown has a key that is not below `lower`.
pub open spec fn none_from<C: Comparator>(
    c: &C,
    s: Seq<EntrySpec>,
    f: Filter,
    lower: SpecBound,
) -> bool {
    forall|k: int|
        0 <= k < s.len() ==> !(#[trigger] yields(c, s, f, k) && above_lower(c, lower, s[k].key))
}

/// Whether `i` is the first entry shown of the last key that is not above
/// `upper` and of which an entry is shown.
pub open spec fn is_last_upto<C: Comparator>(
    c: &C,
    s: Seq<EntrySpec>,
    f: Filter,
    upper: SpecBound,
    i: int,
) -> bool {
    &&& run_head(c, s, f, i)
    &&& below_upper(c, upper, s[i].key)
    &&& forall|k: int|
        i < k < s.len() ==> !(#[trigger] run_head(c, s, f, k) && below_upper(c, upper, s[k].key))
}

/// Whether no entry shown has a key that is not above `upper`.
pub open spec fn none_upto<C: Comparator>(
    c: &C,
    s: Seq<EntrySpec>,
    f: Filter,
    upper: SpecBound,
) -> bool {
    forall|k: int|
        0 <= k < s.len() ==> !(#[trigger] run_head(c, s, f, k) && below_upper(c, upper, s[k].key))
}

/// Appending an entry behind which the last entry stands keeps the
/// sequence sorted.
pub proof fn lemma_sorted_push<C: Comparator>(c: &C, s: Seq<EntrySpec>, e: EntrySpec)
    requires
        sorted(c, s),
        s.len() > 0 ==> before(c, s.last(), e.key, e.version),
    ensures
        sorted(c, s.push(e)),
{
    let t = s.push(e);
    assert forall|i: int, j: int| 0 <= i < j < t.len() implies before(
        c,
        #[trigger] t[i],
        (#[trigger] t[j]).key,
        t[j].version,
    ) by {
        if j < s.len() {
            assert(before(c, s[i], s[j].key, s[j].version));
        } else if i < s.len() - 1 {
            assert(before(c, s[i], s[s.len() - 1].key, s[s.len() - 1].version));
            lemma_pair_transitive(
                c,
                s[i].key,
                s[i].version,
                s.last().key,
                s.last().version,
                e.key,
                e.version,
            );
        }
    }
}

} // verus!
