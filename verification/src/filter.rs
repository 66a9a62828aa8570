//! Why a scan that tests entries one by one finds what an iterator has to
//! show.

use vstd::prelude::*;
use crate::comparator::{above_lower, below_upper, in_range, Comparator, Order, SpecBound};
use crate::model::{
    before,
    lemma_equal_keys_compare_alike,
    passes,
    run_head,
    sorted,
    visible,
    yields,
    EntrySpec,
    Filter,
};

verus! {

/// Keys that the comparator holds equal lie on the same side of every
/// bound.
pub proof fn lemma_bounds_alike<C: Comparator>(
    c: &C,
    lower: SpecBound,
    upper: SpecBound,
    a: Seq<u8>,
    b: Seq<u8>,
)
    requires
        c.spec_compare(a, b) == Order::Equal,
    ensures
        above_lower(c, lower, a) == above_lower(c, lower, b),
        below_upper(c, upper, a) == below_upper(c, upper, b),
        in_range(c, lower, upper, a) == in_range(c, lower, upper, b),
{
    match lower {
        SpecBound::Included(k) => lemma_equal_keys_compare_alike(c, a, b, k),
        SpecBound::Excluded(k) => lemma_equal_keys_compare_alike(c, a, b, k),
        SpecBound::Unbounded => {},
    }
    match upper {
        SpecBound::Included(k) => lemma_equal_keys_compare_alike(c, a, b, k),
        SpecBound::Excluded(k) => lemma_equal_keys_compare_alike(c, a, b, k),
        SpecBound::Unbounded => {},
    }
}

/// In a sorted sequence the keys do not decrease, and entries of one key
/// come with falling versions.
pub proof fn lemma_sorted_keys<C: Comparator>(c: &C, s: Seq<EntrySpec>, i: int, j: int)
    requires
        sorted(c, s),
        0 <= i < j < s.len(),
    ensures
        c.spec_compare(s[i].key, s[j].key) != Order::Greater,
        c.spec_compare(s[j].key, s[i].key) != Order::Less,
        c.spec_compare(s[i].key, s[j].key) == Order::Equal ==> s[i].version > s[j].version,
{
    assert(before(c, s[i], s[j].key, s[j].version));
    c.lemma_antisymmetric(s[i].key, s[j].key);
}

/// Equality of keys under the comparator is symmetric and transitive.
pub proof fn lemma_equal_keys<C: Comparator>(c: &C, a: Seq<u8>, b: Seq<u8>, x: Seq<u8>)
    ensures
        c.spec_compare(a, a) == Order::Equal,
        c.spec_compare(a, b) == Order::Equal ==> c.spec_compare(b, a) == Order::Equal,
        c.spec_compare(a, b) == Order::Equal && c.spec_compare(b, x) == Order::Equal
            ==> c.spec_compare(a, x) == Order::Equal,
{
    c.lemma_reflexive(a);
    c.lemma_antisymmetric(a, b);
    if c.spec_compare(a, b) == Order::Equal && c.spec_compare(b, x) == Order::Equal {
        lemma_equal_keys_compare_alike(c, a, b, x);
    }
}

/// What an iterator shows passes the test of a scan without floor and
/// without a key to skip.
pub proof fn lemma_yields_passes<C: Comparator>(c: &C, s: Seq<EntrySpec>, f: Filter, i: int)
    requires
        yields(c, s, f, i),
    ensures
        passes(c, s[i], f, SpecBound::Unbounded, None),
{
}

/// An entry that passes, and before which no entry of its key passes, is
/// shown, and is the first of its key to be shown.
pub proof fn lemma_first_passing_yields<C: Comparator>(
    c: &C,
    s: Seq<EntrySpec>,
    f: Filter,
    t: int,
)
    requires
        sorted(c, s),
        0 <= t < s.len(),
        passes(c, s[t], f, SpecBound::Unbounded, None),
        forall|m: int|
            0 <= m < t && c.spec_compare((#[trigger] s[m]).key, s[t].key) == Order::Equal
                ==> !passes(c, s[m], f, SpecBound::Unbounded, None),
    ensures
        run_head(c, s, f, t),
{
    c.lemma_reflexive(s[t].key);
    if !f.all_versions {
        assert forall|j: int|
            0 <= j < s.len() && visible(c, #[trigger] s[j], s[t].key, f.version) implies s[j].version
            <= s[t].version by {
            if j < t {
                lemma_bounds_alike(c, f.lower, f.upper, s[j].key, s[t].key);
                assert(passes(c, s[j], f, SpecBound::Unbounded, None));
            } else if j > t {
                lemma_sorted_keys(c, s, t, j);
                lemma_equal_keys(c, s[j].key, s[t].key, s[t].key);
            }
        }
    }
    assert forall|j: int| 0 <= j < t && #[trigger] yields(c, s, f, j) implies c.spec_compare(
        s[j].key,
        s[t].key,
    ) != Order::Equal by {
        lemma_yields_passes(c, s, f, j);
    }
}

/// Behind an entry that is shown, a later entry of the same key is not the
/// first of its key to be shown; and where only the newest version of each
/// key is shown, it is not shown at all.
pub proof fn lemma_later_in_run<C: Comparator>(c: &C, s: Seq<EntrySpec>, f: Filter, t: int, k: int)
    requires
        sorted(c, s),
        yields(c, s, f, t),
        t < k < s.len(),
        c.spec_compare(s[k].key, s[t].key) == Order::Equal,
    ensures
        !run_head(c, s, f, k),
        !f.all_versions ==> !yields(c, s, f, k),
{
    lemma_equal_keys(c, s[k].key, s[t].key, s[t].key);
    if !f.all_versions && yields(c, s, f, k) {
        lemma_sorted_keys(c, s, t, k);
        c.lemma_reflexive(s[t].key);
        assert(visible(c, s[t], s[k].key, f.version));
    }
}

/// A forward scan from a cursor finds the next entry that the iterator
/// shows. The cursor stands before the first entry (`a == -1`) or at an
/// entry that is shown; in the latter case, and unless all versions are
/// shown, the scan skips the cursor's key.
pub proof fn lemma_forward_from_cursor<C: Comparator>(
    c: &C,
    s: Seq<EntrySpec>,
    f: Filter,
    a: int,
    skip: Option<Seq<u8>>,
    t: int,
)
    requires
        sorted(c, s),
        -1 <= a < t <= s.len(),
        a >= 0 ==> yields(c, s, f, a),
        skip == (if a >= 0 && !f.all_versions {
            Some(s[a].key)
        } else {
            None::<Seq<u8>>
        }),
        forall|m: int| a < m < t ==> !passes(c, #[trigger] s[m], f, SpecBound::Unbounded, skip),
        t < s.len() ==> passes(c, s[t], f, SpecBound::Unbounded, skip),
    ensures
        forall|m: int| a < m < t ==> !#[trigger] yields(c, s, f, m),
        t < s.len() ==> yields(c, s, f, t),
{
    assert forall|m: int| a < m < t implies !#[trigger] yields(c, s, f, m) by {
        if yields(c, s, f, m) {
            lemma_yields_passes(c, s, f, m);
            assert(!passes(c, s[m], f, SpecBound::Unbounded, skip));
            // so the key of m is the cursor's key
            lemma_later_in_run(c, s, f, a, m);
        }
    }
    if t < s.len() && !f.all_versions {
        c.lemma_reflexive(s[t].key);
        assert forall|j: int|
            0 <= j < s.len() && visible(c, #[trigger] s[j], s[t].key, f.version) implies s[j].version
            <= s[t].version by {
            if j < t {
                lemma_bounds_alike(c, f.lower, f.upper, s[j].key, s[t].key);
                if j <= a {
                    // j <= a < t with the keys of j and t equal: then a has that key too
                    if j < a {
                        lemma_sorted_keys(c, s, j, a);
                    } else {
                        c.lemma_reflexive(s[a].key);
                    }
                    lemma_sorted_keys(c, s, a, t);
                    lemma_equal_keys_compare_alike(c, s[j].key, s[t].key, s[a].key);
                    c.lemma_antisymmetric(s[t].key, s[a].key);
                    assert(false);
                } else {
                    if a >= 0 {
                        lemma_equal_keys_compare_alike(c, s[j].key, s[t].key, s[a].key);
                    }
                    assert(passes(c, s[j], f, SpecBound::Unbounded, skip));
                    assert(false);
                }
            } else if j > t {
                lemma_sorted_keys(c, s, t, j);
                lemma_equal_keys(c, s[j].key, s[t].key, s[t].key);
            }
        }
    }
}

/// A forward scan from the rank of `(key, f.version)` with `floor` as an
/// additional lower bound finds the first entry that the iterator shows
/// and that is not below the floor. The floor is at `key`; with no floor,
/// the scan starts at the first entry.
pub proof fn lemma_forward_from_seek<C: Comparator>(
    c: &C,
    s: Seq<EntrySpec>,
    f: Filter,
    floor: SpecBound,
    start: int,
    t: int,
)
    requires
        sorted(c, s),
        0 <= start <= t <= s.len(),
        match floor {
            SpecBound::Included(key) => {
                &&& forall|i: int| 0 <= i < start ==> before(c, #[trigger] s[i], key, f.version)
            },
            SpecBound::Excluded(key) => {
                &&& forall|i: int| 0 <= i < start ==> before(c, #[trigger] s[i], key, f.version)
            },
            SpecBound::Unbounded => start == 0,
        },
        forall|m: int| start <= m < t ==> !passes(c, #[trigger] s[m], f, floor, None),
        t < s.len() ==> passes(c, s[t], f, floor, None),
    ensures
        forall|m: int|
            0 <= m < t ==> !(#[trigger] yields(c, s, f, m) && above_lower(c, floor, s[m].key)),
        t < s.len() ==> yields(c, s, f, t) && above_lower(c, floor, s[t].key),
{
    // before the start, an entry is below the floor or too new
    assert forall|m: int| 0 <= m < start implies !above_lower(c, floor, (#[trigger] s[m]).key)
        || s[m].version > f.version by {
        match floor {
            SpecBound::Included(key) => {
                assert(before(c, s[m], key, f.version));
                c.lemma_antisymmetric(s[m].key, key);
            },
            SpecBound::Excluded(key) => {
                assert(before(c, s[m], key, f.version));
                c.lemma_antisymmetric(s[m].key, key);
            },
            SpecBound::Unbounded => {},
        }
    }
    assert forall|m: int| 0 <= m < t implies !(#[trigger] yields(c, s, f, m) && above_lower(
        c,
        floor,
        s[m].key,
    )) by {
        if yields(c, s, f, m) && above_lower(c, floor, s[m].key) {
            if m >= start {
                assert(!passes(c, s[m], f, floor, None));
            } else {
                assert(!above_lower(c, floor, s[m].key) || s[m].version > f.version);
            }
        }
    }
    if t < s.len() && !f.all_versions {
        c.lemma_reflexive(s[t].key);
        assert forall|j: int|
            0 <= j < s.len() && visible(c, #[trigger] s[j], s[t].key, f.version) implies s[j].version
            <= s[t].version by {
            if j < t {
                lemma_bounds_alike(c, f.lower, f.upper, s[j].key, s[t].key);
                lemma_bounds_alike(c, floor, SpecBound::Unbounded, s[j].key, s[t].key);
                if j >= start {
                    assert(passes(c, s[j], f, floor, None));
                } else {
                    assert(!above_lower(c, floor, s[j].key) || s[j].version > f.version);
                }
                assert(false);
            } else if j > t {
                lemma_sorted_keys(c, s, t, j);
                lemma_equal_keys(c, s[j].key, s[t].key, s[t].key);
            }
        }
    }
}

/// A backward scan by keys from the last entry that is within `ceiling`
/// finds the last key within the ceiling of which the iterator shows an
/// entry, at the first such entry. `p` is the number of entries whose keys
/// are within the ceiling; `t` is what the scan found, or -1.
pub proof fn lemma_backward_keys<C: Comparator>(
    c: &C,
    s: Seq<EntrySpec>,
    f: Filter,
    ceiling: SpecBound,
    p: int,
    t: int,
)
    requires
        sorted(c, s),
        -1 <= t < p <= s.len(),
        forall|i: int| 0 <= i < p ==> below_upper(c, ceiling, (#[trigger] s[i]).key),
        forall|i: int| p <= i < s.len() ==> !below_upper(c, ceiling, (#[trigger] s[i]).key),
        t >= 0 ==> passes(c, s[t], f, SpecBound::Unbounded, None),
        t >= 0 ==> forall|m: int|
            0 <= m < t && c.spec_compare((#[trigger] s[m]).key, s[t].key) == Order::Equal
                ==> !passes(c, s[m], f, SpecBound::Unbounded, None),
        t >= 0 ==> forall|m: int|
            t < m < p && passes(c, #[trigger] s[m], f, SpecBound::Unbounded, None)
                ==> c.spec_compare(s[m].key, s[t].key) == Order::Equal,
        t == -1 ==> forall|m: int|
            0 <= m < p ==> !passes(c, #[trigger] s[m], f, SpecBound::Unbounded, None),
    ensures
        t >= 0 ==> run_head(c, s, f, t) && below_upper(c, ceiling, s[t].key),
        forall|k: int|
            t < k < s.len() ==> !(#[trigger] run_head(c, s, f, k) && below_upper(
                c,
                ceiling,
                s[k].key,
            )),
{
    if t >= 0 {
        lemma_first_passing_yields(c, s, f, t);
    }
    assert forall|k: int| t < k < s.len() implies !(#[trigger] run_head(c, s, f, k)
        && below_upper(c, ceiling, s[k].key)) by {
        if run_head(c, s, f, k) && below_upper(c, ceiling, s[k].key) {
            if k < p {
                lemma_yields_passes(c, s, f, k);
                if t >= 0 {
                    lemma_later_in_run(c, s, f, t, k);
                }
            }
        }
    }
}

} // verus!
