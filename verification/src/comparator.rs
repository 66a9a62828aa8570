//! Total orders on byte keys, and range bounds under such an order.

use vstd::prelude::*;

verus! {

/// The outcome of comparing two keys.
#[derive(Debug, Clone, Copy, PartialEq, Eq, Structural)]
pub enum Order {
    Less,
    Equal,
    Greater,
}

impl Order {
    /// The outcome with the two sides exchanged.
    pub open spec fn spec_reverse(self) -> Order {
        match self {
            Order::Less => Order::Greater,
            Order::Equal => Order::Equal,
            Order::Greater => Order::Less,
        }
    }

    /// The outcome with the two sides exchanged.
    pub fn reverse(self) -> (r: Order)
        ensures
            r == self.spec_reverse(),
    {
        match self {
            Order::Less => Order::Greater,
            Order::Equal => Order::Equal,
            Order::Greater => Order::Less,
        }
    }
}

/// One end of a key range.
#[derive(Debug, Clone, Copy, PartialEq, Eq)]
pub enum Bound<'a> {
    /// The range reaches the key and holds it.
    Included(&'a [u8]),
    /// The range reaches the key and leaves it out.
    Excluded(&'a [u8]),
    /// The range has no end on this side.
    Unbounded,
}

/// One end of a key range, as a mathematical value.
pub enum SpecBound {
    Included(Seq<u8>),
    Excluded(Seq<u8>),
    Unbounded,
}

impl<'a> View for Bound<'a> {
    type V = SpecBound;

    open spec fn view(&self) -> SpecBound {
        match *self {
            Bound::Included(k) => SpecBound::Included(k@),
            Bound::Excluded(k) => SpecBound::Excluded(k@),
            Bound::Unbounded => SpecBound::Unbounded,
        }
    }
}

/// A total order on byte keys.
///
/// `spec_compare` must be reflexive, antisymmetric and transitive; the three
/// lemmas are what an implementation has to prove of it.
pub trait Comparator: Sized {
    /// How `a` stands to `b`.
    spec fn spec_compare(&self, a: Seq<u8>, b: Seq<u8>) -> Order;

    /// Every key equals itself.
    proof fn lemma_reflexive(&self, a: Seq<u8>)
        ensures
            self.spec_compare(a, a) == Order::Equal,
    ;

    /// Exchanging the sides reverses the outcome.
    proof fn lemma_antisymmetric(&self, a: Seq<u8>, b: Seq<u8>)
        ensures
            self.spec_compare(b, a) == self.spec_compare(a, b).spec_reverse(),
    ;

    /// `a <= b` and `b <= c` give `a <= c`, strictly so if either step is
    /// strict.
    proof fn lemma_transitive(&self, a: Seq<u8>, b: Seq<u8>, c: Seq<u8>)
        requires
            self.spec_compare(a, b) != Order::Greater,
            self.spec_compare(b, c) != Order::Greater,
        ensures
            self.spec_compare(a, c) != Order::Greater,
            self.spec_compare(a, b) == Order::Less || self.spec_compare(b, c) == Order::Less
                ==> self.spec_compare(a, c) == Order::Less,
    ;

    /// Compares two keys.
    fn compare(&self, a: &[u8], b: &[u8]) -> (r: Order)
        ensures
            r == self.spec_compare(a@, b@),
    ;

    /// Whether `key` lies between the two bounds.
    fn contains(&self, lower: &Bound, upper: &Bound, key: &[u8]) -> (r: bool)
        ensures
            r == ({
                &&& match lower@ {
                    SpecBound::Included(k) => self.spec_compare(k, key@) != Order::Greater,
                    SpecBound::Excluded(k) => self.spec_compare(k, key@) == Order::Less,
                    SpecBound::Unbounded => true,
                }
                &&& match upper@ {
                    SpecBound::Included(k) => self.spec_compare(key@, k) != Order::Greater,
                    SpecBound::Excluded(k) => self.spec_compare(key@, k) == Order::Less,
                    SpecBound::Unbounded => true,
                }
            }),
    {
        let above: bool = match *lower {
            Bound::Included(k) => match self.compare(k, key) {
                Order::Greater => false,
                _ => true,
            },
            Bound::Excluded(k) => match self.compare(k, key) {
                Order::Less => true,
                _ => false,
            },
            Bound::Unbounded => true,
        };
        if !above {
            return false;
        }
        match *upper {
            Bound::Included(k) => match self.compare(key, k) {
                Order::Greater => false,
                _ => true,
            },
            Bound::Excluded(k) => match self.compare(key, k) {
                Order::Less => true,
                _ => false,
            },
            Bound::Unbounded => true,
        }
    }
}

/// Whether `key` is not below the lower bound.
pub open spec fn above_lower<C: Comparator>(c: &C, lower: SpecBound, key: Seq<u8>) -> bool {
    match lower {
        SpecBound::Included(k) => c.spec_compare(k, key) != Order::Greater,
        SpecBound::Excluded(k) => c.spec_compare(k, key) == Order::Less,
        SpecBound::Unbounded => true,
    }
}

/// Whether `key` is not above the upper bound.
pub open spec fn below_upper<C: Comparator>(c: &C, upper: SpecBound, key: Seq<u8>) -> bool {
    match upper {
        SpecBound::Included(k) => c.spec_compare(key, k) != Order::Greater,
        SpecBound::Excluded(k) => c.spec_compare(key, k) == Order::Less,
        SpecBound::Unbounded => true,
    }
}

/// Whether `key` lies between the two bounds.
pub open spec fn in_range<C: Comparator>(
    c: &C,
    lower: SpecBound,
    upper: SpecBound,
    key: Seq<u8>,
) -> bool {
    above_lower(c, lower, key) && below_upper(c, upper, key)
}

/// Byte-wise lexicographic comparison of `a` and `b` from position `i` on.
pub open spec fn lex_compare_from(a: Seq<u8>, b: Seq<u8>, i: int) -> Order
    decreases a.len() - i,
{
    if i < 0 {
        Order::Equal
    } else if i >= a.len() {
        if i >= b.len() {
            Order::Equal
        } else {
            Order::Less
        }
    } else if i >= b.len() {
        Order::Greater
    } else if a[i] < b[i] {
        Order::Less
    } else if a[i] > b[i] {
        Order::Greater
    } else {
        lex_compare_from(a, b, i + 1)
    }
}

/// Byte-wise lexicographic comparison: the first differing byte decides, and
/// a proper prefix is less than the longer key.
pub open spec fn lex_compare(a: Seq<u8>, b: Seq<u8>) -> Order {
    lex_compare_from(a, b, 0)
}

/// From any position on, a key compares equal to itself.
pub proof fn lemma_lex_reflexive_from(a: Seq<u8>, i: int)
    requires
        0 <= i,
    ensures
        lex_compare_from(a, a, i) == Order::Equal,
    decreases a.len() - i,
{
    if i < a.len() {
        lemma_lex_reflexive_from(a, i + 1);
    }
}

/// From any position on, exchanging the sides reverses the outcome.
pub proof fn lemma_lex_antisymmetric_from(a: Seq<u8>, b: Seq<u8>, i: int)
    requires
        0 <= i,
    ensures
        lex_compare_from(b, a, i) == lex_compare_from(a, b, i).spec_reverse(),
    decreases a.len() - i,
{
    if i < a.len() && i < b.len() && a[i] == b[i] {
        lemma_lex_antisymmetric_from(a, b, i + 1);
    }
}

/// From any position on, byte-wise comparison is transitive, strictly so
/// if either step is strict.
pub proof fn lemma_lex_transitive_from(a: Seq<u8>, b: Seq<u8>, c: Seq<u8>, i: int)
    requires
        0 <= i,
        lex_compare_from(a, b, i) != Order::Greater,
        lex_compare_from(b, c, i) != Order::Greater,
    ensures
        lex_compare_from(a, c, i) != Order::Greater,
        lex_compare_from(a, b, i) == Order::Less || lex_compare_from(b, c, i) == Order::Less
            ==> lex_compare_from(a, c, i) == Order::Less,
    decreases a.len() - i,
{
    if i < a.len() && i < b.len() && i < c.len() && a[i] == b[i] && b[i] == c[i] {
        lemma_lex_transitive_from(a, b, c, i + 1);
    }
}

/// Keys that compare equal from a position on have the same length and
/// the same bytes from there on.
pub proof fn lemma_lex_equal_from(a: Seq<u8>, b: Seq<u8>, i: int)
    requires
        0 <= i <= a.len(),
        i <= b.len(),
        lex_compare_from(a, b, i) == Order::Equal,
    ensures
        a.len() == b.len(),
        forall|j: int| i <= j < a.len() ==> a[j] == b[j],
    decreases a.len() - i,
{
    if i < a.len() {
        lemma_lex_equal_from(a, b, i + 1);
    }
}

/// Under byte-wise comparison two keys are equal exactly if they are the same
/// bytes.
pub proof fn lemma_lex_equal_iff_same(a: Seq<u8>, b: Seq<u8>)
    ensures
        lex_compare(a, b) == Order::Equal <==> a == b,
{
    if lex_compare(a, b) == Order::Equal {
        lemma_lex_equal_from(a, b, 0);
        assert(a =~= b);
    }
    if a == b {
        lemma_lex_reflexive_from(a, 0);
    }
}

/// Compares two slices byte by byte.
pub fn compare_bytes(a: &[u8], b: &[u8]) -> (r: Order)
    ensures
        r == lex_compare(a@, b@),
{
    let n: usize = a.len();
    let m: usize = b.len();
    let mut i: usize = 0;
    while i < n && i < m
        invariant
            n == a@.len(),
            m == b@.len(),
            i <= n,
            i <= m,
            lex_compare_from(a@, b@, i as int) == lex_compare(a@, b@),
        decreases n - i,
    {
        if a[i] < b[i] {
            return Order::Less;
        }
        if a[i] > b[i] {
            return Order::Greater;
        }
        i = i + 1;
    }
    if i < m {
        Order::Less
    } else if i < n {
        Order::Greater
    } else {
        Order::Equal
    }
}

/// Ascending byte-wise lexicographic order.
#[derive(Debug, Clone, Copy, PartialEq, Eq, Structural, Default)]
pub struct Ascend;

/// Descending byte-wise lexicographic order.
#[derive(Debug, Clone, Copy, PartialEq, Eq, Structural, Default)]
pub struct Descend;

impl Comparator for Ascend {
    open spec fn spec_compare(&self, a: Seq<u8>, b: Seq<u8>) -> Order {
        lex_compare(a, b)
    }

    proof fn lemma_reflexive(&self, a: Seq<u8>) {
        lemma_lex_reflexive_from(a, 0);
    }

    proof fn lemma_antisymmetric(&self, a: Seq<u8>, b: Seq<u8>) {
        lemma_lex_antisymmetric_from(a, b, 0);
    }

    proof fn lemma_transitive(&self, a: Seq<u8>, b: Seq<u8>, c: Seq<u8>) {
        lemma_lex_transitive_from(a, b, c, 0);
    }

    fn compare(&self, a: &[u8], b: &[u8]) -> (r: Order) {
        compare_bytes(a, b)
    }
}

impl Comparator for Descend {
    open spec fn spec_compare(&self, a: Seq<u8>, b: Seq<u8>) -> Order {
        lex_compare(b, a)
    }

    proof fn lemma_reflexive(&self, a: Seq<u8>) {
        lemma_lex_reflexive_from(a, 0);
    }

    proof fn lemma_antisymmetric(&self, a: Seq<u8>, b: Seq<u8>) {
        lemma_lex_antisymmetric_from(b, a, 0);
    }

    proof fn lemma_transitive(&self, a: Seq<u8>, b: Seq<u8>, c: Seq<u8>) {
        lemma_lex_transitive_from(c, b, a, 0);
    }

    fn compare(&self, a: &[u8], b: &[u8]) -> (r: Order) {
        compare_bytes(b, a)
    }
}

} // verus!
