//! The buffer that a builder fills with the bytes of a key or a value.

use vstd::prelude::*;
use crate::fixtures::{spec_digits, zero_padded};

verus! {

/// A write did not fit into what is left of a buffer.
#[derive(Debug, Clone, Copy, PartialEq, Eq, Structural)]
pub struct BufferFull {
    /// The number of bytes that were still free.
    pub remaining: usize,
    /// The number of bytes that the write wanted.
    pub want: usize,
}

/// `String::push_str` of std: the string slice is appended to the end of
/// the string.
pub assume_specification[ String::push_str ](s: &mut String, string: &str)
    ensures
        final(s)@ == old(s)@ + string@,
;

/// `String::push` of std: the character is appended to the end of the
/// string.
pub assume_specification[ String::push ](s: &mut String, ch: char)
    ensures
        final(s)@ == old(s)@.push(ch),
;

/// Bytes read as characters, one for one.
pub open spec fn spec_ascii(bytes: Seq<u8>) -> Seq<char> {
    bytes.map_values(|b: u8| b as char)
}

/// Appends the decimal digits of `n` to `s`.
fn push_decimal(s: &mut String, n: usize)
    ensures
        final(s)@ == old(s)@ + spec_ascii(spec_digits(n as nat)),
{
    let digits: Vec<u8> = zero_padded(n, 0);
    let ghost before = s@;
    let mut i: usize = 0;
    while i < digits.len()
        invariant
            i <= digits@.len(),
            digits@ == spec_digits(n as nat),
            s@ == before + spec_ascii(digits@.subrange(0, i as int)),
        decreases digits@.len() - i,
    {
        let ghost sofar = s@;
        s.push(digits[i] as char);
        proof {
            assert(digits@.subrange(0, i + 1) =~= digits@.subrange(0, i as int).push(
                digits@[i as int],
            ));
            assert(spec_ascii(digits@.subrange(0, i + 1)) =~= spec_ascii(
                digits@.subrange(0, i as int),
            ).push(digits@[i as int] as char));
            assert(s@ =~= before + spec_ascii(digits@.subrange(0, i + 1)));
        }
        i = i + 1;
    }
    proof {
        assert(digits@.subrange(0, digits@.len() as int) =~= digits@);
    }
}

impl BufferFull {
    /// The error in words: how many bytes were left and how many were
    /// wanted, both in decimal.
    pub open spec fn spec_text(&self) -> Seq<char> {
        "buffer does not have enough space (remaining "@ + spec_ascii(
            spec_digits(self.remaining as nat),
        ) + ", want "@ + spec_ascii(spec_digits(self.want as nat)) + ")"@
    }

    /// The error in words.
    pub fn to_string(&self) -> (s: String)
        ensures
            s@ == self.spec_text(),
    {
        let mut s: String = "buffer does not have enough space (remaining ".to_owned();
        push_decimal(&mut s, self.remaining);
        s.push_str(", want ");
        push_decimal(&mut s, self.want);
        s.push_str(")");
        s
    }
}

/// A buffer of fixed capacity that starts empty and is filled from the
/// front.
pub struct VacantBuffer {
    data: Vec<u8>,
    cap: usize,
}

impl View for VacantBuffer {
    type V = Seq<u8>;

    /// The bytes written so far.
    closed spec fn view(&self) -> Seq<u8> {
        self.data@
    }
}

impl VacantBuffer {
    /// The number of bytes that the buffer can hold.
    pub closed spec fn spec_capacity(&self) -> nat {
        self.cap as nat
    }

    /// The buffer holds no more than its capacity.
    pub closed spec fn wf(&self) -> bool {
        self.data@.len() <= self.cap
    }

    /// What the invariant says over the public names.
    pub proof fn lemma_wf(&self)
        requires
            self.wf(),
        ensures
            self@.len() <= self.spec_capacity() <= usize::MAX,
    {
    }

    /// An empty buffer of the given capacity.
    pub fn new(capacity: usize) -> (b: VacantBuffer)
        ensures
            b.wf(),
            b@ == Seq::<u8>::empty(),
            b.spec_capacity() == capacity,
    {
        VacantBuffer { data: Vec::new(), cap: capacity }
    }

    /// The number of bytes that the buffer can hold.
    pub fn capacity(&self) -> (n: usize)
        ensures
            n == self.spec_capacity(),
    {
        self.cap
    }

    /// The number of bytes written so far.
    pub fn len(&self) -> (n: usize)
        ensures
            n == self@.len(),
    {
        self.data.len()
    }

    /// Whether nothing was written yet.
    pub fn is_empty(&self) -> (b: bool)
        ensures
            b == (self@.len() == 0),
    {
        self.data.len() == 0
    }

    /// The number of bytes that can still be written.
    pub fn remaining(&self) -> (n: usize)
        requires
            self.wf(),
        ensures
            n == self.spec_capacity() - self@.len(),
    {
        self.cap - self.data.len()
    }

    /// The bytes written so far.
    pub fn as_slice(&self) -> (s: &[u8])
        ensures
            s@ == self@,
    {
        self.data.as_slice()
    }

    /// Appends `bytes` if they fit; if not, nothing is written and the
    /// error says how much room was left and how much was wanted.
    pub fn write(&mut self, bytes: &[u8]) -> (r: Result<(), BufferFull>)
        requires
            old(self).wf(),
        ensures
            final(self).wf(),
            final(self).spec_capacity() == old(self).spec_capacity(),
            r is Ok <==> old(self)@.len() + bytes@.len() <= old(self).spec_capacity(),
            r is Ok ==> final(self)@ == old(self)@ + bytes@,
            r matches Err(e) ==> final(self)@ == old(self)@ && e == (BufferFull {
                remaining: (old(self).spec_capacity() - old(self)@.len()) as usize,
                want: bytes@.len() as usize,
            }),
    {
        let remaining: usize = self.cap - self.data.len();
        let want: usize = bytes.len();
        if want > remaining {
            return Err(BufferFull { remaining, want });
        }
        let ghost before = self.data@;
        let mut i: usize = 0;
        while i < want
            invariant
                i <= want,
                want == bytes@.len(),
                before.len() + want <= self.cap,
                self.cap == old(self).cap,
                self.data@ == before + bytes@.subrange(0, i as int),
            decreases want - i,
        {
            self.data.push(bytes[i]);
            proof {
                assert(self.data@ =~= before + bytes@.subrange(0, i + 1));
            }
            i = i + 1;
        }
        proof {
            assert(bytes@.subrange(0, want as int) =~= bytes@);
        }
        Ok(())
    }

    /// Replaces the bytes from position `at` on by `bytes`, all of which
    /// must lie within what was written so far.
    pub fn overwrite(&mut self, at: usize, bytes: &[u8])
        requires
            old(self).wf(),
            at + bytes@.len() <= old(self)@.len(),
        ensures
            final(self).wf(),
            final(self).spec_capacity() == old(self).spec_capacity(),
            final(self)@.len() == old(self)@.len(),
            forall|i: int|
                0 <= i < old(self)@.len() ==> (#[trigger] final(self)@[i]) == if at <= i < at
                    + bytes@.len() {
                    bytes@[i - at]
                } else {
                    old(self)@[i]
                },
    {
        let n: usize = bytes.len();
        let mut k: usize = 0;
        while k < n
            invariant
                k <= n,
                n == bytes@.len(),
                at + n <= self.data@.len(),
                self.data@.len() == old(self).data@.len(),
                self.data@.len() <= self.cap,
                self.cap == old(self).cap,
                forall|i: int|
                    0 <= i < self.data@.len() ==> (#[trigger] self.data@[i]) == if at <= i < at
                        + k {
                        bytes@[i - at]
                    } else {
                        old(self).data@[i]
                    },
            decreases n - k,
        {
            self.data.set(at + k, bytes[k]);
            k = k + 1;
        }
    }

    /// Replaces the byte at position `i` of what was written so far.
    pub fn set(&mut self, i: usize, b: u8)
        requires
            old(self).wf(),
            i < old(self)@.len(),
        ensures
            final(self).wf(),
            final(self).spec_capacity() == old(self).spec_capacity(),
            final(self)@ == old(self)@.update(i as int, b),
    {
        self.data.set(i, b);
    }

    /// The byte at position `i` of what was written so far.
    pub fn get(&self, i: usize) -> (b: u8)
        requires
            i < self@.len(),
        ensures
            b == self@[i as int],
    {
        self.data[i]
    }

    /// The bytes written, given up by the buffer.
    pub fn into_vec(self) -> (v: Vec<u8>)
        ensures
            v@ == self@,
    {
        self.data
    }
}

} // verus!
