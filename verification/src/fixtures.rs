//! Keys and values made from numbers, as decimal digits padded with zeros.

use vstd::prelude::*;

verus! {

/// The decimal digits of `n` in ASCII, most significant first.
pub open spec fn spec_digits(n: nat) -> Seq<u8>
    decreases n,
{
    if n < 10 {
        seq![(48 + n) as u8]
    } else {
        spec_digits(n / 10).push((48 + n % 10) as u8)
    }
}

/// The decimal digits of `n`, with zeros in front to make at least `width`
/// bytes.
pub open spec fn spec_zero_padded(n: nat, width: nat) -> Seq<u8> {
    let d = spec_digits(n);
    if d.len() >= width {
        d
    } else {
        Seq::new((width - d.len()) as nat, |i: int| 48u8) + d
    }
}

/// A number below `10^k` has at most `k` digits.
proof fn lemma_digits_bound(n: nat, k: nat)
    requires
        k >= 1,
        n < pow10(k),
    ensures
        1 <= spec_digits(n).len() <= k,
    decreases n,
{
    if n >= 10 {
        assert(k >= 2) by {
            if k == 1 {
                assert(pow10(1) == 10) by {
                    reveal_with_fuel(pow10, 2);
                }
            }
        }
        assert(pow10(k) == 10 * pow10((k - 1) as nat));
        lemma_digits_bound(n / 10, (k - 1) as nat);
    }
}

/// Ten to the power of `k`.
pub open spec fn pow10(k: nat) -> nat
    decreases k,
{
    if k == 0 {
        1
    } else {
        10 * pow10((k - 1) as nat)
    }
}

/// The number of decimal digits of `n`.
fn count_digits(n: usize) -> (c: usize)
    ensures
        c == spec_digits(n as nat).len(),
        1 <= c <= 20,
{
    proof {
        assert(pow10(20) > u64::MAX) by {
            reveal_with_fuel(pow10, 21);
        }
        lemma_digits_bound(n as nat, 20);
    }
    let mut c: usize = 1;
    let mut t: usize = n;
    while t >= 10
        invariant
            1 <= c,
            c + spec_digits(t as nat).len() == spec_digits(n as nat).len() + 1,
            spec_digits(n as nat).len() <= 20,
        decreases t,
    {
        t = t / 10;
        c = c + 1;
    }
    c
}

/// The decimal digits of `n`, with zeros in front to make at least `width`
/// bytes.
pub fn zero_padded(n: usize, width: usize) -> (out: Vec<u8>)
    requires
        width <= usize::MAX - 20,
    ensures
        out@ == spec_zero_padded(n as nat, width as nat),
{
    let c: usize = count_digits(n);
    let total: usize = if c >= width {
        c
    } else {
        width
    };
    let pad: usize = total - c;
    let mut out: Vec<u8> = vec![48u8; total];
    let ghost d = spec_digits(n as nat);
    let mut i: usize = total;
    let mut m: usize = n;
    let mut done: bool = false;
    while !done
        invariant
            total == pad + c,
            c == d.len(),
            d == spec_digits(n as nat),
            out@.len() == total,
            pad <= i <= total,
            forall|k: int| 0 <= k < i ==> out@[k] == 48u8,
            done ==> i == pad && out@.subrange(i as int, total as int) == d,
            !done ==> i - pad == spec_digits(m as nat).len() && d == spec_digits(m as nat)
                + out@.subrange(i as int, total as int),
        decreases i, if done { 0int } else { 1int },
    {
        let ghost before = out@;
        let ghost tail = before.subrange(i as int, total as int);
        let digit: u8 = 48 + (m % 10) as u8;
        i = i - 1;
        out.set(i, digit);
        proof {
            assert(out@.subrange(i as int, total as int) =~= seq![digit] + tail);
            if m < 10 {
                assert(spec_digits(m as nat) =~= seq![digit]);
            } else {
                assert(spec_digits(m as nat) =~= spec_digits((m / 10) as nat).push(digit));
                assert(d =~= spec_digits((m / 10) as nat) + (seq![digit] + tail));
            }
        }
        if m < 10 {
            done = true;
        } else {
            m = m / 10;
        }
    }
    proof {
        assert(out@ =~= spec_zero_padded(n as nat, width as nat));
    }
    out
}

/// The key for the number `i`: its decimal digits, padded with zeros to
/// five bytes.
pub fn key(i: usize) -> (k: Vec<u8>)
    ensures
        k@ == spec_zero_padded(i as nat, 5),
{
    zero_padded(i, 5)
}

/// The value for the number `i`: its decimal digits, padded with zeros to
/// five bytes.
pub fn new_value(i: usize) -> (v: Vec<u8>)
    ensures
        v@ == spec_zero_padded(i as nat, 5),
{
    zero_padded(i, 5)
}

/// A value of one mebibyte for the number `i`: its decimal digits, padded
/// with zeros to 1048576 bytes.
pub fn big_value(i: usize) -> (v: Vec<u8>)
    ensures
        v@ == spec_zero_padded(i as nat, 1048576),
{
    zero_padded(i, 1048576)
}

} // verus!
