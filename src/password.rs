//! Password rules: six digits that never decrease, with a repeated digit.
use vstd::prelude::*;

verus! {

/// The six decimal digits of `pw`, most significant first (the first one
/// takes whatever lies above the sixth place).
#[verifier::opaque]
pub open spec fn digits_of(pw: int) -> Seq<int> {
    seq![pw / 100_000, pw % 100_000 / 10_000, pw % 10_000 / 1_000, pw % 1_000 / 100, pw % 100 / 10, pw % 10]
}

pub open spec fn in_range(pw: int) -> bool {
    100_000 <= pw <= 1_000_000
}

pub open spec fn never_decreases(d: Seq<int>) -> bool {
    forall|i: int| 0 <= i < d.len() - 1 ==> #[trigger] d[i] <= d[i + 1]
}

/// Some two adjacent digits are equal.
pub open spec fn has_pair(d: Seq<int>) -> bool {
    exists|i: int| 0 <= i < d.len() - 1 && #[trigger] d[i] == d[i + 1]
}

/// Some two adjacent digits are equal and not part of a longer run.
pub open spec fn has_exact_pair(d: Seq<int>) -> bool {
    exists|i: int|
        0 <= i < d.len() - 1 && #[trigger] d[i] == d[i + 1] && (i == 0 || d[i - 1] != d[i]) && (i + 2
            == d.len() || d[i + 2] != d[i])
}

/// The six digits of a number of at most seven digits.
fn digits_iter(num: usize) -> (r: Vec<u8>)
    requires
        num <= 1_000_000,
    ensures
        r@.len() == 6,
        forall|i: int| 0 <= i < 6 ==> r@[i] as int == #[trigger] digits_of(num as int)[i],
{
    let ghost orig = num as int;
    let mut num = num;
    let bases: [usize; 6] = [100_000, 10_000, 1_000, 100, 10, 1];
    let mut out: Vec<u8> = Vec::new();
    let mut k: usize = 0;
    while k < 6
        invariant
            k <= 6,
            bases@ == seq![100_000usize, 10_000, 1_000, 100, 10, 1],
            out@.len() == k,
            forall|i: int| 0 <= i < k ==> out@[i] as int == #[trigger] digits_of(orig)[i],
            0 <= orig <= 1_000_000,
            k == 0 ==> num == orig,
            k > 0 ==> num == orig % (bases@[k - 1] as int),
        decreases 6 - k,
    {
        let base = bases[k];
        proof {
            reveal(digits_of);
            if k > 0 {
                let prev = bases@[k - 1] as int;
                assert(prev == base * 10);
                assert(num < prev) by {
                    vstd::arithmetic::div_mod::lemma_mod_pos_bound(orig, prev);
                }
                assert(num / base < 10) by (nonlinear_arith)
                    requires
                        num < base * 10,
                        base > 0,
                ;
                vstd::arithmetic::div_mod::lemma_mod_mod(orig, base as int, 10);
            } else {
                assert(num / base <= 10) by (nonlinear_arith)
                    requires
                        num <= 1_000_000,
                        base == 100_000,
                ;
            }
        }
        assert(digits_of(orig)[k as int] == num / base) by {
            reveal(digits_of);
            if k == 0 {
            } else if k == 1 {
            } else if k == 2 {
            } else if k == 3 {
            } else if k == 4 {
            } else {
            }
        }
        let digit = (num / base) as u8;
        num = num % base;
        out.push(digit);
        k += 1;
    }
    out
}

pub fn is_valid_pw(pw: usize) -> (r: bool)
    ensures
        r == (in_range(pw as int) && never_decreases(digits_of(pw as int)) && has_pair(digits_of(pw as int))),
{
    if pw < 100_000 || pw > 1_000_000 {
        return false;
    }
    let d = digits_iter(pw);
    let ghost ds = digits_of(pw as int);
    assert(ds.len() == 6) by {
        reveal(digits_of);
    }
    let mut same = false;
    let mut i: usize = 0;
    while i < 5
        invariant
            i <= 5,
            d@.len() == 6,
            forall|j: int| 0 <= j < 6 ==> d@[j] as int == #[trigger] ds[j],
            ds == digits_of(pw as int),
            ds.len() == 6,
            forall|j: int| 0 <= j < i ==> #[trigger] ds[j] <= ds[j + 1],
            same == exists|j: int| 0 <= j < i && #[trigger] ds[j] == ds[j + 1],
        decreases 5 - i,
    {
        if d[i] > d[i + 1] {
            assert(!(ds[i as int] <= ds[i + 1]));
            return false;
        }
        if d[i] == d[i + 1] {
            assert(ds[i as int] == ds[i + 1]);
            same = true;
        }
        i += 1;
    }
    same
}

pub fn is_valid_pw2(pw: usize) -> (r: bool)
    ensures
        r == (in_range(pw as int) && never_decreases(digits_of(pw as int)) && has_exact_pair(
            digits_of(pw as int),
        )),
{
    if pw < 100_000 || pw > 1_000_000 {
        return false;
    }
    let d = digits_iter(pw);
    let ghost ds = digits_of(pw as int);
    assert(ds.len() == 6) by {
        reveal(digits_of);
    }
    let mut same = false;
    let mut i: usize = 0;
    while i < 5
        invariant
            i <= 5,
            d@.len() == 6,
            forall|j: int| 0 <= j < 6 ==> d@[j] as int == #[trigger] ds[j],
            ds == digits_of(pw as int),
            ds.len() == 6,
            forall|j: int| 0 <= j < i ==> #[trigger] ds[j] <= ds[j + 1],
            same == exists|j: int|
                0 <= j < i && #[trigger] ds[j] == ds[j + 1] && (j == 0 || ds[j - 1] != ds[j]) && (j
                    + 2 == 6 || ds[j + 2] != ds[j]),
        decreases 5 - i,
    {
        if d[i] > d[i + 1] {
            assert(!(ds[i as int] <= ds[i + 1]));
            return false;
        }
        if d[i] == d[i + 1] && (i == 0 || d[i - 1] != d[i]) && (i + 2 == 6 || d[i + 2] != d[i]) {
            same = true;
        }
        i += 1;
    }
    same
}

} // verus!
