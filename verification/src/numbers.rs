//! Sums of lists of numbers.

use vstd::prelude::*;

verus! {

/// The sum of the first `n` numbers of `s`.
pub open spec fn sum_to(s: Seq<usize>, n: int) -> nat
    decreases n,
{
    if n <= 0 {
        0
    } else {
        sum_to(s, n - 1) + s[n - 1] as nat
    }
}

/// The sum of the numbers of `s`.
pub open spec fn sum(s: Seq<usize>) -> nat {
    sum_to(s, s.len() as int)
}

/// The sum of `n` numbers is at most `n` times the greatest `usize`.
pub proof fn lemma_sum_bound(s: Seq<usize>, n: int)
    requires
        0 <= n <= s.len(),
    ensures
        sum_to(s, n) <= n * usize::MAX,
    decreases n,
{
    if n > 0 {
        lemma_sum_bound(s, n - 1);
        assert((n - 1) * usize::MAX + usize::MAX == n * usize::MAX) by (nonlinear_arith);
    }
}

/// The sum of the numbers of `v`, if it fits.
pub fn sum_of(v: &Vec<usize>) -> (r: Option<usize>)
    ensures
        match r {
            Some(t) => t == sum(v@),
            None => sum(v@) > usize::MAX,
        },
{
    let mut acc: u128 = 0;
    let mut i: usize = 0;
    while i < v.len()
        invariant
            i <= v.len(),
            acc == sum_to(v@, i as int),
        decreases v.len() - i,
    {
        proof {
            lemma_sum_bound(v@, i as int);
            assert(i * usize::MAX <= 0xffff_ffff_ffff_ffff * 0xffff_ffff_ffff_ffff)
                by (nonlinear_arith)
                requires
                    0 <= i <= 0xffff_ffff_ffff_ffff,
                    usize::MAX <= 0xffff_ffff_ffff_ffff,
            ;
        }
        acc = acc + v[i] as u128;
        i += 1;
    }
    if acc <= usize::MAX as u128 {
        Some(acc as usize)
    } else {
        None
    }
}

} // verus!
