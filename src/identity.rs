use vstd::arithmetic::power2::{pow2, lemma_pow2_unfold};
use vstd::prelude::*;
use crate::eq::lemma_pow2_zero;
use crate::scalar::{Scalar, vals, p, fadd, fmul};

verus! {

/// The sum of `2^(n-1-i) * r[i]` over `i` in `k .. n`, where `n == r.len()`.
pub open spec fn index_sum(r: Seq<int>, k: int) -> int
    decreases r.len() - k,
{
    if k >= r.len() || k < 0 {
        0
    } else {
        fadd(fmul(pow2((r.len() - 1 - k) as nat) as int % p(), r[k]), index_sum(r, k + 1))
    }
}

/// The multilinear extension of the function that maps a bit string to the
/// integer it spells, most significant bit first.
pub struct IdentityPolynomial {
    size_point: usize,
}

impl IdentityPolynomial {
    pub closed spec fn size(&self) -> nat {
        self.size_point as nat
    }

    pub fn new(size_point: usize) -> (id: IdentityPolynomial)
        ensures
            id.size() == size_point,
    {
        IdentityPolynomial { size_point }
    }

    /// `sum_i 2^(n-1-i) * r[i]`.
    pub fn evaluate(&self, r: &Vec<Scalar>) -> (v: Scalar)
        requires
            r.len() == self.size(),
        ensures
            v@ == index_sum(vals(r@), 0),
    {
        let n = r.len();
        let ghost rv = vals(r@);
        let mut k: usize = n;
        let mut pw = Scalar::one();
        let mut acc = Scalar::zero();
        proof {
            lemma_pow2_zero();
            vstd::arithmetic::div_mod::lemma_small_mod(1, p() as nat);
        }
        while k > 0
            invariant
                n == r.len(),
                rv == vals(r@),
                k <= n,
                k > 0 ==> pw@ == pow2((n - k) as nat) as int % p(),
                acc@ == index_sum(rv, k as int),
            decreases k,
        {
            k = k - 1;
            let term = pw.mul(&r[k]);
            proof {
                assert(r[k as int]@ == rv[k as int]);
            }
            acc = term.add(&acc);
            if k > 0 {
                proof {
                    let e = pow2((n - k - 1) as nat) as int;
                    lemma_pow2_unfold((n - k) as nat);
                    vstd::arithmetic::div_mod::lemma_add_mod_noop(e, e, p());
                }
                pw = pw.add(&pw);
            }
        }
        acc
    }
}

} // verus!
