use vstd::arithmetic::power2::{pow2, lemma_pow2_unfold};
use vstd::prelude::*;
use crate::dense::DensePolynomial;
use crate::eq::{EqPolynomial, eq_table, split_point, lemma_pow2_zero, lemma_pow2_monotone};
use crate::scalar::{Scalar, vals};

verus! {

/// `2^e` as a machine integer.
pub fn pow2_usize(e: usize) -> (r: usize)
    requires
        pow2(e as nat) <= usize::MAX,
    ensures
        r as nat == pow2(e as nat),
{
    let mut r: usize = 1;
    let mut i: usize = 0;
    proof {
        lemma_pow2_zero();
    }
    while i < e
        invariant
            i <= e,
            r as nat == pow2(i as nat),
            pow2(e as nat) <= usize::MAX,
        decreases e - i,
    {
        proof {
            lemma_pow2_unfold(i as nat + 1);
            lemma_pow2_monotone(i as nat + 1, e as nat);
        }
        r = r * 2;
        i = i + 1;
    }
    r
}

/// `2^e`, if it fits a machine word.
pub fn checked_pow2(e: usize) -> (r: Option<usize>)
    ensures
        r is Some <==> pow2(e as nat) <= usize::MAX,
        r is Some ==> r->0 as nat == pow2(e as nat),
{
    let mut r: usize = 1;
    let mut i: usize = 0;
    proof {
        lemma_pow2_zero();
    }
    while i < e
        invariant
            i <= e,
            r as nat == pow2(i as nat),
        decreases e - i,
    {
        proof {
            lemma_pow2_unfold(i as nat + 1);
        }
        if r > usize::MAX / 2 {
            proof {
                lemma_pow2_monotone(i as nat + 1, e as nat);
            }
            return None;
        }
        r = r * 2;
        i = i + 1;
    }
    Some(r)
}

/// The exponent `l` with `2^l == n`, if `n` is a power of two no larger than `2^max`.
pub fn exact_log2(n: usize, max: usize) -> (l: Option<usize>)
    requires
        pow2(max as nat) <= usize::MAX,
    ensures
        l is Some <==> exists|k: nat| k <= max && pow2(k) == n,
        l is Some ==> l->0 <= max && pow2(l->0 as nat) == n,
{
    let mut size: usize = 1;
    let mut k: usize = 0;
    proof {
        lemma_pow2_zero();
    }
    while k < max && size < n
        invariant
            k <= max,
            size as nat == pow2(k as nat),
            pow2(max as nat) <= usize::MAX,
            forall|j: nat| j < k ==> #[trigger] pow2(j) < n,
        decreases max - k,
    {
        proof {
            lemma_pow2_unfold(k as nat + 1);
            lemma_pow2_monotone(k as nat + 1, max as nat);
        }
        size = size * 2;
        k = k + 1;
    }
    if size == n {
        Some(k)
    } else {
        proof {
            assert forall|j: nat| j <= max implies #[trigger] pow2(j) != n by {
                if j > k {
                    lemma_pow2_monotone(k as nat, j);
                    if k < max {
                        vstd::arithmetic::power2::lemma_pow2_strictly_increases(k as nat, j);
                    }
                }
            }
        }
        None
    }
}

/// Commitment parameters, derived from the number of variables alone.
pub struct PolyCommitmentGens {
    /// The width of a row of the committed grid.
    pub gens: usize,
}

impl PolyCommitmentGens {
    /// `gens` is `2^right`, where the right half holds `num_vars - num_vars / 2` variables.
    pub fn new(num_vars: usize, _label: &[u8]) -> (g: PolyCommitmentGens)
        requires
            pow2((num_vars - num_vars / 2) as nat) <= usize::MAX,
        ensures
            g.gens == pow2((num_vars - num_vars / 2) as nat),
    {
        let (_left, right) = EqPolynomial::compute_factored_lens(num_vars);
        PolyCommitmentGens { gens: pow2_usize(right) }
    }
}

/// Blinding factors for a hiding variant of the commitment; inert here.
pub struct PolyCommitmentBlinds {
    pub blinds: Vec<Scalar>,
}

/// The single way in which an evaluation proof is rejected.
#[derive(Clone, Copy, Debug, PartialEq, Eq, Structural)]
pub enum ProofVerifyError {
    InternalError,
}

/// How a point splits over the rows and columns of the committed grid:
/// `outer` weighs the rows, `inner` the columns.
pub struct TensorLayout {
    pub left_num_vars: usize,
    pub right_num_vars: usize,
    pub outer: Vec<Scalar>,
    pub inner: Vec<Scalar>,
}

/// The layout of `r` split after its first `left` coordinates.
pub open spec fn is_layout_of(t: TensorLayout, r: Seq<int>, left: int) -> bool {
    &&& t.left_num_vars == left
    &&& t.right_num_vars == r.len() - left
    &&& vals(t.outer@) == eq_table(r.subrange(0, left))
    &&& vals(t.inner@) == eq_table(r.subrange(left, r.len() as int))
}

/// The row and column weights of `r` split after its first `left` coordinates.
pub fn tensor_layout(r: &Vec<Scalar>, left: usize) -> (t: TensorLayout)
    requires
        left <= r.len(),
        pow2(r.len() as nat) <= usize::MAX,
    ensures
        is_layout_of(t, vals(r@), left as int),
{
    let (lp, rp) = split_point(r, left);
    proof {
        lemma_pow2_monotone(left as nat, r.len() as nat);
        lemma_pow2_monotone((r.len() - left) as nat, r.len() as nat);
    }
    let outer = EqPolynomial::new(lp).evals();
    let inner = EqPolynomial::new(rp).evals();
    TensorLayout { left_num_vars: left, right_num_vars: r.len() - left, outer, inner }
}

/// The prover's layout for evaluating `poly` at `r` against a commitment of
/// `n_rows` rows of `n_per_row` entries each: present exactly when `r` has one
/// coordinate per variable, `n_rows` is `2^left` for some `left <= r.len()`, and
/// `n_per_row` is `2^(r.len() - left)`.
pub fn prove_layout(poly: &DensePolynomial, r: &Vec<Scalar>, n_rows: usize, n_per_row: usize) -> (t:
    Option<TensorLayout>)
    requires
        poly.wf(),
    ensures
        t is Some <==> (r.len() == poly.vars() && exists|l: nat|
            l <= r.len() && #[trigger] pow2(l) == n_rows && pow2((r.len() - l) as nat) == n_per_row),
        t is Some ==> pow2(t->0.left_num_vars as nat) == n_rows && is_layout_of(
            t->0,
            vals(r@),
            t->0.left_num_vars as int,
        ),
{
    if r.len() != poly.get_num_vars() {
        return None;
    }
    proof {
        poly.lemma_len();
    }
    match exact_log2(n_rows, r.len()) {
        None => None,
        Some(left) => {
            proof {
                lemma_pow2_monotone((r.len() - left) as nat, r.len() as nat);
            }
            if pow2_usize(r.len() - left) != n_per_row {
                proof {
                    assert forall|l: nat| l <= r.len() && #[trigger] pow2(l) == n_rows implies pow2(
                        (r.len() - l) as nat,
                    ) != n_per_row by {
                        if l < left {
                            vstd::arithmetic::power2::lemma_pow2_strictly_increases(l, left as nat);
                        } else if l > left {
                            vstd::arithmetic::power2::lemma_pow2_strictly_increases(left as nat, l);
                        }
                    }
                }
                None
            } else {
                Some(tensor_layout(r, left))
            }
        },
    }
}

/// The verifier's layout for a proof that splits `r` into `left` and `right`
/// coordinates over rows of `n_per_row` entries: rejected unless
/// `left + right == r.len()`, `2^r.len()` fits a machine word and `n_per_row == 2^right`.
pub fn verify_layout(left: usize, right: usize, r: &Vec<Scalar>, n_per_row: usize) -> (t: Result<
    TensorLayout,
    ProofVerifyError,
>)
    ensures
        t is Ok <==> (left + right == r.len() && pow2(r.len() as nat) <= usize::MAX && pow2(right as nat)
            == n_per_row),
        t is Ok ==> is_layout_of(t->Ok_0, vals(r@), left as int),
{
    if left > r.len() || right != r.len() - left {
        return Err(ProofVerifyError::InternalError);
    }
    match checked_pow2(r.len()) {
        None => {
            return Err(ProofVerifyError::InternalError);
        },
        Some(_) => {},
    }
    proof {
        lemma_pow2_monotone(right as nat, r.len() as nat);
    }
    if pow2_usize(right) != n_per_row {
        return Err(ProofVerifyError::InternalError);
    }
    Ok(tensor_layout(r, left))
}

/// Accepts exactly when the value recombined from the opening equals the claim.
pub fn check_evaluation(recombined: &Scalar, claimed: &Scalar) -> (res: Result<(), ProofVerifyError>)
    ensures
        res is Ok <==> recombined@ == claimed@,
        res is Err ==> res == Err::<(), ProofVerifyError>(ProofVerifyError::InternalError),
{
    if recombined.equals(claimed) {
        Ok(())
    } else {
        Err(ProofVerifyError::InternalError)
    }
}

} // verus!
