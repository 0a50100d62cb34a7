use vstd::arithmetic::power2::{pow2, lemma_pow2_adds, lemma_pow2_pos};
use vstd::prelude::*;
use crate::binding::{
    fsum, lemma_cong_add, lemma_cong_mul, lemma_dot_split, lemma_fsum_ext, lemma_mod_in_range,
    lemma_mod_twice,
};
use crate::dense::{dot, mle};
use crate::eq::{eq_table, lemma_outer_product_at};
use crate::scalar::{fadd, fmul, lemma_fmul_assoc};

verus! {

/// Row `i` of the table `z` laid out in rows of `m` entries, dotted with `w`.
pub open spec fn row_dot(w: Seq<int>, z: Seq<int>, m: int, i: int) -> int {
    fsum(|j: int| fmul(w[j], z[i * m + j]), m)
}

/// `L^T M R`: the rows of `z`, `m` to a row, dotted with `rt`, then weighed by `lt`.
pub open spec fn tensor_value(lt: Seq<int>, rt: Seq<int>, z: Seq<int>) -> int {
    fsum(|i: int| fmul(lt[i], row_dot(rt, z, rt.len() as int, i)), lt.len() as int)
}

/// A constant factor comes out of a sum.
pub proof fn lemma_fsum_scale(c: int, g: spec_fn(int) -> int, n: int)
    ensures
        fsum(|j: int| fmul(c, g(j)), n) == fmul(c, fsum(g, n)),
    decreases n,
{
    if n > 0 {
        lemma_fsum_scale(c, g, n - 1);
        let s = fsum(g, n - 1);
        let x = g(n - 1);
        lemma_mod_twice(c * s);
        lemma_mod_twice(c * x);
        lemma_cong_add(fmul(c, s), c * s, fmul(c, x), c * x);
        lemma_mod_twice(s + x);
        lemma_cong_mul(c, c, fadd(s, x), s + x);
        assert(c * s + c * x == c * (s + x)) by (nonlinear_arith);
        let h = |j: int| fmul(c, g(j));
        assert(fsum(h, n) == fadd(fsum(h, n - 1), h(n - 1)));
        assert(fsum(g, n) == fadd(s, x));
        assert(fsum(h, n - 1) == fmul(c, s));
    } else {
        assert(fsum(g, n) == 0);
        assert(c * 0 == 0);
        assert(0int % crate::scalar::p() == 0);
    }
}

/// A dot product over `k` rows of `m` entries is the sum of the rows' dot products.
pub proof fn lemma_dot_rows(a: Seq<int>, b: Seq<int>, m: int, k: int)
    requires
        0 <= m,
        0 <= k,
    ensures
        dot(a, b, k * m) == fsum(|i: int| fsum(|j: int| fmul(a[i * m + j], b[i * m + j]), m), k),
    decreases k,
{
    if k > 0 {
        lemma_dot_rows(a, b, m, k - 1);
        assert(k * m == (k - 1) * m + m) by (nonlinear_arith);
        assert((k - 1) * m >= 0) by (nonlinear_arith)
            requires
                k >= 1,
                m >= 0,
        ;
        let n0 = (k - 1) * m;
        lemma_dot_split(a, b, n0, m);
        let row = |i: int| fsum(|j: int| fmul(a[i * m + j], b[i * m + j]), m);
        lemma_fsum_ext(
            |j: int| fmul(a[n0 + j], b[n0 + j]),
            |j: int| fmul(a[(k - 1) * m + j], b[(k - 1) * m + j]),
            m,
        );
        assert(row(k - 1) == fsum(|j: int| fmul(a[n0 + j], b[n0 + j]), m));
        assert(fsum(row, k) == fadd(fsum(row, k - 1), row(k - 1)));
        assert(dot(a, b, n0 + m) == fadd(dot(a, b, n0), row(k - 1)));
        assert(dot(a, b, n0) == fsum(row, k - 1));
        assert(dot(a, b, k * m) == fsum(row, k));
    } else {
        assert(k * m == 0) by (nonlinear_arith)
            requires
                k == 0,
        ;
    }
}

/// The tensor argument: the value of the table `z` at `r` is `L^T M R`, where `M`
/// is `z` laid out row-major in `2^k` rows of `2^(ell-k)` entries, `L` is the table
/// of the first `k` coordinates of `r`, and `R` is the table of the rest.
pub proof fn lemma_tensor_evaluation(z: Seq<int>, r: Seq<int>, k: int)
    requires
        0 <= k <= r.len(),
        z.len() == pow2(r.len()),
    ensures
        mle(z, r) == tensor_value(
            eq_table(r.subrange(0, k)),
            eq_table(r.subrange(k, r.len() as int)),
            z,
        ),
{
    let lt = eq_table(r.subrange(0, k));
    let rt = eq_table(r.subrange(k, r.len() as int));
    let t = eq_table(r);
    let m = rt.len() as int;
    let rows = lt.len() as int;
    lemma_pow2_adds(k as nat, (r.len() - k) as nat);
    assert(k as nat + (r.len() - k) as nat == r.len());
    assert(rows * m == z.len());
    lemma_pow2_pos((r.len() - k) as nat);
    lemma_dot_rows(t, z, m, rows);
    let outer = |i: int| fsum(|j: int| fmul(t[i * m + j], z[i * m + j]), m);
    let weighed = |i: int| fmul(lt[i], row_dot(rt, z, m, i));
    assert forall|i: int| 0 <= i < rows implies #[trigger] outer(i) == weighed(i) by {
        let g = |j: int| fmul(rt[j], z[i * m + j]);
        assert forall|j: int| 0 <= j < m implies #[trigger] fmul(t[i * m + j], z[i * m + j]) == fmul(
            lt[i],
            g(j),
        ) by {
            lemma_outer_product_at(r, k, i, j);
            lemma_fmul_assoc(lt[i], rt[j], z[i * m + j]);
        }
        lemma_fsum_ext(
            |j: int| fmul(t[i * m + j], z[i * m + j]),
            |j: int| fmul(lt[i], g(j)),
            m,
        );
        lemma_fsum_scale(lt[i], g, m);
        lemma_fsum_ext(g, |j: int| fmul(rt[j], z[i * m + j]), m);
    }
    lemma_fsum_ext(outer, weighed, rows);
}

} // verus!
