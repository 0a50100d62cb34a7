use vstd::arithmetic::power2::{pow2, lemma_pow2_unfold};
use vstd::prelude::*;
use crate::dense::{bind_top, dot, mle};
use crate::eq::{bit_factor, chi, eq_table, lemma_chi_split, lemma_chi_range, lemma_pow2_zero};
use crate::scalar::{p, fadd, fsub, fmul, lemma_fadd_assoc};

verus! {

/// The table after binding its variables, from the top, to the coordinates of `r`.
pub open spec fn bind_all_top(z: Seq<int>, r: Seq<int>) -> Seq<int>
    decreases r.len(),
{
    if r.len() == 0 {
        z
    } else {
        bind_all_top(bind_top(z, r[0]), r.drop_first())
    }
}

/// `f(0) + ... + f(n-1)` in the field.
pub open spec fn fsum(f: spec_fn(int) -> int, n: int) -> int
    decreases n,
{
    if n <= 0 {
        0
    } else {
        fadd(fsum(f, n - 1), f(n - 1))
    }
}

/// A canonical element is its own residue.
pub proof fn lemma_mod_in_range(x: int)
    requires
        0 <= x < p(),
    ensures
        x % p() == x,
{
    vstd::arithmetic::div_mod::lemma_small_mod(x as nat, p() as nat);
}

/// Congruence is kept by addition.
pub proof fn lemma_cong_add(x: int, xx: int, y: int, yy: int)
    requires
        x % p() == xx % p(),
        y % p() == yy % p(),
    ensures
        (x + y) % p() == (xx + yy) % p(),
{
    vstd::arithmetic::div_mod::lemma_add_mod_noop(x, y, p());
    vstd::arithmetic::div_mod::lemma_add_mod_noop(xx, yy, p());
}

/// Congruence is kept by multiplication.
pub proof fn lemma_cong_mul(x: int, xx: int, y: int, yy: int)
    requires
        x % p() == xx % p(),
        y % p() == yy % p(),
    ensures
        (x * y) % p() == (xx * yy) % p(),
{
    vstd::arithmetic::div_mod::lemma_mul_mod_noop_general(x, y, p());
    vstd::arithmetic::div_mod::lemma_mul_mod_noop_general(xx, yy, p());
}

/// Reducing twice is reducing once.
pub proof fn lemma_mod_twice(x: int)
    ensures
        (x % p()) % p() == x % p(),
{
    vstd::arithmetic::div_mod::lemma_mod_twice(x, p());
}

/// A sum in the field is a canonical element.
pub proof fn lemma_fsum_range(f: spec_fn(int) -> int, n: int)
    ensures
        0 <= fsum(f, n) < p(),
{
}

/// Sums of functions that agree below `n` agree.
pub proof fn lemma_fsum_ext(f: spec_fn(int) -> int, g: spec_fn(int) -> int, n: int)
    requires
        forall|j: int| 0 <= j < n ==> #[trigger] f(j) == g(j),
    ensures
        fsum(f, n) == fsum(g, n),
    decreases n,
{
    if n > 0 {
        lemma_fsum_ext(f, g, n - 1);
    }
}

/// The sum of a pointwise sum is the sum of the two sums.
pub proof fn lemma_fsum_add(f: spec_fn(int) -> int, g: spec_fn(int) -> int, n: int)
    ensures
        fsum(|j: int| fadd(f(j), g(j)), n) == fadd(fsum(f, n), fsum(g, n)),
    decreases n,
{
    let h = |j: int| fadd(f(j), g(j));
    if n <= 0 {
    } else {
        lemma_fsum_add(f, g, n - 1);
        let a = fsum(f, n - 1);
        let b = fsum(g, n - 1);
        let x = f(n - 1);
        let y = g(n - 1);
        lemma_cong_add(fadd(a, b), a + b, fadd(x, y), x + y);
        lemma_mod_twice(a + b);
        lemma_mod_twice(x + y);
        lemma_mod_twice(a + x);
        lemma_mod_twice(b + y);
        lemma_cong_add(fadd(a, x), a + x, fadd(b, y), b + y);
        assert((a + b) + (x + y) == (a + x) + (b + y));
    }
}

/// `dot(a, b, n)` as a sum.
pub proof fn lemma_dot_as_sum(a: Seq<int>, b: Seq<int>, n: int)
    ensures
        dot(a, b, n) == fsum(|j: int| fmul(a[j], b[j]), n),
    decreases n,
{
    if n > 0 {
        lemma_dot_as_sum(a, b, n - 1);
    }
}

/// A dot product over `n + k` terms splits after the first `n`.
pub proof fn lemma_dot_split(a: Seq<int>, b: Seq<int>, n: int, k: int)
    requires
        0 <= n,
        0 <= k,
    ensures
        dot(a, b, n + k) == fadd(dot(a, b, n), fsum(|j: int| fmul(a[n + j], b[n + j]), k)),
    decreases k,
{
    let t = |j: int| fmul(a[n + j], b[n + j]);
    if k == 0 {
        lemma_fsum_range(|j: int| fmul(a[j], b[j]), n);
        lemma_dot_as_sum(a, b, n);
        lemma_mod_in_range(dot(a, b, n));
    } else {
        lemma_dot_split(a, b, n, k - 1);
        lemma_fadd_assoc(dot(a, b, n), fsum(t, k - 1), t(k - 1));
        assert(n + k - 1 == n + (k - 1));
    }
}

/// One term of the bound table's sum: the two terms of the original table whose
/// indices differ only in the top bit, combined.
proof fn lemma_term(r0: int, c: int, z: int, w: int)
    requires
        0 <= c < p(),
    ensures
        fadd(fmul(fmul(fsub(1, r0), c), z), fmul(fmul(r0 % p(), c), w)) == fmul(
            c,
            fadd(z, fmul(r0, fsub(w, z))),
        ),
{
    let s1 = fsub(1, r0);
    let rp = r0 % p();
    lemma_mod_twice(1 - r0);
    lemma_mod_twice(r0);
    lemma_mod_twice(c);
    lemma_mod_twice(z);
    lemma_mod_twice(w);
    lemma_mod_in_range(c);
    // left side
    lemma_cong_mul(s1, 1 - r0, c, c);
    lemma_mod_twice((1 - r0) * c);
    lemma_cong_mul(fmul(s1, c), (1 - r0) * c, z, z);
    lemma_cong_mul(rp, r0, c, c);
    lemma_mod_twice(r0 * c);
    lemma_cong_mul(fmul(rp, c), r0 * c, w, w);
    lemma_mod_twice((1 - r0) * c * z);
    lemma_mod_twice(r0 * c * w);
    lemma_cong_add(
        fmul(fmul(s1, c), z),
        (1 - r0) * c * z,
        fmul(fmul(rp, c), w),
        r0 * c * w,
    );
    // right side
    lemma_mod_twice(w - z);
    lemma_cong_mul(r0, r0, fsub(w, z), w - z);
    lemma_mod_twice(r0 * (w - z));
    lemma_cong_add(z, z, fmul(r0, fsub(w, z)), r0 * (w - z));
    lemma_mod_twice(z + r0 * (w - z));
    lemma_cong_mul(c, c, fadd(z, fmul(r0, fsub(w, z))), z + r0 * (w - z));
    assert((1 - r0) * c * z + r0 * c * w == c * (z + r0 * (w - z))) by (nonlinear_arith);
}

/// Binding the top variable to `r[0]` keeps the value of the multilinear
/// extension: the bound table at the rest of `r` has the value of the
/// original table at `r`.
pub proof fn lemma_bind_top_keeps_value(z: Seq<int>, r: Seq<int>)
    requires
        r.len() >= 1,
        z.len() == pow2(r.len()),
    ensures
        mle(bind_top(z, r[0]), r.drop_first()) == mle(z, r),
{
    let m = (r.len() - 1) as nat;
    let n = pow2(m) as int;
    lemma_pow2_unfold(r.len());
    let rest = r.drop_first();
    assert(r.subrange(1, r.len() as int) =~= rest);
    let t = eq_table(r);
    let tr = eq_table(rest);
    let b = bind_top(z, r[0]);
    let first = r.subrange(0, 1);
    lemma_pow2_zero();
    assert(first.drop_last().len() == 0);
    assert(first.last() == r[0]);
    assert(chi(first.drop_last(), 0) == 1);
    assert(0int / 2 == 0 && 1int / 2 == 0 && 1int % 2 == 1 && 0int % 2 == 0);
    assert(bit_factor(r[0], false) == fsub(1, r[0]));
    assert(chi(first, 0) == fmul(1, fsub(1, r[0])));
    assert(chi(first, 1) == fmul(1, r[0] % p()));
    vstd::arithmetic::div_mod::lemma_mod_twice(1 - r[0], p());
    vstd::arithmetic::div_mod::lemma_mod_twice(r[0], p());
    assert(chi(first, 0) == fsub(1, r[0]));
    assert(chi(first, 1) == r[0] % p());
    let lo = |j: int| fmul(t[j], z[j]);
    let hi = |j: int| fmul(t[n + j], z[n + j]);
    let both = |j: int| fadd(lo(j), hi(j));
    let bound = |j: int| fmul(tr[j], b[j]);
    assert forall|j: int| 0 <= j < n implies #[trigger] both(j) == bound(j) by {
        lemma_chi_split(r, 1, 0, j);
        lemma_chi_split(r, 1, 1, j);
        assert(0 * n + j == j);
        assert(1 * n + j == n + j);
        lemma_chi_range(rest, j);
        assert(z.len() / 2 == n);
        lemma_term(r[0], chi(rest, j), z[j], z[n + j]);
    }
    lemma_dot_split(t, z, n, n);
    lemma_dot_as_sum(t, z, n);
    lemma_fsum_ext(|j: int| fmul(t[j], z[j]), lo, n);
    lemma_fsum_add(lo, hi, n);
    lemma_fsum_ext(|j: int| fadd(lo(j), hi(j)), both, n);
    lemma_fsum_ext(both, bound, n);
    lemma_dot_as_sum(tr, b, n);
    lemma_fsum_ext(|j: int| fmul(tr[j], b[j]), bound, n);
    lemma_fsum_ext(|j: int| fmul(t[n + j], z[n + j]), hi, n);
}

/// Binding every variable of a table, from the top, to the coordinates of `r`
/// leaves one entry, and it is the value of the multilinear extension at `r`.
pub proof fn lemma_bind_all_top(z: Seq<int>, r: Seq<int>)
    requires
        r.len() >= 1,
        z.len() == pow2(r.len()),
    ensures
        bind_all_top(z, r).len() == 1,
        bind_all_top(z, r)[0] == mle(z, r),
    decreases r.len(),
{
    let b = bind_top(z, r[0]);
    let rest = r.drop_first();
    lemma_pow2_unfold(r.len());
    lemma_bind_top_keeps_value(z, r);
    assert(bind_all_top(z, r) == bind_all_top(b, rest));
    assert(b.len() == pow2(rest.len()));
    if r.len() == 1 {
        lemma_pow2_zero();
        assert(rest.len() == 0);
        assert(bind_all_top(b, rest) == b);
        assert(eq_table(rest)[0] == chi(rest, 0));
        assert(chi(rest, 0) == 1);
        lemma_mod_in_range(b[0]);
        assert(1 * b[0] == b[0]);
        assert(dot(eq_table(rest), b, 0) == 0);
        assert(dot(eq_table(rest), b, 1) == fadd(0, fmul(1, b[0])));
    } else {
        lemma_bind_all_top(b, rest);
    }
}

} // verus!
