use vstd::arithmetic::power2::{pow2, lemma_pow2_unfold, lemma_pow2_pos, lemma_pow2_adds};
use vstd::prelude::*;
use crate::scalar::{Scalar, vals, p, fadd, fsub, fmul, lemma_sub_mul_factor, lemma_fmul_assoc};

verus! {

/// `2^0 == 1`.
pub proof fn lemma_pow2_zero()
    ensures
        pow2(0) == 1,
{
    vstd::arithmetic::power2::lemma2_to64();
}

/// The factor that variable value `ri` contributes for the given bit.
pub open spec fn bit_factor(ri: int, bit: bool) -> int {
    if bit {
        ri % p()
    } else {
        fsub(1, ri)
    }
}

/// The Lagrange basis value of index `i` at point `r`: the product over all
/// variables of `r[j]` where bit `j` of `i` is set and `1 - r[j]` where it is not.
/// Variable `0` is the most significant bit of `i`.
pub open spec fn chi(r: Seq<int>, i: int) -> int
    decreases r.len(),
{
    if r.len() == 0 {
        1
    } else {
        fmul(chi(r.drop_last(), i / 2), bit_factor(r.last(), i % 2 == 1))
    }
}

/// The full table of Lagrange basis values at `r`, of length `2^r.len()`.
pub open spec fn eq_table(r: Seq<int>) -> Seq<int> {
    Seq::new(pow2(r.len()), |i: int| chi(r, i))
}

/// The factor that coordinate `j` contributes to `eq(r, rx)`.
pub open spec fn eq_factor(a: int, b: int) -> int {
    fadd(fmul(a, b), fmul(fsub(1, a), fsub(1, b)))
}

/// The equality polynomial of `r` evaluated at `rx`, over the first `n` coordinates.
pub open spec fn eq_eval(r: Seq<int>, rx: Seq<int>, n: int) -> int
    decreases n,
{
    if n <= 0 {
        1
    } else {
        fmul(eq_eval(r, rx, n - 1), eq_factor(r[n - 1], rx[n - 1]))
    }
}

/// Every basis value is a canonical field element.
pub proof fn lemma_chi_range(r: Seq<int>, i: int)
    ensures
        0 <= chi(r, i) < p(),
    decreases r.len(),
{
}

/// Basis values of one more variable, in terms of those of the shorter point.
pub proof fn lemma_chi_step(r: Seq<int>, j: int, i: int, bit: bool)
    requires
        0 <= j < r.len(),
        0 <= i,
    ensures
        chi(r.subrange(0, j + 1), 2 * i + (if bit { 1int } else { 0int })) == fmul(
            chi(r.subrange(0, j), i),
            bit_factor(r[j], bit),
        ),
{
    let s = r.subrange(0, j + 1);
    assert(s.drop_last() =~= r.subrange(0, j));
    let x = 2 * i + (if bit { 1int } else { 0int });
    assert(x / 2 == i && (x % 2 == 1) == bit);
}

/// Outer-product identity: the basis value of the index `i * 2^m + j` of the whole
/// point is the product of the basis value of `i` on the first `k` coordinates and
/// that of `j` on the remaining `m` coordinates.
pub proof fn lemma_chi_split(r: Seq<int>, k: int, i: int, j: int)
    requires
        0 <= k <= r.len(),
        0 <= i,
        0 <= j < pow2((r.len() - k) as nat),
    ensures
        chi(r, i * pow2((r.len() - k) as nat) + j) == fmul(
            chi(r.subrange(0, k), i),
            chi(r.subrange(k, r.len() as int), j),
        ),
    decreases r.len(),
{
    let m = (r.len() - k) as nat;
    let left = r.subrange(0, k);
    let right = r.subrange(k, r.len() as int);
    if m == 0 {
        lemma_pow2_zero();
        assert(left =~= r);
        assert(right.len() == 0);
        lemma_chi_range(r, i);
        vstd::arithmetic::div_mod::lemma_small_mod(chi(r, i) as nat, p() as nat);
    } else {
        let q = pow2((m - 1) as nat);
        lemma_pow2_unfold(m);
        lemma_pow2_pos((m - 1) as nat);
        let x = i * pow2(m) + j;
        let rs = r.drop_last();
        assert(x / 2 == i * q + j / 2 && x % 2 == j % 2) by (nonlinear_arith)
            requires
                x == i * pow2(m) + j,
                pow2(m) == 2 * q,
                0 <= j,
                0 <= i,
        ;
        assert(0 <= j / 2 < q) by (nonlinear_arith)
            requires
                0 <= j < pow2(m),
                pow2(m) == 2 * q,
        ;
        lemma_chi_split(rs, k, i, j / 2);
        assert(rs.subrange(0, k) =~= left);
        assert(rs.subrange(k, rs.len() as int) =~= right.drop_last());
        assert(right.last() == r.last());
        lemma_fmul_assoc(chi(left, i), chi(right.drop_last(), j / 2), bit_factor(r.last(), j % 2 == 1));
    }
}

/// The table of a point is the row-major outer product of the table of its left
/// half, the first `ell / 2` coordinates, and that of its right half, the rest:
/// entry `i * |R| + j` of the whole table is `L[i] * R[j]`. For odd `ell` the right
/// half holds the extra coordinate.
pub proof fn lemma_outer_product(r: Seq<int>)
    ensures
        ({
            let k = (r.len() / 2) as int;
            let lt = eq_table(r.subrange(0, k));
            let rt = eq_table(r.subrange(k, r.len() as int));
            &&& lt.len() * rt.len() == eq_table(r).len()
            &&& forall|i: int, j: int|
                0 <= i < lt.len() && 0 <= j < rt.len() ==> #[trigger] eq_table(r)[i * rt.len() + j]
                    == fmul(#[trigger] lt[i], #[trigger] rt[j])
        }),
{
    let k = (r.len() / 2) as int;
    let lt = eq_table(r.subrange(0, k));
    let rt = eq_table(r.subrange(k, r.len() as int));
    let a = pow2(k as nat);
    let b = pow2((r.len() - k) as nat);
    lemma_pow2_adds(k as nat, (r.len() - k) as nat);
    assert(k as nat + (r.len() - k) as nat == r.len());
    assert forall|i: int, j: int|
        0 <= i < lt.len() && 0 <= j < rt.len() implies #[trigger] eq_table(r)[i * rt.len() + j]
            == fmul(#[trigger] lt[i], #[trigger] rt[j]) by {
        assert(0 <= i * b + j < a * b) by (nonlinear_arith)
            requires
                0 <= i < a,
                0 <= j < b,
        ;
        lemma_chi_split(r, k, i, j);
    }
}

/// One entry of the outer product, for a split after any `k` coordinates.
pub proof fn lemma_outer_product_at(r: Seq<int>, k: int, i: int, j: int)
    requires
        0 <= k <= r.len(),
        0 <= i < pow2(k as nat),
        0 <= j < pow2((r.len() - k) as nat),
    ensures
        ({
            let lt = eq_table(r.subrange(0, k));
            let rt = eq_table(r.subrange(k, r.len() as int));
            &&& 0 <= i * rt.len() + j < eq_table(r).len()
            &&& eq_table(r)[i * rt.len() + j] == fmul(lt[i], rt[j])
        }),
{
    let a = pow2(k as nat);
    let b = pow2((r.len() - k) as nat);
    lemma_pow2_adds(k as nat, (r.len() - k) as nat);
    assert(k as nat + (r.len() - k) as nat == r.len());
    assert(0 <= i * b + j < a * b) by (nonlinear_arith)
        requires
            0 <= i < a,
            0 <= j < b,
    ;
    lemma_chi_split(r, k, i, j);
}

/// Bit `b` of `i`, counting from the least significant.
pub open spec fn bit_of(i: int, b: nat) -> bool {
    (i / pow2(b) as int) % 2 == 1
}

/// The product, over the first `n` coordinates `j` of `r`, of `r[j]` where bit
/// `r.len() - 1 - j` of `i` is set and of `1 - r[j]` where it is not.
pub open spec fn bit_product(r: Seq<int>, i: int, n: int) -> int
    decreases n,
{
    if n <= 0 {
        1
    } else {
        fmul(bit_product(r, i, n - 1), bit_factor(r[n - 1], bit_of(i, (r.len() - n) as nat)))
    }
}

/// Dropping the last coordinate and the lowest bit leaves the product over the
/// other coordinates unchanged.
proof fn lemma_bit_product_shift(r: Seq<int>, i: int, n: int)
    requires
        r.len() >= 1,
        0 <= n < r.len(),
        0 <= i,
    ensures
        bit_product(r, i, n) == bit_product(r.drop_last(), i / 2, n),
    decreases n,
{
    if n > 0 {
        lemma_bit_product_shift(r, i, n - 1);
        let b = (r.len() - 1 - n) as nat;
        lemma_pow2_unfold(b + 1);
        lemma_pow2_pos(b);
        vstd::arithmetic::div_mod::lemma_div_denominator(i, 2, pow2(b) as int);
        assert((r.len() - n) as nat == b + 1);
        assert((r.drop_last().len() - n) as nat == b);
    }
}

/// The table built by doubling is the plain product over the bits of each index:
/// entry `i` is the product of `r[j]` where bit `ell - 1 - j` of `i` is set and
/// of `1 - r[j]` where it is not, so `r[0]` goes with the most significant bit.
pub proof fn lemma_table_is_bit_product(r: Seq<int>)
    ensures
        forall|i: int|
            0 <= i < eq_table(r).len() ==> #[trigger] eq_table(r)[i] == bit_product(
                r,
                i,
                r.len() as int,
            ),
{
    assert forall|i: int| 0 <= i < eq_table(r).len() implies #[trigger] eq_table(r)[i]
        == bit_product(r, i, r.len() as int) by {
        lemma_chi_is_bit_product(r, i);
    }
}

proof fn lemma_chi_is_bit_product(r: Seq<int>, i: int)
    requires
        0 <= i,
    ensures
        chi(r, i) == bit_product(r, i, r.len() as int),
    decreases r.len(),
{
    if r.len() > 0 {
        lemma_chi_is_bit_product(r.drop_last(), i / 2);
        lemma_bit_product_shift(r, i, r.len() - 1);
        lemma_pow2_zero();
        assert(bit_of(i, 0) == (i % 2 == 1));
        assert((r.len() - r.len()) as nat == 0);
    }
}

/// The equality polynomial `eq(r, .)` at a fixed point `r`.
pub struct EqPolynomial {
    r: Vec<Scalar>,
}

impl View for EqPolynomial {
    type V = Seq<int>;

    closed spec fn view(&self) -> Seq<int> {
        vals(self.r@)
    }
}

impl EqPolynomial {
    pub fn new(r: Vec<Scalar>) -> (e: EqPolynomial)
        ensures
            e@ == vals(r@),
    {
        EqPolynomial { r }
    }

    /// `eq(r, rx)`: the product over all coordinates of `r[i]*rx[i] + (1-r[i])*(1-rx[i])`.
    pub fn evaluate(&self, rx: &Vec<Scalar>) -> (v: Scalar)
        requires
            rx.len() == self@.len(),
        ensures
            v@ == eq_eval(self@, vals(rx@), rx.len() as int),
    {
        let one = Scalar::one();
        let mut acc = Scalar::one();
        let mut i: usize = 0;
        while i < rx.len()
            invariant
                i <= rx.len(),
                rx.len() == self.r.len(),
                self@ == vals(self.r@),
                one@ == 1,
                acc@ == eq_eval(self@, vals(rx@), i as int),
            decreases rx.len() - i,
        {
            let a = self.r[i];
            let b = rx[i];
            let t = a.mul(&b).add(&one.sub(&a).mul(&one.sub(&b)));
            proof {
                assert(a@ == self@[i as int] && b@ == vals(rx@)[i as int]);
                assert(eq_eval(self@, vals(rx@), i + 1) == fmul(
                    eq_eval(self@, vals(rx@), i as int),
                    eq_factor(self@[i as int], vals(rx@)[i as int]),
                ));
            }
            acc = acc.mul(&t);
            i = i + 1;
        }
        acc
    }

    /// The table of all `2^ell` basis values, built by doubling one variable at a time.
    pub fn evals(&self) -> (t: Vec<Scalar>)
        requires
            pow2(self@.len()) <= usize::MAX,
        ensures
            vals(t@) == eq_table(self@),
    {
        let ell = self.r.len();
        let mut table: Vec<Scalar> = Vec::new();
        table.push(Scalar::one());
        let mut size: usize = 1;
        let mut j: usize = 0;
        proof {
            lemma_pow2_zero();
        }
        while j < ell
            invariant
                j <= ell,
                ell == self.r.len(),
                self@ == vals(self.r@),
                pow2(ell as nat) <= usize::MAX,
                size as nat == pow2(j as nat),
                table.len() == size,
                forall|i: int| 0 <= i < size ==> #[trigger] table[i]@ == chi(self@.subrange(0, j as int), i),
            decreases ell - j,
        {
            let rj = self.r[j];
            let mut next: Vec<Scalar> = Vec::new();
            let mut i: usize = 0;
            while i < size
                invariant
                    i <= size,
                    j < ell,
                    ell == self.r.len(),
                    rj@ == self@[j as int],
                    table.len() == size,
                    next.len() == 2 * i,
                    forall|x: int| 0 <= x < size ==> #[trigger] table[x]@ == chi(self@.subrange(0, j as int), x),
                    forall|x: int| 0 <= x < 2 * i ==> #[trigger] next[x]@ == chi(self@.subrange(0, j + 1), x),
                decreases size - i,
            {
                let v = table[i];
                let hi = v.mul(&rj);
                let lo = v.sub(&hi);
                proof {
                    lemma_chi_range(self@.subrange(0, j as int), i as int);
                    lemma_sub_mul_factor(v@, rj@);
                    lemma_chi_step(self@, j as int, i as int, false);
                    lemma_chi_step(self@, j as int, i as int, true);
                    vstd::arithmetic::div_mod::lemma_mul_mod_noop_right(v@, rj@, p());
                }
                next.push(lo);
                next.push(hi);
                i = i + 1;
            }
            proof {
                lemma_pow2_unfold((j + 1) as nat);
                if j + 1 < ell {
                    vstd::arithmetic::power2::lemma_pow2_strictly_increases((j + 1) as nat, ell as nat);
                }
            }
            table = next;
            size = 2 * size;
            j = j + 1;
        }
        proof {
            assert(self@.subrange(0, ell as int) =~= self@);
            assert(vals(table@) =~= eq_table(self@));
        }
        table
    }

    /// The numbers of variables of the left and right halves of a point of length `ell`.
    pub fn compute_factored_lens(ell: usize) -> (r: (usize, usize))
        ensures
            r.0 == ell / 2,
            r.1 == ell - ell / 2,
    {
        (ell / 2, ell - ell / 2)
    }

    /// The basis tables of the left half `r[..ell/2]` and the right half `r[ell/2..]`.
    pub fn compute_factored_evals(&self) -> (lr: (Vec<Scalar>, Vec<Scalar>))
        requires
            pow2(self@.len()) <= usize::MAX,
        ensures
            vals(lr.0@) == eq_table(self@.subrange(0, (self@.len() / 2) as int)),
            vals(lr.1@) == eq_table(self@.subrange((self@.len() / 2) as int, self@.len() as int)),
    {
        let ell = self.r.len();
        let (left_num_vars, _right_num_vars) = EqPolynomial::compute_factored_lens(ell);
        let (lp, rp) = split_point(&self.r, left_num_vars);
        proof {
            lemma_pow2_monotone(left_num_vars as nat, ell as nat);
            lemma_pow2_monotone((ell - left_num_vars) as nat, ell as nat);
        }
        let l = EqPolynomial::new(lp).evals();
        let r = EqPolynomial::new(rp).evals();
        (l, r)
    }
}

/// `2^a <= 2^b` for `a <= b`.
pub proof fn lemma_pow2_monotone(a: nat, b: nat)
    requires
        a <= b,
    ensures
        pow2(a) <= pow2(b),
{
    if a < b {
        vstd::arithmetic::power2::lemma_pow2_strictly_increases(a, b);
    }
}

/// The first `k` coordinates of `r` and the rest, as two new vectors.
pub fn split_point(r: &Vec<Scalar>, k: usize) -> (s: (Vec<Scalar>, Vec<Scalar>))
    requires
        k <= r.len(),
    ensures
        vals(s.0@) == vals(r@).subrange(0, k as int),
        vals(s.1@) == vals(r@).subrange(k as int, r.len() as int),
{
    let mut a: Vec<Scalar> = Vec::new();
    let mut b: Vec<Scalar> = Vec::new();
    let mut i: usize = 0;
    while i < r.len()
        invariant
            i <= r.len(),
            a.len() == if i < k { i } else { k },
            b.len() == if i < k { 0 } else { i - k },
            forall|x: int| 0 <= x < a.len() ==> #[trigger] a[x] == r[x],
            forall|x: int| 0 <= x < b.len() ==> #[trigger] b[x] == r[k + x],
        decreases r.len() - i,
    {
        if i < k {
            a.push(r[i]);
        } else {
            b.push(r[i]);
        }
        i = i + 1;
    }
    proof {
        assert(vals(a@) =~= vals(r@).subrange(0, k as int));
        assert(vals(b@) =~= vals(r@).subrange(k as int, r.len() as int));
    }
    (a, b)
}

} // verus!
