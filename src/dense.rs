use vstd::arithmetic::power2::{pow2, lemma_pow2_unfold, lemma_pow2_pos};
use vstd::prelude::*;
use crate::eq::{EqPolynomial, eq_table, chi, lemma_chi_range, lemma_pow2_zero, lemma_pow2_monotone};
use crate::scalar::{Scalar, vals, p, fadd, fsub, fmul};

verus! {

/// `a[0] * b[0] + ... + a[n-1] * b[n-1]` in the field.
pub open spec fn dot(a: Seq<int>, b: Seq<int>, n: int) -> int
    decreases n,
{
    if n <= 0 {
        0
    } else {
        fadd(dot(a, b, n - 1), fmul(a[n - 1], b[n - 1]))
    }
}

/// The multilinear extension of the table `z` evaluated at `r`:
/// the sum over all indices `x` of `eq(r, x) * z[x]`.
pub open spec fn mle(z: Seq<int>, r: Seq<int>) -> int {
    dot(eq_table(r), z, z.len() as int)
}

/// Whether `n` is `2^k` for some `k`.
pub open spec fn is_power_of_two(n: nat) -> bool {
    exists|k: nat| pow2(k) == n
}

/// The entry of a table after binding its top variable to `r`.
pub open spec fn bind_top_entry(z: Seq<int>, r: int, i: int) -> int {
    fadd(z[i], fmul(r, fsub(z[i + z.len() / 2], z[i])))
}

/// The table after binding its top variable to `r`.
pub open spec fn bind_top(z: Seq<int>, r: int) -> Seq<int> {
    Seq::new(z.len() / 2, |i: int| bind_top_entry(z, r, i))
}

/// The table after binding its bottom variable to `r`.
pub open spec fn bind_bot(z: Seq<int>, r: int) -> Seq<int> {
    Seq::new(z.len() / 2, |i: int| bind_bot_entry(z, r, i))
}

/// The entry of a table after binding its bottom variable to `r`.
pub open spec fn bind_bot_entry(z: Seq<int>, r: int, i: int) -> int {
    fadd(z[2 * i], fmul(r, fsub(z[2 * i + 1], z[2 * i])))
}

/// The tables of `polys`, one after the other.
pub open spec fn concat_tables(polys: Seq<DensePolynomial>) -> Seq<int>
    decreases polys.len(),
{
    if polys.len() == 0 {
        Seq::empty()
    } else {
        concat_tables(polys.drop_last()) + polys.last()@
    }
}

/// `t` is `parts` padded with zeros up to the least power of two `2^k` that holds it.
pub open spec fn is_padded_to_power_of_two(t: Seq<int>, k: nat, parts: Seq<int>) -> bool {
    &&& pow2(k) >= parts.len()
    &&& (k == 0 || pow2((k - 1) as nat) < parts.len())
    &&& t == parts + Seq::new((pow2(k) - parts.len()) as nat, |i: int| 0int)
}

/// `2^a < 2^b` only if `2^(a+1) <= 2^b`.
pub proof fn lemma_pow2_next(a: nat, b: nat)
    requires
        pow2(a) < pow2(b),
    ensures
        pow2(a + 1) <= pow2(b),
        a < b,
{
    if a >= b {
        lemma_pow2_monotone(b, a);
    }
    lemma_pow2_monotone(a + 1, b);
}

/// Merging two tables of the same power-of-two length adds no padding, so
/// splitting the merged table at that length gives back the two tables.
pub proof fn lemma_split_of_merge(a: Seq<int>, b: Seq<int>, t: Seq<int>, k: nat)
    requires
        a.len() == b.len(),
        is_power_of_two(a.len()),
        is_padded_to_power_of_two(t, k, a + b),
    ensures
        t.len() == 2 * a.len(),
        t.subrange(0, a.len() as int) == a,
        t.subrange(a.len() as int, (2 * a.len()) as int) == b,
{
    let j = choose|j: nat| pow2(j) == a.len();
    lemma_pow2_unfold(j + 1);
    lemma_pow2_pos(j);
    if k > j + 1 {
        lemma_pow2_monotone(j + 1, (k - 1) as nat);
    } else if k < j + 1 {
        lemma_pow2_monotone(k, j);
    }
    assert(k == j + 1);
    assert(t =~= a + b);
    assert(t.subrange(0, a.len() as int) =~= a);
    assert(t.subrange(a.len() as int, (2 * a.len()) as int) =~= b);
}

/// `n < 2^n`.
pub proof fn lemma_lt_pow2(n: nat)
    ensures
        n < pow2(n),
    decreases n,
{
    if n == 0 {
        lemma_pow2_zero();
    } else {
        lemma_lt_pow2((n - 1) as nat);
        lemma_pow2_unfold(n);
    }
}

/// A multilinear polynomial given by its values on the Boolean hypercube.
/// The value at the point whose bits, most significant first, are those of `i`
/// is entry `i` of the table.
#[derive(Debug)]
pub struct DensePolynomial {
    num_vars: usize,
    len: usize,
    z: Vec<Scalar>,
}

impl View for DensePolynomial {
    type V = Seq<int>;

    /// The table of values over the variables that are still free.
    closed spec fn view(&self) -> Seq<int> {
        vals(self.z@.subrange(0, self.len as int))
    }
}

impl DensePolynomial {
    /// The number of free variables.
    pub closed spec fn vars(&self) -> nat {
        self.num_vars as nat
    }

    /// The table has `2^vars` entries, and the storage holds them.
    pub closed spec fn wf(&self) -> bool {
        &&& self.len as nat == pow2(self.num_vars as nat)
        &&& self.len <= self.z.len()
    }

    /// No variable has been bound: the storage holds exactly the table.
    pub closed spec fn compact(&self) -> bool {
        self.z.len() == self.len
    }

    /// The table of a well-formed polynomial has `2^vars` entries.
    pub proof fn lemma_len(&self)
        requires
            self.wf(),
        ensures
            self@.len() == pow2(self.vars()),
            self@.len() <= usize::MAX,
    {
    }

    /// The polynomial whose table is `z`, of length `2^k`.
    pub fn new(z: Vec<Scalar>) -> (poly: DensePolynomial)
        requires
            is_power_of_two(z.len() as nat),
        ensures
            poly.wf(),
            poly.compact(),
            poly@ == vals(z@),
            pow2(poly.vars()) == z.len(),
    {
        let len = z.len();
        let ghost k = choose|k: nat| pow2(k) == len as nat;
        let mut num_vars: usize = 0;
        let mut size: usize = 1;
        proof {
            lemma_pow2_zero();
            lemma_pow2_pos(k);
        }
        while size < len
            invariant
                size as nat == pow2(num_vars as nat),
                size <= len,
                1 <= size,
                num_vars <= size,
                pow2(k) == len as nat,
            decreases len - size,
        {
            proof {
                lemma_pow2_next(num_vars as nat, k);
                lemma_pow2_unfold(num_vars as nat + 1);
            }
            size = size * 2;
            num_vars = num_vars + 1;
        }
        proof {
            assert(z@.subrange(0, len as int) =~= z@);
        }
        DensePolynomial { num_vars, len, z }
    }

    pub fn get_num_vars(&self) -> (n: usize)
        ensures
            n == self.vars(),
    {
        self.num_vars
    }

    pub fn len(&self) -> (n: usize)
        requires
            self.wf(),
        ensures
            n == self@.len(),
    {
        self.len
    }

    /// A compact copy of the table of free variables.
    pub fn clone(&self) -> (c: DensePolynomial)
        requires
            self.wf(),
        ensures
            c.wf(),
            c.compact(),
            c@ == self@,
            c.vars() == self.vars(),
    {
        let z = copy_range(&self.z, 0, self.len);
        DensePolynomial { num_vars: self.num_vars, len: self.len, z }
    }

    /// The two halves of the table, as polynomials of one variable fewer.
    /// `idx` must be half the table's length.
    pub fn split(&self, idx: usize) -> (halves: (DensePolynomial, DensePolynomial))
        requires
            self.wf(),
            2 * idx == self@.len(),
        ensures
            halves.0.wf() && halves.0.compact(),
            halves.1.wf() && halves.1.compact(),
            halves.0@ == self@.subrange(0, idx as int),
            halves.1@ == self@.subrange(idx as int, 2 * idx),
            halves.0.vars() + 1 == self.vars(),
            halves.1.vars() + 1 == self.vars(),
    {
        proof {
            if self.num_vars == 0 {
                lemma_pow2_zero();
            }
            lemma_pow2_unfold(self.num_vars as nat);
        }
        let a = copy_range(&self.z, 0, idx);
        let b = copy_range(&self.z, idx, 2 * idx);
        proof {
            assert(vals(a@) =~= self@.subrange(0, idx as int));
            assert(vals(b@) =~= self@.subrange(idx as int, 2 * idx));
            assert(a@.subrange(0, idx as int) =~= a@);
            assert(b@.subrange(0, idx as int) =~= b@);
        }
        (
            DensePolynomial { num_vars: self.num_vars - 1, len: idx, z: a },
            DensePolynomial { num_vars: self.num_vars - 1, len: idx, z: b },
        )
    }

    /// Binds the most significant free variable to `r`:
    /// `z[i] <- z[i] + r * (z[i + n] - z[i])` for `i < n`, half the length.
    pub fn bound_poly_var_top(&mut self, r: &Scalar)
        requires
            old(self).wf(),
            old(self).vars() > 0,
        ensures
            final(self).wf(),
            final(self).vars() + 1 == old(self).vars(),
            final(self)@ == bind_top(old(self)@, r@),
    {
        proof {
            lemma_pow2_unfold(self.num_vars as nat);
        }
        let n = self.len / 2;
        let ghost z0 = self.z@;
        let mut i: usize = 0;
        while i < n
            invariant
                n * 2 == self.len,
                self.len <= self.z.len(),
                self.num_vars > 0,
                pow2((self.num_vars - 1) as nat) == n,
                z0 == old(self).z@,
                self.len == old(self).len,
                self.num_vars == old(self).num_vars,
                self.z.len() == z0.len(),
                i <= n,
                forall|x: int| i <= x < z0.len() ==> #[trigger] self.z@[x] == z0[x],
                forall|x: int|
                    0 <= x < i ==> #[trigger] self.z@[x]@ == fadd(
                        z0[x]@,
                        fmul(r@, fsub(z0[x + n]@, z0[x]@)),
                    ),
            decreases n - i,
        {
            let a = self.z[i];
            let b = self.z[i + n];
            let v = a.add(&r.mul(&b.sub(&a)));
            self.z.set(i, v);
            i = i + 1;
        }
        self.num_vars = self.num_vars - 1;
        self.len = n;
        proof {
            assert forall|x: int| 0 <= x < n implies #[trigger] self@[x] == vals(self.z@)[x] by {}
            assert forall|x: int| 0 <= x < 2 * n implies #[trigger] old(self)@[x] == z0[x]@ by {
                assert(old(self)@[x] == vals(z0.subrange(0, 2 * n))[x]);
            }
            assert(self@ =~= bind_top(old(self)@, r@));
        }
    }

    /// Binds the least significant free variable to `r`:
    /// `z[i] <- z[2i] + r * (z[2i + 1] - z[2i])` for `i < n`, half the length.
    pub fn bound_poly_var_bot(&mut self, r: &Scalar)
        requires
            old(self).wf(),
            old(self).vars() > 0,
        ensures
            final(self).wf(),
            final(self).vars() + 1 == old(self).vars(),
            final(self)@ == bind_bot(old(self)@, r@),
    {
        proof {
            lemma_pow2_unfold(self.num_vars as nat);
        }
        let n = self.len / 2;
        let ghost z0 = self.z@;
        let mut i: usize = 0;
        while i < n
            invariant
                n * 2 == self.len,
                self.len <= self.z.len(),
                self.num_vars > 0,
                pow2((self.num_vars - 1) as nat) == n,
                z0 == old(self).z@,
                self.len == old(self).len,
                self.num_vars == old(self).num_vars,
                self.z.len() == z0.len(),
                i <= n,
                forall|x: int| i <= x < z0.len() ==> #[trigger] self.z@[x] == z0[x],
                forall|x: int|
                    0 <= x < i ==> #[trigger] self.z@[x]@ == fadd(
                        z0[2 * x]@,
                        fmul(r@, fsub(z0[2 * x + 1]@, z0[2 * x]@)),
                    ),
            decreases n - i,
        {
            let a = self.z[2 * i];
            let b = self.z[2 * i + 1];
            let v = a.add(&r.mul(&b.sub(&a)));
            self.z.set(i, v);
            i = i + 1;
        }
        self.num_vars = self.num_vars - 1;
        self.len = n;
        proof {
            assert forall|x: int| 0 <= x < n implies #[trigger] self@[x] == vals(self.z@)[x] by {}
            assert forall|x: int| 0 <= x < 2 * n implies #[trigger] old(self)@[x] == z0[x]@ by {
                assert(old(self)@[x] == vals(z0.subrange(0, 2 * n))[x]);
            }
            assert(self@ =~= bind_bot(old(self)@, r@));
        }
    }

    /// The multilinear extension of the table at `r`, one coordinate per free variable.
    pub fn evaluate(&self, r: &Vec<Scalar>) -> (v: Scalar)
        requires
            self.wf(),
            r.len() == self.vars(),
        ensures
            v@ == mle(self@, vals(r@)),
            self.vars() == 0 ==> v@ == self@[0],
    {
        proof {
            lemma_pow2_zero();
        }
        let point = copy_range(r, 0, r.len());
        proof {
            assert(point@ =~= r@);
        }
        let chis = EqPolynomial::new(point).evals();
        let ghost e = eq_table(vals(r@));
        let mut acc = Scalar::zero();
        let mut i: usize = 0;
        while i < self.len
            invariant
                self.wf(),
                self@.len() == self.len,
                vals(chis@) == e,
                e.len() == self.len,
                i <= self.len,
                acc@ == dot(e, self@, i as int),
            decreases self.len - i,
        {
            let c = chis[i];
            let zi = self.z[i];
            proof {
                assert(c@ == e[i as int]);
                assert(zi@ == self@[i as int]);
            }
            acc = acc.add(&c.mul(&zi));
            i = i + 1;
        }
        if self.num_vars == 0 {
            let z0 = &self.z[0];
            proof {
                use_type_invariant(z0);
                z0.lemma_range();
                assert(vals(r@).len() == 0);
                assert(chi(vals(r@), 0) == 1);
                assert(e[0] == 1);
                assert(dot(e, self@, 0) == 0);
                assert(z0@ == self@[0]);
                vstd::arithmetic::div_mod::lemma_small_mod(z0@ as nat, p() as nat);
                assert(1 * self@[0] == self@[0]);
                assert(dot(e, self@, 1) == fadd(0, fmul(1, self@[0])));
            }
        }
        acc
    }

    /// Appends the table of `other`, of the same length, as the half where a new
    /// top variable is `1`.
    pub fn extend(&mut self, other: &DensePolynomial)
        requires
            old(self).wf(),
            old(self).compact(),
            other.wf(),
            other.compact(),
            other@.len() == old(self)@.len(),
            old(self)@.len() * 2 <= usize::MAX,
        ensures
            final(self).wf(),
            final(self).compact(),
            final(self)@ == old(self)@ + other@,
            final(self).vars() == old(self).vars() + 1,
    {
        let n = self.len;
        let mut i: usize = 0;
        while i < n
            invariant
                n == old(self).len,
                other.len == n,
                other.z.len() == n,
                i <= n,
                self.num_vars == old(self).num_vars,
                self.len == n,
                self.z@ == old(self).z@ + other.z@.subrange(0, i as int),
            decreases n - i,
        {
            self.z.push(other.z[i]);
            i = i + 1;
            proof {
                assert(self.z@ =~= old(self).z@ + other.z@.subrange(0, i as int));
            }
        }
        proof {
            lemma_lt_pow2(self.num_vars as nat);
            lemma_pow2_unfold(self.num_vars as nat + 1);
            assert(old(self).z@.subrange(0, n as int) =~= old(self).z@);
            assert(other.z@.subrange(0, n as int) =~= other.z@);
        }
        self.num_vars = self.num_vars + 1;
        self.len = 2 * n;
        proof {
            assert(self.z@.subrange(0, self.len as int) =~= self.z@);
            assert(vals(self.z@) =~= vals(old(self).z@) + vals(other.z@));
        }
    }

    /// The tables of `polys`, one after the other, padded with zeros up to the
    /// next power of two.
    pub fn merge(polys: &Vec<DensePolynomial>) -> (m: DensePolynomial)
        requires
            forall|i: int| 0 <= i < polys.len() ==> (#[trigger] polys[i]).wf(),
            concat_tables(polys@).len() * 2 <= usize::MAX,
        ensures
            m.wf(),
            m.compact(),
            is_padded_to_power_of_two(m@, m.vars(), concat_tables(polys@)),
    {
        let mut z: Vec<Scalar> = Vec::new();
        let mut j: usize = 0;
        while j < polys.len()
            invariant
                j <= polys.len(),
                forall|i: int| 0 <= i < polys.len() ==> (#[trigger] polys[i]).wf(),
                vals(z@) == concat_tables(polys@.subrange(0, j as int)),
            decreases polys.len() - j,
        {
            let q = &polys[j];
            let ghost before = z@;
            let mut i: usize = 0;
            while i < q.len
                invariant
                    q.wf(),
                    i <= q.len,
                    z@ == before + q.z@.subrange(0, i as int),
                decreases q.len - i,
            {
                z.push(q.z[i]);
                i = i + 1;
                proof {
                    assert(z@ =~= before + q.z@.subrange(0, i as int));
                }
            }
            proof {
                assert(polys@.subrange(0, j + 1).drop_last() =~= polys@.subrange(0, j as int));
                assert(vals(z@) =~= vals(before) + q@);
            }
            j = j + 1;
        }
        proof {
            assert(polys@.subrange(0, j as int) =~= polys@);
        }
        let ghost parts = concat_tables(polys@);
        let n = z.len();
        let mut k: usize = 0;
        let mut size: usize = 1;
        proof {
            lemma_pow2_zero();
        }
        while size < n
            invariant
                size as nat == pow2(k as nat),
                1 <= size,
                k <= size,
                n * 2 <= usize::MAX,
                k == 0 || pow2((k - 1) as nat) < n,
                size <= 2 * n || n == 0,
            decreases 2 * n - size,
        {
            proof {
                lemma_pow2_unfold(k as nat + 1);
            }
            size = size * 2;
            k = k + 1;
        }
        while z.len() < size
            invariant
                n <= size,
                vals(z@) == parts + Seq::new((z.len() - n) as nat, |i: int| 0int),
                n <= z.len() <= size,
            decreases size - z.len(),
        {
            let ghost prev = z@;
            z.push(Scalar::zero());
            proof {
                assert(vals(z@) =~= vals(prev).push(0int));
                assert(vals(z@) =~= parts + Seq::new((z.len() - n) as nat, |i: int| 0int));
            }
        }
        proof {
            assert(z@.subrange(0, size as int) =~= z@);
        }
        DensePolynomial { num_vars: k, len: size, z }
    }

    /// The polynomial whose table holds the given integers as field elements.
    pub fn from_usize(z: &Vec<usize>) -> (poly: DensePolynomial)
        requires
            is_power_of_two(z.len() as nat),
        ensures
            poly.wf(),
            poly.compact(),
            poly@.len() == z.len(),
            forall|i: int| 0 <= i < z.len() ==> #[trigger] poly@[i] == (z[i] as u64) as int % p(),
    {
        let mut v: Vec<Scalar> = Vec::new();
        let mut i: usize = 0;
        while i < z.len()
            invariant
                i <= z.len(),
                v.len() == i,
                forall|x: int| 0 <= x < i ==> #[trigger] v[x]@ == (z[x] as u64) as int % p(),
            decreases z.len() - i,
        {
            v.push(Scalar::from_u64(z[i] as u64));
            i = i + 1;
        }
        DensePolynomial::new(v)
    }

    /// Entry `i` of the table, if there is one.
    pub fn index(&self, i: usize) -> (e: Option<Scalar>)
        requires
            self.wf(),
        ensures
            e is Some <==> i < self@.len(),
            e is Some ==> e->0@ == self@[i as int],
    {
        if i < self.len {
            Some(self.z[i])
        } else {
            None
        }
    }
}

/// `z[lo..hi]` as a new vector.
fn copy_range(z: &Vec<Scalar>, lo: usize, hi: usize) -> (c: Vec<Scalar>)
    requires
        lo <= hi <= z.len(),
    ensures
        c@ == z@.subrange(lo as int, hi as int),
{
    let mut c: Vec<Scalar> = Vec::new();
    let mut i: usize = lo;
    while i < hi
        invariant
            lo <= i <= hi <= z.len(),
            c@ == z@.subrange(lo as int, i as int),
        decreases hi - i,
    {
        c.push(z[i]);
        i = i + 1;
        proof {
            assert(c@ =~= z@.subrange(lo as int, i as int));
        }
    }
    c
}

} // verus!
