use vstd::arithmetic::div_mod::{lemma_mul_mod_noop_general, lemma_sub_mod_noop, lemma_add_mod_noop};
use vstd::arithmetic::mul::lemma_mul_is_distributive_sub;
use vstd::prelude::*;

verus! {

/// The prime modulus of the scalar field.
pub const MODULUS: u64 = 5102708120182849537;

/// The modulus as a mathematical integer.
pub open spec fn p() -> int {
    MODULUS as int
}

/// Field addition on canonical representatives.
pub open spec fn fadd(a: int, b: int) -> int {
    (a + b) % p()
}

/// Field subtraction on canonical representatives.
pub open spec fn fsub(a: int, b: int) -> int {
    (a - b) % p()
}

/// Field multiplication on canonical representatives.
pub open spec fn fmul(a: int, b: int) -> int {
    (a * b) % p()
}

/// The values that a sequence of scalars stands for.
pub open spec fn vals(s: Seq<Scalar>) -> Seq<int> {
    s.map_values(|x: Scalar| x@)
}

/// An element of the prime field of order `MODULUS`, kept in canonical form.
#[derive(Clone, Copy, Debug, PartialEq, Eq, Structural)]
pub struct Scalar {
    v: u64,
}

impl View for Scalar {
    type V = int;

    closed spec fn view(&self) -> int {
        self.v as int
    }
}

impl Scalar {
    /// The representative lies below the modulus.
    #[verifier::type_invariant]
    pub closed spec fn canonical(self) -> bool {
        self.v < MODULUS
    }

    /// What the type invariant says of the value.
    pub proof fn lemma_range(self)
        requires
            self.canonical(),
        ensures
            0 <= self@ < p(),
    {
    }

    /// The additive identity.
    pub fn zero() -> (r: Scalar)
        ensures
            r@ == 0,
    {
        Scalar { v: 0 }
    }

    /// The multiplicative identity.
    pub fn one() -> (r: Scalar)
        ensures
            r@ == 1,
    {
        Scalar { v: 1 }
    }

    /// The residue of `x` modulo the field order.
    pub fn from_u64(x: u64) -> (r: Scalar)
        ensures
            r@ == x as int % p(),
    {
        Scalar { v: x % MODULUS }
    }

    /// The canonical representative, in `0 .. MODULUS`.
    pub fn to_u64(&self) -> (r: u64)
        ensures
            r as int == self@,
            r < MODULUS,
    {
        proof {
            use_type_invariant(self);
        }
        self.v
    }

    /// Whether two scalars stand for the same field element.
    pub fn equals(&self, o: &Scalar) -> (r: bool)
        ensures
            r == (self@ == o@),
    {
        self.v == o.v
    }

    /// Field addition.
    pub fn add(&self, o: &Scalar) -> (r: Scalar)
        ensures
            r@ == fadd(self@, o@),
    {
        proof {
            use_type_invariant(self);
            use_type_invariant(o);
        }
        let s: u64 = self.v + o.v;
        if s >= MODULUS {
            proof {
                assert((s - MODULUS) as int == (s as int - p()));
                vstd::arithmetic::div_mod::lemma_mod_sub_multiples_vanish(s as int, p());
                vstd::arithmetic::div_mod::lemma_small_mod((s - MODULUS) as nat, p() as nat);
            }
            Scalar { v: s - MODULUS }
        } else {
            proof {
                vstd::arithmetic::div_mod::lemma_small_mod(s as nat, p() as nat);
            }
            Scalar { v: s }
        }
    }

    /// Field subtraction.
    pub fn sub(&self, o: &Scalar) -> (r: Scalar)
        ensures
            r@ == fsub(self@, o@),
    {
        proof {
            use_type_invariant(self);
            use_type_invariant(o);
        }
        if self.v >= o.v {
            proof {
                vstd::arithmetic::div_mod::lemma_small_mod((self.v - o.v) as nat, p() as nat);
            }
            Scalar { v: self.v - o.v }
        } else {
            let d: u64 = MODULUS - o.v + self.v;
            proof {
                vstd::arithmetic::div_mod::lemma_small_mod(d as nat, p() as nat);
                vstd::arithmetic::div_mod::lemma_mod_add_multiples_vanish(self@ - o@, p());
            }
            Scalar { v: d }
        }
    }

    /// Field multiplication.
    pub fn mul(&self, o: &Scalar) -> (r: Scalar)
        ensures
            r@ == fmul(self@, o@),
    {
        proof {
            use_type_invariant(self);
            use_type_invariant(o);
            assert((self.v as int) * (o.v as int) < 0x1_0000_0000_0000_0000_0000_0000_0000_0000)
                by (nonlinear_arith)
                requires
                    self.v < MODULUS,
                    o.v < MODULUS,
            ;
        }
        let prod: u128 = (self.v as u128) * (o.v as u128);
        let m: u128 = prod % (MODULUS as u128);
        Scalar { v: m as u64 }
    }
}

/// `a - a * b` and `a * (1 - b)` are the same field element.
pub proof fn lemma_sub_mul_factor(a: int, b: int)
    requires
        0 <= a < p(),
    ensures
        fsub(a, fmul(a, b)) == fmul(a, fsub(1, b)),
{
    lemma_mul_mod_noop_general(a, 1 - b, p());
    lemma_mul_is_distributive_sub(a, 1, b);
    vstd::arithmetic::div_mod::lemma_small_mod(a as nat, p() as nat);
    lemma_sub_mod_noop(a, a * b, p());
}

/// Field multiplication is associative.
pub proof fn lemma_fmul_assoc(a: int, b: int, c: int)
    ensures
        fmul(fmul(a, b), c) == fmul(a, fmul(b, c)),
{
    lemma_mul_mod_noop_general(a * b, c, p());
    lemma_mul_mod_noop_general(a, b * c, p());
    vstd::arithmetic::mul::lemma_mul_is_associative(a, b, c);
}

/// Field addition is associative.
pub proof fn lemma_fadd_assoc(a: int, b: int, c: int)
    ensures
        fadd(fadd(a, b), c) == fadd(a, fadd(b, c)),
{
    lemma_add_mod_noop(a + b, c, p());
    lemma_add_mod_noop(a, b + c, p());
    vstd::arithmetic::div_mod::lemma_mod_mod(a + b, p(), 1);
    vstd::arithmetic::div_mod::lemma_mod_twice(a, p());
    vstd::arithmetic::div_mod::lemma_mod_twice(c, p());
    vstd::arithmetic::div_mod::lemma_mod_twice(a + b, p());
    vstd::arithmetic::div_mod::lemma_mod_twice(b + c, p());
}

} // verus!
