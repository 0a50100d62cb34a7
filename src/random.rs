use merlin::Transcript;
use rand_core::RngCore;
use vstd::prelude::*;
use crate::scalar::{Scalar, p, fadd, fmul};

verus! {

/// One operation on a transcript: a label, the bytes absorbed or squeezed, and
/// whether they were squeezed.
pub type TranscriptOp = (Seq<u8>, Seq<u8>, bool);

#[verifier::external_type_specification]
#[verifier::external_body]
pub struct ExTranscript(Transcript);

/// The operations that a transcript has gone through since it was made. A merlin
/// transcript is a deterministic STROBE state, so this sequence fixes it.
pub uninterp spec fn transcript_history(t: Transcript) -> Seq<TranscriptOp>;

/// The `n` bytes that a transcript with history `h` squeezes under `label`.
pub uninterp spec fn challenge_of(h: Seq<TranscriptOp>, label: Seq<u8>, n: nat) -> Seq<u8>;

/// The label under which merlin absorbs a transcript's own name: `dom-sep` in ASCII.
pub open spec fn dom_sep() -> Seq<u8> {
    seq![100u8, 111, 109, 45, 115, 101, 112]
}

/// Relies on merlin::Transcript::new, which absorbs `label` under `dom-sep`
/// (and panics on a label longer than `u32::MAX` bytes).
#[verifier::external_body]
fn transcript_new(label: &'static [u8]) -> (t: Transcript)
    requires
        label@.len() <= u32::MAX,
    ensures
        transcript_history(t) == seq![(dom_sep(), label@, false)],
{
    Transcript::new(label)
}

/// Relies on merlin::Transcript::append_message, which panics on a message longer
/// than `u32::MAX` bytes.
#[verifier::external_body]
fn transcript_append(t: &mut Transcript, label: &'static [u8], message: &[u8])
    requires
        message@.len() <= u32::MAX,
    ensures
        transcript_history(*final(t)) == transcript_history(*old(t)).push(
            (label@, message@, false),
        ),
{
    t.append_message(label, message)
}

/// Relies on merlin::Transcript::challenge_bytes: `n` bytes squeezed from the
/// transcript under `label` (it panics on more than `u32::MAX` of them).
#[verifier::external_body]
fn transcript_challenge(t: &mut Transcript, label: &'static [u8], n: usize) -> (r: Vec<u8>)
    requires
        n <= u32::MAX,
    ensures
        r@ == challenge_of(transcript_history(*old(t)), label@, n as nat),
        r@.len() == n,
        transcript_history(*final(t)) == transcript_history(*old(t)).push((label@, r@, true)),
{
    let mut buf = vec![0u8; n];
    t.challenge_bytes(label, &mut buf);
    buf
}

/// Relies on rand_core::OsRng::try_fill_bytes: `n` bytes of operating-system
/// entropy, or nothing where the operating system fails to give them.
#[verifier::external_body]
fn os_random_bytes(n: usize) -> (r: Option<Vec<u8>>)
    ensures
        r is Some ==> r->0@.len() == n,
{
    let mut buf = vec![0u8; n];
    match rand_core::OsRng.try_fill_bytes(&mut buf) {
        Ok(()) => Some(buf),
        Err(_) => None,
    }
}

/// `256^n`.
pub open spec fn pow256(n: nat) -> int
    decreases n,
{
    if n == 0 {
        1
    } else {
        256 * pow256((n - 1) as nat)
    }
}

/// Appending a byte adds it at the next power of 256.
proof fn lemma_le_value_push(s: Seq<u8>, b: u8)
    ensures
        le_value(s.push(b)) == le_value(s) + pow256(s.len()) * b,
    decreases s.len(),
{
    if s.len() > 0 {
        assert(s.push(b).drop_first() =~= s.drop_first().push(b));
        lemma_le_value_push(s.drop_first(), b);
        let a = le_value(s.drop_first());
        let q = pow256((s.len() - 1) as nat);
        assert(256 * (a + q * b) == 256 * a + (256 * q) * b) by (nonlinear_arith);
        assert(s.push(b)[0] == s[0]);
        assert(pow256(s.len()) == 256 * q);
    } else {
        assert(s.push(b).drop_first() =~= Seq::<u8>::empty());
        assert(le_value(Seq::<u8>::empty()) == 0);
        assert(pow256(0) == 1);
        assert(s.push(b)[0] == b);
    }
}

/// The eight bytes of `x`, least significant first.
pub fn le_bytes(x: u64) -> (r: Vec<u8>)
    ensures
        r@.len() == 8,
        le_value(r@) == x,
{
    let mut out: Vec<u8> = Vec::new();
    let mut y: u64 = x;
    let mut i: usize = 0;
    assert(pow256(8) == 0x1_0000_0000_0000_0000) by {
        assert(pow256(0) == 1);
        assert(pow256(1) == 256);
        assert(pow256(2) == 0x1_0000);
        assert(pow256(3) == 0x100_0000);
        assert(pow256(4) == 0x1_0000_0000);
        assert(pow256(5) == 0x100_0000_0000);
        assert(pow256(6) == 0x1_0000_0000_0000);
        assert(pow256(7) == 0x100_0000_0000_0000);
    }
    assert(le_value(out@) == 0);
    while i < 8
        invariant
            i <= 8,
            out@.len() == i,
            x == le_value(out@) + pow256(i as nat) * y,
            y < pow256((8 - i) as nat),
        decreases 8 - i,
    {
        let d: u8 = (y % 256) as u8;
        let ghost prev = out@;
        let ghost yy = y;
        out.push(d);
        y = y / 256;
        proof {
            lemma_le_value_push(prev, d);
            let pp = pow256(i as nat);
            assert(pow256((i + 1) as nat) == 256 * pp);
            assert(pow256((8 - i) as nat) == 256 * pow256((8 - i - 1) as nat));
            assert(yy == 256 * y + d);
            assert(pp * yy == pp * d + (256 * pp) * y) by (nonlinear_arith)
                requires
                    yy == 256 * y + d,
            ;
            assert(y < pow256((8 - i - 1) as nat)) by (nonlinear_arith)
                requires
                    yy < 256 * pow256((8 - i - 1) as nat),
                    yy == 256 * y + d,
                    0 <= d,
            ;
        }
        i = i + 1;
    }
    out
}

/// The integer that `s` spells in base 256, least significant byte first.
pub open spec fn le_value(s: Seq<u8>) -> int
    decreases s.len(),
{
    if s.len() == 0 {
        0
    } else {
        s[0] + 256 * le_value(s.drop_first())
    }
}

/// The residue of the little-endian integer `b` modulo the field order.
pub fn scalar_from_bytes_wide(b: &Vec<u8>) -> (s: Scalar)
    ensures
        s@ == le_value(b@) % p(),
{
    let base = Scalar::from_u64(256);
    proof {
        vstd::arithmetic::div_mod::lemma_small_mod(256, p() as nat);
    }
    let mut acc = Scalar::zero();
    let mut k: usize = b.len();
    while k > 0
        invariant
            k <= b.len(),
            base@ == 256,
            acc@ == le_value(b@.subrange(k as int, b.len() as int)) % p(),
        decreases k,
    {
        k = k - 1;
        let d = Scalar::from_u64(b[k] as u64);
        let ghost prev = le_value(b@.subrange(k + 1, b.len() as int));
        proof {
            let s = b@.subrange(k as int, b.len() as int);
            assert(s.drop_first() =~= b@.subrange(k + 1, b.len() as int));
            vstd::arithmetic::div_mod::lemma_mul_mod_noop_left(prev, 256, p());
            vstd::arithmetic::div_mod::lemma_add_mod_noop(prev * 256, b[k as int] as int, p());
            vstd::arithmetic::div_mod::lemma_small_mod(b[k as int] as nat, p() as nat);
            vstd::arithmetic::div_mod::lemma_mod_twice(prev * 256, p());
            assert(fadd(fmul(prev % p(), 256), d@) == (b[k as int] + 256 * prev) % p());
        }
        acc = acc.mul(&base).add(&d);
    }
    proof {
        assert(b@.subrange(0, b.len() as int) =~= b@);
    }
    acc
}

/// The label under which the seed is absorbed: `init_randomness` in ASCII.
pub const INIT_RANDOMNESS: [u8; 15] = [
    105, 110, 105, 116, 95, 114, 97, 110, 100, 111, 109, 110, 101, 115, 115,
];

/// Randomness drawn from a transcript that was seeded with fresh entropy.
pub struct RandomTape {
    tape: Transcript,
}

impl RandomTape {
    /// What the tape's transcript has gone through.
    pub closed spec fn tape_history(&self) -> Seq<TranscriptOp> {
        transcript_history(self.tape)
    }

    /// A tape named `name` that has absorbed eight bytes of entropy under
    /// `init_randomness`; nothing where the operating system gives no entropy.
    pub fn new(name: &'static [u8]) -> (t: Option<RandomTape>)
        requires
            name@.len() <= u32::MAX,
        ensures
            t is Some ==> exists|seed: Seq<u8>|
                seed.len() == 8 && #[trigger] t->0.tape_history() == seq![
                    (dom_sep(), name@, false),
                    (INIT_RANDOMNESS@, seed, false),
                ],
    {
        let entropy = match os_random_bytes(8) {
            Some(b) => b,
            None => {
                return None;
            },
        };
        let mut tape = transcript_new(name);
        let seed = scalar_from_bytes_wide(&entropy);
        let bytes = le_bytes(seed.to_u64());
        transcript_append(&mut tape, &INIT_RANDOMNESS, &bytes);
        let t = RandomTape { tape };
        proof {
            assert(t.tape_history() == seq![
                (dom_sep(), name@, false),
                (INIT_RANDOMNESS@, bytes@, false),
            ]);
        }
        Some(t)
    }

    /// The field element that 64 bytes squeezed from the tape under `label` spell,
    /// little-endian; the squeeze is recorded on the tape.
    pub fn random_scalar(&mut self, label: &'static [u8]) -> (s: Scalar)
        ensures
            s@ == le_value(challenge_of(old(self).tape_history(), label@, 64)) % p(),
            final(self).tape_history() == old(self).tape_history().push(
                (label@, challenge_of(old(self).tape_history(), label@, 64), true),
            ),
    {
        let bytes = transcript_challenge(&mut self.tape, label, 64);
        scalar_from_bytes_wide(&bytes)
    }
}

} // verus!
