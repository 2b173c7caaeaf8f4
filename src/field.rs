use ark_ff::BigInteger;
use ark_ff::Field;
use ark_ff::PrimeField;
use vstd::arithmetic::div_mod::*;
use vstd::prelude::*;

verus! {

/// The order of the BN254 base field,
/// 21888242871839275222246405745257275088696311157297823662689037894645226208583.
pub open spec fn modulus() -> int {
    limbs_value(0x3c208c16d87cfd47, 0x97816a916871ca8d, 0xb85045b68181585d, 0x30644e72e131a029)
}

pub open spec fn fadd(a: int, b: int) -> int {
    (a + b) % modulus()
}

pub open spec fn fsub(a: int, b: int) -> int {
    (a - b) % modulus()
}

pub open spec fn fmul(a: int, b: int) -> int {
    (a * b) % modulus()
}

/// The integer that little-endian bytes spell.
pub open spec fn le_value(b: Seq<u8>) -> int
    decreases b.len(),
{
    if b.len() == 0 {
        0
    } else {
        b[0] as int + 256 * le_value(b.drop_first())
    }
}

/// The `n` big-endian bytes of `v` (its low `8 * n` bits).
pub open spec fn be_bytes(v: int, n: nat) -> Seq<u8>
    decreases n,
{
    if n == 0 {
        Seq::empty()
    } else {
        be_bytes(v / 256, (n - 1) as nat).push((v % 256) as u8)
    }
}

/// An element of the BN254 base field, held as its canonical integer in four
/// little-endian 64-bit limbs.
#[derive(Clone, Copy, Debug, PartialEq, Eq, Structural)]
pub struct Fq {
    l0: u64,
    l1: u64,
    l2: u64,
    l3: u64,
}

pub open spec fn limbs_value(l0: u64, l1: u64, l2: u64, l3: u64) -> int {
    l0 as int + 0x1_0000_0000_0000_0000 * (l1 as int + 0x1_0000_0000_0000_0000 * (l2 as int
        + 0x1_0000_0000_0000_0000 * l3 as int))
}

impl Fq {
    /// The integer in `0..modulus()` that this element stands for.
    pub closed spec fn val(self) -> int {
        limbs_value(self.l0, self.l1, self.l2, self.l3)
    }

    #[verifier::type_invariant]
    spec fn canonical(self) -> bool {
        self.val() < modulus()
    }

    pub open spec fn wf(self) -> bool {
        0 <= self.val() < modulus()
    }

    /// Two elements are equal exactly when their integers are.
    pub proof fn lemma_eq_iff(a: Fq, b: Fq)
        ensures
            (a == b) <==> (a.val() == b.val()),
    {
        if a.val() == b.val() {
            lemma_limbs_unique(a.l0, a.l1, a.l2, a.l3, b.l0, b.l1, b.l2, b.l3);
        }
    }

    pub fn zero() -> (r: Fq)
        ensures
            r.val() == 0,
            r.wf(),
    {
        Fq { l0: 0, l1: 0, l2: 0, l3: 0 }
    }

    pub fn one() -> (r: Fq)
        ensures
            r.val() == 1,
            r.wf(),
    {
        Fq { l0: 1, l1: 0, l2: 0, l3: 0 }
    }

    pub fn from_u64(x: u64) -> (r: Fq)
        ensures
            r.val() == x,
            r.wf(),
    {
        Fq { l0: x, l1: 0, l2: 0, l3: 0 }
    }

    pub fn eq_val(&self, other: &Fq) -> (r: bool)
        ensures
            r == (self.val() == other.val()),
    {
        proof {
            Fq::lemma_eq_iff(*self, *other);
        }
        *self == *other
    }

    pub fn add(&self, other: &Fq) -> (r: Fq)
        ensures
            r.val() == fadd(self.val(), other.val()),
    {
        ark_add(self, other)
    }

    pub fn sub(&self, other: &Fq) -> (r: Fq)
        ensures
            r.val() == fsub(self.val(), other.val()),
    {
        ark_sub(self, other)
    }

    pub fn mul(&self, other: &Fq) -> (r: Fq)
        ensures
            r.val() == fmul(self.val(), other.val()),
    {
        ark_mul(self, other)
    }

    /// The canonical 32-byte big-endian encoding.
    pub fn to_bytes_be(&self) -> (r: Vec<u8>)
        ensures
            r@ == be_bytes(self.val(), 32),
    {
        ark_to_bytes_be(self)
    }
}

/// An element has at most one inverse below the field order.
pub proof fn lemma_inverse_unique(a: int, b: int, c: int)
    requires
        0 <= b < modulus(),
        0 <= c < modulus(),
        fmul(a, b) == 1,
        fmul(a, c) == 1,
    ensures
        b == c,
{
    let m = modulus();
    lemma_small_mod(b as nat, m as nat);
    lemma_small_mod(c as nat, m as nat);
    lemma_mul_mod_noop_general(b, a * c, m);
    lemma_mul_mod_noop_general(a * b, c, m);
    assert(b * (a * c) == (a * b) * c) by (nonlinear_arith);
    assert((b * ((a * c) % m)) % m == b % m);
    assert((((a * b) % m) * c) % m == c % m);
}

proof fn lemma_limbs_unique(a0: u64, a1: u64, a2: u64, a3: u64, b0: u64, b1: u64, b2: u64, b3: u64)
    requires
        limbs_value(a0, a1, a2, a3) == limbs_value(b0, b1, b2, b3),
    ensures
        a0 == b0 && a1 == b1 && a2 == b2 && a3 == b3,
{
    let w: int = 0x1_0000_0000_0000_0000;
    let ha = a1 as int + w * (a2 as int + w * a3 as int);
    let hb = b1 as int + w * (b2 as int + w * b3 as int);
    lemma_fundamental_div_mod_converse(limbs_value(a0, a1, a2, a3), w, ha, a0 as int);
    lemma_fundamental_div_mod_converse(limbs_value(b0, b1, b2, b3), w, hb, b0 as int);
    let ga = a2 as int + w * a3 as int;
    let gb = b2 as int + w * b3 as int;
    lemma_fundamental_div_mod_converse(ha, w, ga, a1 as int);
    lemma_fundamental_div_mod_converse(hb, w, gb, b1 as int);
    lemma_fundamental_div_mod_converse(ga, w, a3 as int, a2 as int);
    lemma_fundamental_div_mod_converse(gb, w, b3 as int, b2 as int);
}

/// Relies on `Add` of `ark_bn254::Fq`: the sum modulo the field order.
#[verifier::external_body]
fn ark_add(a: &Fq, b: &Fq) -> (r: Fq)
    ensures
        r.val() == fadd(a.val(), b.val()),
{
    let x = ark_bn254::Fq::from_bigint(ark_ff::BigInt::new([a.l0, a.l1, a.l2, a.l3])).unwrap();
    let y = ark_bn254::Fq::from_bigint(ark_ff::BigInt::new([b.l0, b.l1, b.l2, b.l3])).unwrap();
    let z = (x + y).into_bigint().0;
    Fq { l0: z[0], l1: z[1], l2: z[2], l3: z[3] }
}

/// Relies on `Sub` of `ark_bn254::Fq`: the difference modulo the field order.
#[verifier::external_body]
fn ark_sub(a: &Fq, b: &Fq) -> (r: Fq)
    ensures
        r.val() == fsub(a.val(), b.val()),
{
    let x = ark_bn254::Fq::from_bigint(ark_ff::BigInt::new([a.l0, a.l1, a.l2, a.l3])).unwrap();
    let y = ark_bn254::Fq::from_bigint(ark_ff::BigInt::new([b.l0, b.l1, b.l2, b.l3])).unwrap();
    let z = (x - y).into_bigint().0;
    Fq { l0: z[0], l1: z[1], l2: z[2], l3: z[3] }
}

/// Relies on `Mul` of `ark_bn254::Fq`: the product modulo the field order.
#[verifier::external_body]
fn ark_mul(a: &Fq, b: &Fq) -> (r: Fq)
    ensures
        r.val() == fmul(a.val(), b.val()),
{
    let x = ark_bn254::Fq::from_bigint(ark_ff::BigInt::new([a.l0, a.l1, a.l2, a.l3])).unwrap();
    let y = ark_bn254::Fq::from_bigint(ark_ff::BigInt::new([b.l0, b.l1, b.l2, b.l3])).unwrap();
    let z = (x * y).into_bigint().0;
    Fq { l0: z[0], l1: z[1], l2: z[2], l3: z[3] }
}

/// Relies on `Field::inverse` of `ark_bn254::Fq`: for a nonzero element, the
/// element whose product with it is one.
#[verifier::external_body]
pub(crate) fn ark_inverse(a: &Fq) -> (r: Fq)
    requires
        a.val() != 0,
    ensures
        fmul(a.val(), r.val()) == 1,
        r.wf(),
{
    let x = ark_bn254::Fq::from_bigint(ark_ff::BigInt::new([a.l0, a.l1, a.l2, a.l3])).unwrap();
    let z = x.inverse().unwrap().into_bigint().0;
    Fq { l0: z[0], l1: z[1], l2: z[2], l3: z[3] }
}

/// Relies on `BigInteger::to_bytes_be` of the canonical integer: its 32
/// big-endian bytes.
#[verifier::external_body]
fn ark_to_bytes_be(a: &Fq) -> (r: Vec<u8>)
    ensures
        r@ == be_bytes(a.val(), 32),
{
    let x = ark_bn254::Fq::from_bigint(ark_ff::BigInt::new([a.l0, a.l1, a.l2, a.l3])).unwrap();
    x.into_bigint().to_bytes_be()
}

/// Relies on `PrimeField::from_le_bytes_mod_order` of `ark_bn254::Fq`: the
/// little-endian integer of the bytes, reduced modulo the field order.
#[verifier::external_body]
pub(crate) fn ark_from_le_bytes_mod_order(b: &[u8]) -> (r: Fq)
    ensures
        r.val() == le_value(b@) % modulus(),
{
    let z = ark_bn254::Fq::from_le_bytes_mod_order(b).into_bigint().0;
    Fq { l0: z[0], l1: z[1], l2: z[2], l3: z[3] }
}

} // verus!
