//! Scalars of the secp256k1 group: integers modulo the group order.
//!
//! A [`Scalar`] is held as 32 big-endian bytes and stands for the number they
//! denote, which is always below the group order. Range checks and the
//! reduction of a digest are proved here; multiplication and addition modulo
//! the order are done by libsecp256k1.

use crate::encoding::{be_compare, be_is_zero, be_sub32, be_value, lemma_be_value_bound, pow256, Relation};
use vstd::prelude::*;

verus! {

/// The order of the secp256k1 group, a prime.
pub open spec fn order() -> nat {
    0xFFFFFFFF_FFFFFFFF_FFFFFFFF_FFFFFFFE_BAAEDCE6_AF48A03B_BFD25E8C_D0364141nat
}

/// How often [`random_scalar`] draws before it gives up.
pub const MAX_SCALAR_ATTEMPTS: u32 = 128;

/// The group order as 32 big-endian bytes.
pub fn order_bytes() -> (r: [u8; 32])
    ensures
        be_value(r@) == order(),
{
    let r: [u8; 32] = [
        0xff, 0xff, 0xff, 0xff, 0xff, 0xff, 0xff, 0xff, 0xff, 0xff, 0xff, 0xff, 0xff, 0xff, 0xff, 0xfe,
        0xba, 0xae, 0xdc, 0xe6, 0xaf, 0x48, 0xa0, 0x3b, 0xbf, 0xd2, 0x5e, 0x8c, 0xd0, 0x36, 0x41, 0x41,
    ];
    proof {
        reveal_with_fuel(be_value, 33);
    }
    r
}

/// Any 32 bytes denote a number below twice the group order.
pub proof fn lemma_digest_below_twice_order(s: Seq<u8>)
    requires
        s.len() == 32,
    ensures
        be_value(s) < 2 * order(),
{
    lemma_be_value_bound(s);
    assert(pow256(32) == 0x1_00000000_00000000_00000000_00000000_00000000_00000000_00000000_00000000nat)
        by {
        reveal_with_fuel(pow256, 33);
    }
}

/// An integer modulo the group order.
#[derive(Clone, Copy)]
pub struct Scalar {
    bytes: [u8; 32],
}

impl View for Scalar {
    type V = nat;

    /// The number the scalar stands for.
    closed spec fn view(&self) -> nat {
        be_value(self.bytes@)
    }
}

impl Scalar {
    /// Every scalar is below the group order.
    #[verifier::type_invariant]
    pub open spec fn wf(self) -> bool {
        self@ < order()
    }

    /// Reads a scalar from 32 big-endian bytes; `None` where they denote a
    /// number that is not below the group order.
    pub fn from_be_bytes(bytes: [u8; 32]) -> (r: Option<Scalar>)
        ensures
            r is Some <==> be_value(bytes@) < order(),
            r matches Some(s) ==> s@ == be_value(bytes@) && s.wf(),
    {
        let limit = order_bytes();
        match be_compare(&bytes, &limit) {
            Relation::Less => Some(Scalar { bytes }),
            _ => None,
        }
    }

    /// Reads 32 big-endian bytes as a number and reduces it modulo the group
    /// order.
    pub fn from_be_bytes_reduced(bytes: [u8; 32]) -> (r: Scalar)
        ensures
            r@ == be_value(bytes@) % order(),
            r.wf(),
    {
        let limit = order_bytes();
        proof {
            lemma_digest_below_twice_order(bytes@);
        }
        let (difference, below) = be_sub32(&bytes, &limit);
        if below {
            Scalar { bytes }
        } else {
            Scalar { bytes: difference }
        }
    }

    /// The scalar as 32 big-endian bytes.
    pub fn to_be_bytes(&self) -> (r: [u8; 32])
        ensures
            be_value(r@) == self@,
    {
        proof {
            use_type_invariant(self);
        }
        self.bytes
    }

    /// Tells whether the scalar is zero.
    pub fn is_zero(&self) -> (r: bool)
        ensures
            r == (self@ == 0),
    {
        be_is_zero(&self.bytes)
    }

    /// Tells whether two scalars are the same number.
    pub fn equals(&self, other: &Scalar) -> (r: bool)
        ensures
            r == (self@ == other@),
    {
        match be_compare(&self.bytes, &other.bytes) {
            Relation::Equal => true,
            _ => false,
        }
    }
}

/// The product of two nonzero scalars modulo the group order.
///
/// Trusted: calls `secp256k1::SecretKey::mul_tweak`, which the crate documents
/// as multiplying the key by the tweak modulo the curve order, and which fails
/// only where key or tweak is zero or out of range.
#[verifier::external_body]
pub(crate) fn scalar_mul(a: &Scalar, t: &Scalar) -> (r: Scalar)
    requires
        a.wf(),
        t.wf(),
        a@ != 0,
        t@ != 0,
    ensures
        r@ == (a@ * t@) % order(),
        r.wf(),
{
    let key = secp256k1::SecretKey::from_slice(&a.bytes).expect("nonzero scalar below the order");
    let tweak = secp256k1::Scalar::from_be_bytes(t.bytes).expect("scalar below the order");
    let product = key.mul_tweak(&tweak).expect("nonzero tweak");
    Scalar { bytes: product.secret_bytes() }
}

/// The sum of a nonzero scalar and a scalar modulo the group order; `None`
/// where the sum is zero.
///
/// Trusted: calls `secp256k1::SecretKey::add_tweak`, which the crate documents
/// as adding the tweak to the key modulo the curve order, and which fails, for
/// a valid key and tweak, only where the tweak is the negation of the key.
#[verifier::external_body]
pub(crate) fn scalar_add(a: &Scalar, t: &Scalar) -> (r: Option<Scalar>)
    requires
        a.wf(),
        t.wf(),
        a@ != 0,
    ensures
        r is Some <==> (a@ + t@) % order() != 0,
        r matches Some(s) ==> s@ == (a@ + t@) % order() && s.wf(),
{
    let key = secp256k1::SecretKey::from_slice(&a.bytes).expect("nonzero scalar below the order");
    let tweak = secp256k1::Scalar::from_be_bytes(t.bytes).expect("scalar below the order");
    match key.add_tweak(&tweak) {
        Ok(sum) => Some(Scalar { bytes: sum.secret_bytes() }),
        Err(_) => None,
    }
}

/// A fresh secret key: a nonzero scalar drawn by libsecp256k1 from the
/// thread's random number generator.
///
/// Trusted: calls `secp256k1::SecretKey::new`, which draws 32 bytes until they
/// are a valid secret key, that is, nonzero and below the curve order.
#[verifier::external_body]
pub(crate) fn random_secret_key() -> (r: Scalar)
    ensures
        r@ != 0,
        r.wf(),
{
    Scalar { bytes: secp256k1::SecretKey::new(&mut rand::thread_rng()).secret_bytes() }
}

/// 32 bytes from the thread's random number generator.
///
/// Trusted: calls `rand::RngCore::fill_bytes` on `rand::thread_rng()`; nothing
/// is claimed of the bytes.
#[verifier::external_body]
pub(crate) fn random_bytes32() -> (r: [u8; 32])
{
    let mut bytes = [0u8; 32];
    rand::RngCore::fill_bytes(&mut rand::thread_rng(), &mut bytes);
    bytes
}

/// Tells whether 32 bytes can serve as a blinding factor or a nonce: whether
/// they denote a nonzero number below the group order.
pub fn scalar_from_candidate(bytes: [u8; 32]) -> (r: Option<Scalar>)
    ensures
        r is Some <==> 0 < be_value(bytes@) < order(),
        r matches Some(s) ==> s@ == be_value(bytes@) && s.wf(),
{
    match Scalar::from_be_bytes(bytes) {
        Some(s) => {
            if s.is_zero() {
                None
            } else {
                Some(s)
            }
        },
        None => None,
    }
}

/// Draws a nonzero scalar. Candidates that are zero or out of range are
/// rejected and drawn again, at most [`MAX_SCALAR_ATTEMPTS`] times; `None`
/// where every draw was rejected.
pub fn random_scalar() -> (r: Option<Scalar>)
    ensures
        r matches Some(s) ==> s@ != 0 && s.wf(),
{
    let mut attempt: u32 = 0;
    while attempt < MAX_SCALAR_ATTEMPTS
        invariant
            attempt <= MAX_SCALAR_ATTEMPTS,
        decreases MAX_SCALAR_ATTEMPTS - attempt,
    {
        let candidate = scalar_from_candidate(random_bytes32());
        if candidate.is_some() {
            return candidate;
        }
        attempt = attempt + 1;
    }
    None
}

} // verus!
