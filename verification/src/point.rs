//! Points of the secp256k1 group.
//!
//! A [`Point`] is held in its compressed encoding of 33 bytes. The group is
//! cyclic of prime order [`order`], so every point other than the identity
//! is `k*G` for exactly one `k` with `0 < k < order()`: its discrete
//! logarithm, which libsecp256k1 calls the secret key that corresponds to
//! the public key. The contracts of this library speak of a point through
//! that number, where the group law is arithmetic modulo the order. Nothing
//! computes the number; it only says which point a value is.
//!
//! All arithmetic on points is done by libsecp256k1 through the `secp256k1`
//! crate. What this library takes on trust about it is stated in the
//! contracts of the five functions of this module that are marked as
//! trusted; everything else is proved from them.

use crate::encoding::bytes_equal;
use crate::scalar::{order, Scalar};
use vstd::prelude::*;

verus! {

/// The compressed encoding of the point `secret*G`, the public key of the
/// secret key `secret`, for `0 < secret < order()`: what
/// `secp256k1::PublicKey::from_secret_key` returns, serialized.
pub uninterp spec fn public_key_bytes(secret: nat) -> Seq<u8>;

/// Whether the bytes are the compressed encoding of a point other than the
/// identity.
pub open spec fn is_point_encoding(bytes: Seq<u8>) -> bool {
    exists|k: nat| 0 < k < order() && #[trigger] public_key_bytes(k) == bytes
}

/// The discrete logarithm of the point that the bytes encode.
pub open spec fn discrete_log(bytes: Seq<u8>) -> nat {
    choose|k: nat| 0 < k < order() && #[trigger] public_key_bytes(k) == bytes
}

/// The group element `v*G` by its discrete logarithm: `None` for the
/// identity, which no [`Point`] holds.
pub open spec fn exponent(v: int) -> Option<nat> {
    let reduced = v % (order() as int);
    if reduced == 0 {
        None
    } else {
        Some(reduced as nat)
    }
}

/// Exponents count modulo the order: reducing either side of a difference
/// changes nothing.
pub proof fn lemma_exponent_reduces(v: int, w: int)
    ensures
        exponent(v % (order() as int) - w % (order() as int)) == exponent(v - w),
        exponent(v - w % (order() as int)) == exponent(v - w),
{
    let n = order() as int;
    vstd::arithmetic::div_mod::lemma_sub_mod_noop(v, w, n);
    vstd::arithmetic::div_mod::lemma_sub_mod_noop_right(v, w, n);
}

/// A point of the group other than the identity.
#[derive(Clone, Copy)]
pub struct Point {
    bytes: [u8; 33],
}

impl View for Point {
    type V = Seq<u8>;

    /// The compressed encoding of the point.
    closed spec fn view(&self) -> Seq<u8> {
        self.bytes@
    }
}

impl Point {
    /// Every point is a nonzero multiple of the generator.
    #[verifier::type_invariant]
    pub open spec fn wf(self) -> bool {
        is_point_encoding(self@)
    }

    /// The discrete logarithm of the point: the `k` with `self == k*G`.
    pub open spec fn log(self) -> nat {
        discrete_log(self@)
    }

    /// A point is the multiple of the generator that its logarithm names.
    pub proof fn lemma_log(self)
        requires
            self.wf(),
        ensures
            0 < self.log() < order(),
            self@ == public_key_bytes(self.log()),
            self@.len() == 33,
    {
    }

    /// The compressed encoding of the point.
    pub fn serialize(&self) -> (r: [u8; 33])
        ensures
            r@ == self@,
    {
        self.bytes
    }

    /// Tells whether two values are the same point.
    pub fn equals(&self, other: &Point) -> (r: bool)
        ensures
            r == (self@ == other@),
            r == (self.log() == other.log()),
    {
        proof {
            use_type_invariant(self);
            use_type_invariant(other);
        }
        bytes_equal(&self.bytes, &other.bytes)
    }

    /// Reads a point from its compressed encoding; `None` where the bytes
    /// are no such encoding.
    pub fn from_slice(data: &[u8]) -> (r: Option<Point>)
        ensures
            r is Some <==> is_point_encoding(data@) && data@.len() == 33,
            r matches Some(p) ==> p@ == data@ && p.wf(),
    {
        if data.len() != 33 {
            return None;
        }
        let mut bytes: [u8; 33] = [0u8; 33];
        let mut i: usize = 0;
        while i < 33
            invariant
                i <= 33,
                data@.len() == 33,
                forall|j: int| 0 <= j < i ==> bytes@[j] == data@[j],
            decreases 33 - i,
        {
            bytes[i] = data[i];
            i = i + 1;
        }
        assert(bytes@ =~= data@);
        parse_compressed(&bytes)
    }
}

/// Decodes a compressed public key.
///
/// Trusted: calls `secp256k1::PublicKey::from_slice`, which parses 33 bytes
/// exactly where they are the compressed encoding of a point of the curve,
/// and `serialize`, which gives those bytes back. That each such point is a
/// nonzero multiple of the generator holds because the curve has prime
/// order.
#[verifier::external_body]
fn parse_compressed(bytes: &[u8; 33]) -> (r: Option<Point>)
    ensures
        r is Some <==> is_point_encoding(bytes@),
        r matches Some(p) ==> p@ == bytes@ && p.wf(),
{
    match secp256k1::PublicKey::from_slice(bytes) {
        Ok(key) => Some(Point { bytes: key.serialize() }),
        Err(_) => None,
    }
}

/// The point `k*G`: the public key of the secret key `k`.
///
/// Trusted: calls `secp256k1::PublicKey::from_secret_key` and `serialize`.
/// The result is named by [`public_key_bytes`]. That its logarithm is `k`
/// says that distinct secret keys have distinct public keys: the generator
/// has the order [`order`].
#[verifier::external_body]
pub(crate) fn generator_mul(k: &Scalar) -> (r: Point)
    requires
        k.wf(),
        k@ != 0,
    ensures
        r@ == public_key_bytes(k@),
        r.log() == k@,
        r.wf(),
{
    let secp = secp256k1::Secp256k1::new();
    let key = secp256k1::SecretKey::from_slice(&k.to_be_bytes()).expect("nonzero scalar below the order");
    Point { bytes: secp256k1::PublicKey::from_secret_key(&secp, &key).serialize() }
}

/// The point `t*P`.
///
/// Trusted: calls `secp256k1::PublicKey::mul_tweak`, documented as tweaking
/// the key by multiplying by the tweak modulo the curve order, and failing
/// only for a tweak that is zero or out of range. The crate's test
/// `tweak_mul_arbitrary_data` holds it to the same tweak of the secret key:
/// the secret key of the result is that of `P` times `t`.
#[verifier::external_body]
pub(crate) fn point_mul(p: &Point, t: &Scalar) -> (r: Point)
    requires
        p.wf(),
        t.wf(),
        t@ != 0,
    ensures
        r.log() == (p.log() * t@) % order(),
        r.wf(),
{
    let secp = secp256k1::Secp256k1::new();
    let key = secp256k1::PublicKey::from_slice(&p.bytes).expect("encoding of a point");
    let tweak = secp256k1::Scalar::from_be_bytes(t.to_be_bytes()).expect("scalar below the order");
    Point { bytes: key.mul_tweak(&secp, &tweak).expect("nonzero tweak").serialize() }
}

/// The point `P + Q`; `None` where the sum is the identity.
///
/// Trusted: calls `secp256k1::PublicKey::combine`, documented as returning
/// the sum of the two keys, and as failing where the result would be the
/// point at infinity. The crate's test `create_pubkey_combine` holds it to
/// the sum of the secret keys: the secret key of the result is that of `P`
/// plus that of `Q`, modulo the curve order.
#[verifier::external_body]
pub(crate) fn point_add(p: &Point, q: &Point) -> (r: Option<Point>)
    requires
        p.wf(),
        q.wf(),
    ensures
        r is Some <==> (p.log() + q.log()) % order() != 0,
        r matches Some(s) ==> s.log() == (p.log() + q.log()) % order() && s.wf(),
{
    let a = secp256k1::PublicKey::from_slice(&p.bytes).expect("encoding of a point");
    let b = secp256k1::PublicKey::from_slice(&q.bytes).expect("encoding of a point");
    match a.combine(&b) {
        Ok(sum) => Some(Point { bytes: sum.serialize() }),
        Err(_) => None,
    }
}

/// The point `-P`.
///
/// Trusted: calls `secp256k1::PublicKey::negate`, documented as negating
/// the key, which never fails. The secret key of the result is the order
/// less that of `P`.
#[verifier::external_body]
pub(crate) fn point_neg(p: &Point) -> (r: Point)
    requires
        p.wf(),
    ensures
        r.log() == order() - p.log(),
        r.wf(),
{
    let secp = secp256k1::Secp256k1::new();
    let key = secp256k1::PublicKey::from_slice(&p.bytes).expect("encoding of a point");
    Point { bytes: key.negate(&secp).serialize() }
}

/// The point `P - Q`; `None` where the difference is the identity.
pub(crate) fn point_sub(p: &Point, q: &Point) -> (r: Option<Point>)
    requires
        p.wf(),
        q.wf(),
    ensures
        r is Some <==> exponent(p.log() - q.log()) is Some,
        r matches Some(d) ==> Some(d.log()) == exponent(p.log() - q.log()) && d.wf(),
{
    let minus_q = point_neg(q);
    proof {
        p.lemma_log();
        q.lemma_log();
        vstd::arithmetic::div_mod::lemma_mod_add_multiples_vanish(
            p.log() - q.log(),
            order() as int,
        );
    }
    point_add(p, &minus_q)
}

} // verus!
