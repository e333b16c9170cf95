//! Blind signatures by Diffie-Hellman key exchange, with a proof of
//! discrete-logarithm equality.
//!
//! The holder blinds a point `Y` as `B' = Y + r*G`. The issuer signs it as
//! `C' = a*B'` and proves, without showing `a`, that `C'` was made with the
//! secret key of its public key `A = a*G`. The holder removes the blinding as
//! `C = C' - r*A`, which is `a*Y`.
//!
//! The contracts are written over discrete logarithms (see
//! [`crate::point`]), where the group law is arithmetic modulo the order.
//! [`lemma_unblind_recovers_signature`] and [`lemma_dleq_complete`] state
//! what the protocol rests on: unblinding gives the signature on the point
//! itself, and a proof made by signing is accepted.

use crate::encoding::{append_bytes, be_value};
use crate::hash::{sha256, sha256_digest};
use crate::point::{
    exponent, generator_mul, lemma_exponent_reduces, point_add, point_mul, point_sub, public_key_bytes,
    Point,
};
use crate::scalar::{order, random_scalar, scalar_add, scalar_mul, Scalar};
use vstd::prelude::*;

verus! {

/// A blinded point together with the factor that blinds it. The holder keeps
/// the factor to itself.
#[derive(Clone, Copy)]
pub struct BlindedMessage {
    pub blinded_point: Point,
    pub blind_factor: Scalar,
}

/// A proof that two points have one discrete logarithm with respect to two
/// bases: the challenge `e` and the response `s`.
#[derive(Clone, Copy)]
pub struct DLEQ {
    pub e: Scalar,
    pub s: Scalar,
}

/// The logarithm of `Y + r*G`.
pub open spec fn blinded_log(y: nat, r: nat) -> Option<nat> {
    exponent((y + r) as int)
}

/// The logarithm of `a*B`.
pub open spec fn signed_log(a: nat, b: nat) -> Option<nat> {
    exponent((a * b) as int)
}

/// The logarithm of `C - r*K`.
pub open spec fn unblinded_log(c: nat, r: nat, k: nat) -> Option<nat> {
    exponent(c - r * k)
}

/// The challenge of a proof: the digest of the four encodings, one after
/// the other, reduced modulo the group order.
pub open spec fn dleq_challenge(r1: Seq<u8>, r2: Seq<u8>, a: Seq<u8>, c: Seq<u8>) -> nat {
    be_value(sha256(r1 + r2 + a + c)) % order()
}

/// What signing the point with logarithm `b` under the secret key `a` with
/// the nonce `k` gives: the logarithm of the signature, the challenge and
/// the response. `None` where the challenge or the response comes out zero.
pub open spec fn signing_outcome(a: nat, b: nat, k: nat) -> Option<(nat, nat, nat)> {
    match (exponent((a * b) as int), exponent((k * b) as int)) {
        (Some(c), Some(r2)) => {
            let e = dleq_challenge(
                public_key_bytes(k),
                public_key_bytes(r2),
                public_key_bytes(a),
                public_key_bytes(c),
            );
            let s = (k + e * a) % order();
            if e == 0 || s == 0 {
                None
            } else {
                Some((c, e, s))
            }
        },
        _ => None,
    }
}

/// Whether `(e, s)` proves that the point with logarithm `c` is the point
/// with logarithm `b` times the secret key of the public key with
/// logarithm `a`.
pub open spec fn dleq_holds(b: nat, c: nat, a: nat, e: nat, s: nat) -> bool {
    &&& e != 0
    &&& s != 0
    &&& match (exponent(s - e * a), exponent(s * b - e * c)) {
        (Some(r1), Some(r2)) => dleq_challenge(
            public_key_bytes(r1),
            public_key_bytes(r2),
            public_key_bytes(a),
            public_key_bytes(c),
        ) == e,
        _ => false,
    }
}

/// Blinds `y` with the factor `r`: `y + r*G`. `None` where the factor is
/// zero or the sum is the identity.
pub fn blind_message_with_factor(y: &Point, r: &Scalar) -> (out: Option<BlindedMessage>)
    ensures
        out is Some <==> r@ != 0 && blinded_log(y.log(), r@) is Some,
        out matches Some(m) ==> {
            &&& m.blind_factor@ == r@
            &&& Some(m.blinded_point.log()) == blinded_log(y.log(), r@)
            &&& m.blinded_point.wf()
        },
{
    if r.is_zero() {
        return None;
    }
    proof {
        use_type_invariant(y);
        use_type_invariant(r);
    }
    let r_g = generator_mul(r);
    match point_add(y, &r_g) {
        Some(blinded_point) => Some(BlindedMessage { blinded_point, blind_factor: *r }),
        None => None,
    }
}

/// Blinds `y` with a fresh random factor. `None` where no factor could be
/// drawn or the sum is the identity.
pub fn blind_message(y: &Point) -> (out: Option<BlindedMessage>)
    ensures
        out matches Some(m) ==> {
            &&& m.blind_factor@ != 0
            &&& Some(m.blinded_point.log()) == blinded_log(y.log(), m.blind_factor@)
            &&& m.blinded_point.wf()
        },
{
    match random_scalar() {
        Some(r) => blind_message_with_factor(y, &r),
        None => None,
    }
}

/// Computes the challenge for the four points of a proof.
pub fn compute_challenge(r1: &Point, r2: &Point, a: &Point, c: &Point) -> (e: Scalar)
    ensures
        e@ == dleq_challenge(r1@, r2@, a@, c@),
        e.wf(),
{
    let mut input: Vec<u8> = Vec::new();
    let b1 = r1.serialize();
    append_bytes(&mut input, &b1);
    let b2 = r2.serialize();
    append_bytes(&mut input, &b2);
    let b3 = a.serialize();
    append_bytes(&mut input, &b3);
    let b4 = c.serialize();
    append_bytes(&mut input, &b4);
    assert(input@ =~= r1@ + r2@ + a@ + c@);
    Scalar::from_be_bytes_reduced(sha256_digest(input.as_slice()))
}

/// Signs a blinded point with the secret key `privkey` and proves it with
/// the nonce `nonce`.
///
/// The signature is `C' = privkey*B'`. The proof is `(e, s)` with
/// `e = H(nonce*G, nonce*B', privkey*G, C')` and `s = nonce + e*privkey`.
/// `None` where the key or the nonce is zero, or the challenge or the
/// response comes out zero.
pub fn blind_sign_with_nonce(privkey: &Scalar, blinded_point: &Point, nonce: &Scalar) -> (out:
    Option<(Point, DLEQ)>)
    ensures
        out is Some <==> privkey@ != 0 && nonce@ != 0 && signing_outcome(
            privkey@,
            blinded_point.log(),
            nonce@,
        ) is Some,
        out matches Some((c, proof)) ==> {
            &&& signing_outcome(privkey@, blinded_point.log(), nonce@) == Some(
                (c.log(), proof.e@, proof.s@),
            )
            &&& c.wf()
        },
{
    if privkey.is_zero() || nonce.is_zero() {
        return None;
    }
    proof {
        use_type_invariant(privkey);
        use_type_invariant(nonce);
        use_type_invariant(blinded_point);
    }
    let c_prime = point_mul(blinded_point, privkey);
    let r1 = generator_mul(nonce);
    let r2 = point_mul(blinded_point, nonce);
    let a_pub = generator_mul(privkey);
    let e = compute_challenge(&r1, &r2, &a_pub, &c_prime);
    proof {
        let a = privkey@;
        let b = blinded_point.log();
        let k = nonce@;
        assert(a * b == b * a) by (nonlinear_arith);
        assert(k * b == b * k) by (nonlinear_arith);
        assert(exponent((a * b) as int) == Some(c_prime.log()));
        assert(exponent((k * b) as int) == Some(r2.log()));
        assert(r2@ == public_key_bytes(r2.log()));
        assert(c_prime@ == public_key_bytes(c_prime.log()));
    }
    if e.is_zero() {
        return None;
    }
    let e_a = scalar_mul(&e, privkey);
    proof {
        vstd::arithmetic::div_mod::lemma_add_mod_noop_right(
            nonce@ as int,
            (e@ * privkey@) as int,
            order() as int,
        );
    }
    match scalar_add(nonce, &e_a) {
        Some(s) => Some((c_prime, DLEQ { e, s })),
        None => None,
    }
}

/// Signs a blinded point with the secret key `privkey` and proves it with a
/// fresh random nonce. `None` where no nonce could be drawn, or where
/// [`blind_sign_with_nonce`] gives `None` for the nonce drawn.
pub fn blind_sign(privkey: &Scalar, blinded_point: &Point) -> (out: Option<(Point, DLEQ)>)
    ensures
        out matches Some((c, proof)) ==> {
            &&& privkey@ != 0
            &&& Some(c.log()) == signed_log(privkey@, blinded_point.log())
            &&& dleq_holds(blinded_point.log(), c.log(), privkey@, proof.e@, proof.s@)
            &&& c.wf()
        },
{
    match random_scalar() {
        Some(nonce) => {
            let out = blind_sign_with_nonce(privkey, blinded_point, &nonce);
            proof {
                use_type_invariant(privkey);
                use_type_invariant(&nonce);
                use_type_invariant(blinded_point);
                blinded_point.lemma_log();
                if let Some((c, proof_)) = out {
                    lemma_dleq_complete(privkey@, blinded_point.log(), nonce@);
                }
            }
            out
        },
        None => None,
    }
}

/// Removes the blinding from a signature: `C' - r*K`, where `K` is the
/// public key of the issuer. `None` where the difference is the identity.
pub fn unblind_signature(blind_sig: &Point, blind_factor: &Scalar, mint_pubkey: &Point) -> (out:
    Option<Point>)
    ensures
        out is Some <==> unblinded_log(blind_sig.log(), blind_factor@, mint_pubkey.log()) is Some,
        out matches Some(c) ==> {
            &&& Some(c.log()) == unblinded_log(blind_sig.log(), blind_factor@, mint_pubkey.log())
            &&& c.wf()
        },
{
    proof {
        use_type_invariant(blind_sig);
        use_type_invariant(blind_factor);
        use_type_invariant(mint_pubkey);
        blind_sig.lemma_log();
        mint_pubkey.lemma_log();
    }
    if blind_factor.is_zero() {
        proof {
            assert(blind_factor@ * mint_pubkey.log() == 0) by (nonlinear_arith)
                requires
                    blind_factor@ == 0,
            ;
            vstd::arithmetic::div_mod::lemma_small_mod(blind_sig.log(), order());
        }
        return Some(*blind_sig);
    }
    let r_k = point_mul(mint_pubkey, blind_factor);
    proof {
        assert(mint_pubkey.log() * blind_factor@ == blind_factor@ * mint_pubkey.log())
            by (nonlinear_arith);
        lemma_exponent_reduces(blind_sig.log() as int, (blind_factor@ * mint_pubkey.log()) as int);
    }
    point_sub(blind_sig, &r_k)
}

/// Tells whether `proof` shows that `c_prime` is `b_prime` times the secret
/// key of `a_pub`.
///
/// With `R1 = s*G - e*A` and `R2 = s*B' - e*C'`, the proof is accepted where
/// `H(R1, R2, A, C')` is `e`. It is rejected where `e` or `s` is zero, or
/// `R1` or `R2` is the identity.
pub fn verify_dleq(b_prime: &Point, c_prime: &Point, a_pub: &Point, proof: &DLEQ) -> (ok: bool)
    ensures
        ok == dleq_holds(b_prime.log(), c_prime.log(), a_pub.log(), proof.e@, proof.s@),
{
    if proof.e.is_zero() || proof.s.is_zero() {
        return false;
    }
    proof {
        use_type_invariant(b_prime);
        use_type_invariant(c_prime);
        use_type_invariant(a_pub);
        use_type_invariant(&proof.e);
        use_type_invariant(&proof.s);
        b_prime.lemma_log();
        c_prime.lemma_log();
        a_pub.lemma_log();
    }
    let s_g = generator_mul(&proof.s);
    let e_a = point_mul(a_pub, &proof.e);
    proof {
        assert(a_pub.log() * proof.e@ == proof.e@ * a_pub.log()) by (nonlinear_arith);
        lemma_exponent_reduces(proof.s@ as int, (proof.e@ * a_pub.log()) as int);
    }
    let r1 = match point_sub(&s_g, &e_a) {
        Some(p) => p,
        None => {
            return false;
        },
    };
    let s_b = point_mul(b_prime, &proof.s);
    let e_c = point_mul(c_prime, &proof.e);
    proof {
        assert(b_prime.log() * proof.s@ == proof.s@ * b_prime.log()) by (nonlinear_arith);
        assert(c_prime.log() * proof.e@ == proof.e@ * c_prime.log()) by (nonlinear_arith);
        lemma_exponent_reduces(
            (proof.s@ * b_prime.log()) as int,
            (proof.e@ * c_prime.log()) as int,
        );
    }
    let r2 = match point_sub(&s_b, &e_c) {
        Some(p) => p,
        None => {
            return false;
        },
    };
    proof {
        r1.lemma_log();
        r2.lemma_log();
    }
    let expected = compute_challenge(&r1, &r2, a_pub, c_prime);
    expected.equals(&proof.e)
}

/// Unblinding a signature on a blinded point gives the signature on the
/// point itself: with `B' = Y + r*G`, `C' = a*B'` and `A = a*G`, the point
/// `C' - r*A` is `a*Y`.
pub proof fn lemma_unblind_recovers_signature(y: nat, a: nat, r: nat, b: nat, c: nat)
    requires
        0 < y < order(),
        0 < a < order(),
        r < order(),
        blinded_log(y, r) == Some(b),
        signed_log(a, b) == Some(c),
    ensures
        unblinded_log(c, r, a) == signed_log(a, y),
{
    let n = order() as int;
    let yi = y as int;
    let ai = a as int;
    let ri = r as int;
    assert(b == (yi + ri) % n);
    assert(c == (ai * b) % n);
    vstd::arithmetic::div_mod::lemma_mul_mod_noop_right(ai, yi + ri, n);
    assert(c == (ai * (yi + ri)) % n);
    assert(ai * (yi + ri) == ai * yi + ri * ai) by (nonlinear_arith);
    vstd::arithmetic::div_mod::lemma_sub_mod_noop(ai * yi + ri * ai, ri * ai, n);
    vstd::arithmetic::div_mod::lemma_sub_mod_noop_right(c as int, ri * ai, n);
    assert((c - ri * ai) % n == (ai * yi) % n);
}

/// A proof made by signing is accepted: where signing the point with
/// logarithm `b` under the key `a` with the nonce `k` gives the signature
/// `c` and the proof `(e, s)`, that proof holds of `b`, `c` and the public
/// key of `a`.
pub proof fn lemma_dleq_complete(a: nat, b: nat, k: nat)
    requires
        0 < a < order(),
        0 < b < order(),
        0 < k < order(),
        signing_outcome(a, b, k) is Some,
    ensures
        ({
            let (c, e, s) = signing_outcome(a, b, k).unwrap();
            dleq_holds(b, c, a, e, s)
        }),
{
    let n = order() as int;
    let (c, e, s) = signing_outcome(a, b, k).unwrap();
    let r2 = exponent((k * b) as int).unwrap();
    let ai = a as int;
    let bi = b as int;
    let ki = k as int;
    let ei = e as int;
    let si = s as int;
    let ci = c as int;
    assert(si == (ki + ei * ai) % n);
    assert(ci == (ai * bi) % n);
    // s - e*a is k modulo the order
    vstd::arithmetic::div_mod::lemma_sub_mod_noop(ki + ei * ai, ei * ai, n);
    vstd::arithmetic::div_mod::lemma_sub_mod_noop_right(si, ei * ai, n);
    vstd::arithmetic::div_mod::lemma_small_mod(k, order());
    assert((si - ei * ai) % n == ki);
    // s*b - e*c is k*b modulo the order
    vstd::arithmetic::div_mod::lemma_mul_mod_noop_left(ki + ei * ai, bi, n);
    assert((si * bi) % n == ((ki + ei * ai) * bi) % n);
    vstd::arithmetic::div_mod::lemma_mul_mod_noop_right(ei, ai * bi, n);
    assert((ei * ci) % n == (ei * (ai * bi)) % n);
    vstd::arithmetic::div_mod::lemma_sub_mod_noop(si * bi, ei * ci, n);
    vstd::arithmetic::div_mod::lemma_sub_mod_noop((ki + ei * ai) * bi, ei * (ai * bi), n);
    assert((ki + ei * ai) * bi - ei * (ai * bi) == ki * bi) by (nonlinear_arith);
    assert((si * bi - ei * ci) % n == (ki * bi) % n);
    assert(exponent(si - ei * ai) == Some(k));
    assert(exponent(si * bi - ei * ci) == Some(r2));
}

} // verus!
