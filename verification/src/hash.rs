//! SHA-256 and the map from a secret to a point of the curve.

use crate::encoding::{append_bytes, be_value, u32_be, u32_to_be};
use crate::point::{generator_mul, public_key_bytes, Point};
use crate::scalar::{order, scalar_from_candidate};
use vstd::prelude::*;

verus! {

/// The SHA-256 digest of a byte string: 32 bytes.
pub uninterp spec fn sha256(data: Seq<u8>) -> Seq<u8>;

/// The SHA-256 digest of `data`.
///
/// Trusted: calls `sha2::Digest::digest` for `sha2::Sha256`, which hashes the
/// bytes handed to it in one piece. The result is named by [`sha256`].
#[verifier::external_body]
pub(crate) fn sha256_digest(data: &[u8]) -> (r: [u8; 32])
    ensures
        r@ == sha256(data@),
{
    let digest = <sha2::Sha256 as sha2::Digest>::digest(data);
    digest.into()
}

/// How many counters [`hash_to_curve`] tries before it gives up.
pub const MAX_HASH_ATTEMPTS: u32 = 65536;

/// The tag that sets this hash apart from every other use of SHA-256 in the
/// protocol: the ASCII bytes of `ecash_hash_to_curve`.
pub open spec fn domain_tag() -> Seq<u8> {
    seq![
        0x65u8, 0x63, 0x61, 0x73, 0x68, 0x5f, 0x68, 0x61, 0x73, 0x68, 0x5f, 0x74, 0x6f, 0x5f, 0x63,
        0x75, 0x72, 0x76, 0x65,
    ]
}

/// What is hashed for a secret at a counter: the tag, the secret, and the
/// counter as four big-endian bytes.
pub open spec fn hash_input(secret: Seq<u8>, counter: u32) -> Seq<u8> {
    domain_tag() + secret + u32_be(counter)
}

/// The number that the digest for a secret at a counter denotes.
pub open spec fn candidate(secret: Seq<u8>, counter: u32) -> nat {
    be_value(sha256(hash_input(secret, counter)))
}

/// Whether `counter` is the first counter at which the digest is a valid
/// secret key, nonzero and below the group order.
pub open spec fn is_accepted_counter(secret: Seq<u8>, counter: u32) -> bool {
    &&& counter < MAX_HASH_ATTEMPTS
    &&& 0 < candidate(secret, counter) < order()
    &&& forall|earlier: u32|
        earlier < counter ==> !(0 < #[trigger] candidate(secret, earlier) < order())
}

/// The discrete logarithm of the point that a secret is hashed to; `None`
/// where no counter below [`MAX_HASH_ATTEMPTS`] gives a valid secret key.
pub open spec fn hash_to_curve_log(secret: Seq<u8>) -> Option<nat> {
    if exists|counter: u32| is_accepted_counter(secret, counter) {
        Some(candidate(secret, choose|counter: u32| is_accepted_counter(secret, counter)))
    } else {
        None
    }
}

/// Builds the bytes that are hashed for a secret at a counter.
pub fn build_hash_input(secret: &[u8], counter: u32) -> (r: Vec<u8>)
    ensures
        r@ == hash_input(secret@, counter),
{
    let tag: [u8; 19] = [
        0x65, 0x63, 0x61, 0x73, 0x68, 0x5f, 0x68, 0x61, 0x73, 0x68, 0x5f, 0x74, 0x6f, 0x5f, 0x63,
        0x75, 0x72, 0x76, 0x65,
    ];
    assert(tag@ =~= domain_tag());
    let mut input: Vec<u8> = Vec::new();
    append_bytes(&mut input, &tag);
    append_bytes(&mut input, secret);
    let counter_bytes = u32_to_be(counter);
    append_bytes(&mut input, &counter_bytes);
    assert(input@ =~= hash_input(secret@, counter));
    input
}

/// Maps a secret to a point of the curve.
///
/// The secret is hashed, together with a counter that starts at zero, until
/// the digest is a valid secret key; the point is the public key of that
/// key. `None` where no counter below [`MAX_HASH_ATTEMPTS`] gives one.
pub fn hash_to_curve(secret: &[u8]) -> (r: Option<Point>)
    ensures
        r is Some <==> hash_to_curve_log(secret@) is Some,
        r matches Some(p) ==> {
            &&& p.log() == hash_to_curve_log(secret@).unwrap()
            &&& p@ == public_key_bytes(p.log())
            &&& p.wf()
        },
{
    let mut counter: u32 = 0;
    while counter < MAX_HASH_ATTEMPTS
        invariant
            counter <= MAX_HASH_ATTEMPTS,
            forall|earlier: u32|
                earlier < counter ==> !(0 < #[trigger] candidate(secret@, earlier) < order()),
        decreases MAX_HASH_ATTEMPTS - counter,
    {
        let input = build_hash_input(secret, counter);
        let digest = sha256_digest(input.as_slice());
        match scalar_from_candidate(digest) {
            Some(key) => {
                let point = generator_mul(&key);
                proof {
                    assert(is_accepted_counter(secret@, counter));
                    let chosen = choose|c: u32| is_accepted_counter(secret@, c);
                    assert(is_accepted_counter(secret@, chosen));
                    assert(chosen == counter);
                }
                return Some(point);
            },
            None => {},
        }
        counter = counter + 1;
    }
    proof {
        assert forall|c: u32| !is_accepted_counter(secret@, c) by {
            if c < MAX_HASH_ATTEMPTS {
                assert(!(0 < candidate(secret@, c) < order()));
            }
        }
    }
    None
}

} // verus!
