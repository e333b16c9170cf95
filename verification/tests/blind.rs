use dmto_ecash::blind::{
    blind_message, blind_message_with_factor, blind_sign, blind_sign_with_nonce, compute_challenge,
    unblind_signature, verify_dleq, DLEQ,
};
use dmto_ecash::hash::hash_to_curve;
use dmto_ecash::mint::{Mint, MintKey};
use dmto_ecash::point::Point;
use dmto_ecash::scalar::{order_bytes, random_scalar, Scalar};
use dmto_ecash::wallet::Wallet;
use sha2::Digest;

const G: &str = "0279be667ef9dcbbac55a06295ce870b07029bfcdb2dce28d959f2815b16f81798";
const TWO_G: &str = "02c6047f9441ed7d6d3045406e95c07cd85c778e4b8cef3ca7abac09b95c709ee5";
const THREE_G: &str = "02f9308a019258c31049344f85f89d5229b531c845836f99b08601f113bce036f9";
const SIX_G: &str = "03fff97bd5755eeea420453a14355235d382f6472f8568a18b2f057a1460297556";
const MINUS_G: &str = "0379be667ef9dcbbac55a06295ce870b07029bfcdb2dce28d959f2815b16f81798";
// the proof for the key 3, the point 2G and the nonce 5
const E: &str = "2fa2e5deaa7645634e39baea5f80d9af6462f426a465ef890d1b55358a334279";
const S: &str = "8ee8b19bff62d029eaad30bf1e828d0e2d28dc73ed31ce9b2751ffa09e99c770";

fn hex(text: &str) -> Vec<u8> {
    (0..text.len() / 2).map(|i| u8::from_str_radix(&text[2 * i..2 * i + 2], 16).unwrap()).collect()
}

fn point(text: &str) -> Point {
    Point::from_slice(&hex(text)).expect("a point")
}

fn scalar(n: u64) -> Scalar {
    let mut bytes = [0u8; 32];
    bytes[24..].copy_from_slice(&n.to_be_bytes());
    Scalar::from_be_bytes(bytes).expect("below the order")
}

fn scalar_hex(text: &str) -> Scalar {
    let mut bytes = [0u8; 32];
    bytes.copy_from_slice(&hex(text));
    Scalar::from_be_bytes(bytes).expect("below the order")
}

fn public_key(secret: &Scalar) -> Point {
    MintKey::from_secret(1, *secret).expect("nonzero key").pubkey()
}

#[test]
fn blinding_adds_the_factor_times_the_generator() {
    let blinded = blind_message_with_factor(&point(G), &scalar(1)).expect("blinded");
    assert_eq!(blinded.blinded_point.serialize().to_vec(), hex(TWO_G));
    assert!(blinded.blind_factor.equals(&scalar(1)));
    let blinded = blind_message_with_factor(&point(TWO_G), &scalar(4)).expect("blinded");
    assert_eq!(blinded.blinded_point.serialize().to_vec(), hex(SIX_G));
}

#[test]
fn blinding_with_zero_is_refused() {
    assert!(blind_message_with_factor(&point(G), &scalar(0)).is_none());
}

#[test]
fn blinding_to_the_identity_is_refused() {
    assert!(blind_message_with_factor(&point(MINUS_G), &scalar(1)).is_none());
    let mut bytes = order_bytes();
    bytes[31] = 0x40;
    let minus_one = Scalar::from_be_bytes(bytes).expect("order minus one");
    assert!(blind_message_with_factor(&point(G), &minus_one).is_none());
}

#[test]
fn blinding_draws_a_fresh_factor_each_time() {
    let y = hash_to_curve(b"fresh factors").expect("a point");
    let first = blind_message(&y).expect("blinded");
    let second = blind_message(&y).expect("blinded");
    assert!(!first.blind_factor.is_zero());
    assert!(!second.blind_factor.is_zero());
    assert!(!first.blind_factor.equals(&second.blind_factor));
    assert!(!first.blinded_point.equals(&second.blinded_point));
    assert!(!first.blinded_point.equals(&y));
    let again = blind_message_with_factor(&y, &first.blind_factor).expect("blinded");
    assert!(again.blinded_point.equals(&first.blinded_point));
}

#[test]
fn challenge_is_the_reduced_digest_of_the_four_encodings() {
    // R1 = 5G, R2 = 5 * 2G, A = 3G, C' = 3 * 2G
    let r1 = public_key(&scalar(5));
    let r2 = public_key(&scalar(10));
    let e = compute_challenge(&r1, &r2, &point(THREE_G), &point(SIX_G));
    assert_eq!(e.to_be_bytes().to_vec(), hex(E));
    let swapped = compute_challenge(&r2, &r1, &point(THREE_G), &point(SIX_G));
    assert!(!swapped.equals(&e));
}

#[test]
fn signing_with_a_nonce_gives_the_known_signature_and_proof() {
    let (signature, proof) =
        blind_sign_with_nonce(&scalar(3), &point(TWO_G), &scalar(5)).expect("signed");
    assert_eq!(signature.serialize().to_vec(), hex(SIX_G));
    assert_eq!(proof.e.to_be_bytes().to_vec(), hex(E));
    assert_eq!(proof.s.to_be_bytes().to_vec(), hex(S));
}

#[test]
fn signing_refuses_a_zero_key_or_nonce() {
    assert!(blind_sign_with_nonce(&scalar(0), &point(TWO_G), &scalar(5)).is_none());
    assert!(blind_sign_with_nonce(&scalar(3), &point(TWO_G), &scalar(0)).is_none());
    assert!(blind_sign(&scalar(0), &point(TWO_G)).is_none());
}

#[test]
fn proof_of_signing_is_accepted() {
    let proof = DLEQ { e: scalar_hex(E), s: scalar_hex(S) };
    assert!(verify_dleq(&point(TWO_G), &point(SIX_G), &point(THREE_G), &proof));
    let (signature, proof) =
        blind_sign_with_nonce(&scalar(3), &point(TWO_G), &scalar(5)).expect("signed");
    assert!(verify_dleq(&point(TWO_G), &signature, &point(THREE_G), &proof));
}

#[test]
fn proof_is_bound_to_the_three_points() {
    let proof = DLEQ { e: scalar_hex(E), s: scalar_hex(S) };
    assert!(!verify_dleq(&point(G), &point(SIX_G), &point(THREE_G), &proof));
    assert!(!verify_dleq(&point(TWO_G), &point(THREE_G), &point(THREE_G), &proof));
    assert!(!verify_dleq(&point(TWO_G), &point(SIX_G), &point(TWO_G), &proof));
    assert!(!verify_dleq(&point(TWO_G), &point(SIX_G), &point(MINUS_G), &proof));
}

#[test]
fn altered_proof_is_rejected() {
    let e = scalar_hex(E);
    let s = scalar_hex(S);
    let b = point(TWO_G);
    let c = point(SIX_G);
    let a = point(THREE_G);
    assert!(!verify_dleq(&b, &c, &a, &DLEQ { e: s, s: e }));
    assert!(!verify_dleq(&b, &c, &a, &DLEQ { e, s: scalar(1) }));
    assert!(!verify_dleq(&b, &c, &a, &DLEQ { e: scalar(1), s }));
    assert!(!verify_dleq(&b, &c, &a, &DLEQ { e: scalar(0), s }));
    assert!(!verify_dleq(&b, &c, &a, &DLEQ { e, s: scalar(0) }));
    assert!(!verify_dleq(&b, &c, &a, &DLEQ { e: scalar(0), s: scalar(0) }));
}

#[test]
fn proof_with_a_response_that_cancels_is_rejected() {
    // s*G - e*A is the identity where s = 3e for the key 3
    let e = scalar(7);
    let s = scalar(21);
    assert!(!verify_dleq(&point(TWO_G), &point(SIX_G), &point(THREE_G), &DLEQ { e, s }));
    // s*B' - e*C' is the identity where C' = G, B' = 2G and s = e/2: e = 2, s = 1
    let proof = DLEQ { e: scalar(2), s: scalar(1) };
    assert!(!verify_dleq(&point(TWO_G), &point(G), &point(THREE_G), &proof));
}

#[test]
fn signature_under_another_key_does_not_pass() {
    let blinded = point(TWO_G);
    let (signature, proof) = blind_sign(&scalar(4), &blinded).expect("signed");
    assert!(verify_dleq(&blinded, &signature, &public_key(&scalar(4)), &proof));
    assert!(!verify_dleq(&blinded, &signature, &public_key(&scalar(3)), &proof));
    let (other, _) = blind_sign(&scalar(3), &blinded).expect("signed");
    assert!(!verify_dleq(&blinded, &other, &public_key(&scalar(4)), &proof));
}

#[test]
fn signing_twice_gives_one_signature_and_two_proofs() {
    let blinded = hash_to_curve(b"sign me twice").expect("a point");
    let key = scalar(0x1234_5678_9abc_def0);
    let (first, first_proof) = blind_sign(&key, &blinded).expect("signed");
    let (second, second_proof) = blind_sign(&key, &blinded).expect("signed");
    assert!(first.equals(&second));
    assert!(!first_proof.e.equals(&second_proof.e));
    assert!(!first_proof.s.equals(&second_proof.s));
    assert!(verify_dleq(&blinded, &first, &public_key(&key), &first_proof));
    assert!(verify_dleq(&blinded, &second, &public_key(&key), &second_proof));
}

#[test]
fn unblinding_subtracts_the_factor_times_the_key() {
    let unblinded = unblind_signature(&point(SIX_G), &scalar(1), &point(THREE_G)).expect("a point");
    assert_eq!(unblinded.serialize().to_vec(), hex(THREE_G));
    let unblinded = unblind_signature(&point(SIX_G), &scalar(2), &point(TWO_G)).expect("a point");
    assert_eq!(unblinded.serialize().to_vec(), hex(TWO_G));
}

#[test]
fn unblinding_with_zero_changes_nothing() {
    let unblinded = unblind_signature(&point(SIX_G), &scalar(0), &point(THREE_G)).expect("a point");
    assert_eq!(unblinded.serialize().to_vec(), hex(SIX_G));
}

#[test]
fn unblinding_to_the_identity_is_refused() {
    assert!(unblind_signature(&point(G), &scalar(1), &point(G)).is_none());
    assert!(unblind_signature(&point(SIX_G), &scalar(3), &point(TWO_G)).is_none());
}

#[test]
fn unblinded_signature_is_the_signature_on_the_point() {
    let secrets: [&[u8]; 3] = [b"first", b"second", b"third"];
    for (n, secret) in secrets.iter().enumerate() {
        let denomination = 1u64 << n;
        let secret_key = random_scalar().expect("a scalar");
        let key = MintKey::from_secret(denomination, secret_key).expect("nonzero key");
        let mint = Mint::with_keys(&[key]);
        // what the issuer signs when it is handed the point itself
        let mut wallet = Wallet::new();
        assert!(wallet.mint_note_with_secret(&mint, denomination, secret.to_vec()));
        let expected = wallet.notes[0].c;

        let y = hash_to_curve(secret).expect("a point");
        let blinded = blind_message(&y).expect("blinded");
        let (signature, proof) = blind_sign(&secret_key, &blinded.blinded_point).expect("signed");
        assert!(verify_dleq(&blinded.blinded_point, &signature, &key.pubkey(), &proof));
        let unblinded =
            unblind_signature(&signature, &blinded.blind_factor, &key.pubkey()).expect("a point");
        assert!(unblinded.equals(&expected));
        assert!(!signature.equals(&expected));
    }
}

#[test]
fn round_trip_with_small_numbers() {
    // Y = 2G, r = 4, a = 3: B' = 6G, C' = 18G, A = 3G, C = 18G - 12G = 6G = 3 * 2G
    let blinded = blind_message_with_factor(&point(TWO_G), &scalar(4)).expect("blinded");
    let (signature, proof) =
        blind_sign_with_nonce(&scalar(3), &blinded.blinded_point, &scalar(9)).expect("signed");
    assert!(signature.equals(&public_key(&scalar(18))));
    assert!(verify_dleq(&blinded.blinded_point, &signature, &point(THREE_G), &proof));
    let unblinded =
        unblind_signature(&signature, &blinded.blind_factor, &point(THREE_G)).expect("a point");
    assert_eq!(unblinded.serialize().to_vec(), hex(SIX_G));
}

fn from_key(key: &secp256k1::SecretKey) -> Scalar {
    Scalar::from_be_bytes(key.secret_bytes()).expect("a secret key is below the order")
}

fn to_point(key: &secp256k1::PublicKey) -> Point {
    Point::from_slice(&key.serialize()).expect("a public key is a point")
}

#[test]
fn blinded_point_is_the_public_key_of_the_sum() {
    let secp = secp256k1::Secp256k1::new();
    for _ in 0..16 {
        let y = secp256k1::SecretKey::new(&mut rand::thread_rng());
        let r = secp256k1::SecretKey::new(&mut rand::thread_rng());
        let sum = y.add_tweak(&secp256k1::Scalar::from(r)).expect("a nonzero sum");
        let expected = secp256k1::PublicKey::from_secret_key(&secp, &sum);
        let blinded = blind_message_with_factor(&public_key(&from_key(&y)), &from_key(&r))
            .expect("blinded");
        assert_eq!(blinded.blinded_point.serialize(), expected.serialize());
    }
}

#[test]
fn signature_is_the_public_key_of_the_product() {
    let secp = secp256k1::Secp256k1::new();
    for _ in 0..16 {
        let a = secp256k1::SecretKey::new(&mut rand::thread_rng());
        let b = secp256k1::SecretKey::new(&mut rand::thread_rng());
        let k = secp256k1::SecretKey::new(&mut rand::thread_rng());
        let product = b.mul_tweak(&secp256k1::Scalar::from(a)).expect("a product");
        let expected = secp256k1::PublicKey::from_secret_key(&secp, &product);
        let blinded = to_point(&secp256k1::PublicKey::from_secret_key(&secp, &b));
        let (signature, proof) =
            blind_sign_with_nonce(&from_key(&a), &blinded, &from_key(&k)).expect("signed");
        assert_eq!(signature.serialize(), expected.serialize());
        // the response is the nonce plus the challenge times the key
        let e = secp256k1::SecretKey::from_slice(&proof.e.to_be_bytes()).expect("a challenge");
        let e_a = e.mul_tweak(&secp256k1::Scalar::from(a)).expect("a product");
        let s = k.add_tweak(&secp256k1::Scalar::from(e_a)).expect("a sum");
        assert_eq!(proof.s.to_be_bytes(), s.secret_bytes());
        assert!(verify_dleq(&blinded, &signature, &public_key(&from_key(&a)), &proof));
    }
}

#[test]
fn unblinded_point_is_the_public_key_of_the_difference() {
    let secp = secp256k1::Secp256k1::new();
    for _ in 0..16 {
        let c = secp256k1::SecretKey::new(&mut rand::thread_rng());
        let r = secp256k1::SecretKey::new(&mut rand::thread_rng());
        let k = secp256k1::SecretKey::new(&mut rand::thread_rng());
        let r_k = r.mul_tweak(&secp256k1::Scalar::from(k)).expect("a product");
        let difference =
            c.add_tweak(&secp256k1::Scalar::from(r_k.negate())).expect("a nonzero difference");
        let expected = secp256k1::PublicKey::from_secret_key(&secp, &difference);
        let unblinded = unblind_signature(
            &public_key(&from_key(&c)),
            &from_key(&r),
            &public_key(&from_key(&k)),
        )
        .expect("a point");
        assert_eq!(unblinded.serialize(), expected.serialize());
    }
}

#[test]
fn challenge_agrees_with_sha2() {
    let points = [point(G), point(TWO_G), point(THREE_G), point(SIX_G)];
    let mut input = Vec::new();
    for p in &points {
        input.extend_from_slice(&p.serialize());
    }
    let digest: [u8; 32] = sha2::Sha256::digest(&input).into();
    let expected = Scalar::from_be_bytes_reduced(digest);
    let e = compute_challenge(&points[0], &points[1], &points[2], &points[3]);
    assert!(e.equals(&expected));
    assert_eq!(e.to_be_bytes(), digest);
}
