//! Chaumian e-cash over secp256k1.
//!
//! An issuer holds one key pair for each denomination. A note is a secret of
//! its holder together with the issuer's signature on the point that the
//! secret is hashed to. A holder has notes issued by a blind swap: the issuer
//! redeems old notes and signs blinded points of the same total value,
//! without learning which notes come of it, and proves each signature by a
//! proof of discrete-logarithm equality.
//!
//! - [`encoding`]: big-endian byte strings as numbers
//! - [`scalar`], [`point`]: the group, as libsecp256k1 computes it
//! - [`hash`]: SHA-256 and the map from secrets to points
//! - [`blind`]: blinding, signing, unblinding, and the proof
//! - [`types`], [`ledger`], [`mint`], [`wallet`]: notes, the issuer and the
//!   holder
//!
//! Group arithmetic, SHA-256, random numbers and the set behind the ledger
//! come from other crates. Each call into them is made by one private
//! function marked as trusted, whose contract says what is taken on trust of
//! that call. Everything else is proved, and no function of this library
//! panics: what can fail returns `None` or `false`.

pub mod blind;
pub mod encoding;
pub mod hash;
pub mod ledger;
pub mod mint;
pub mod point;
pub mod scalar;
pub mod types;
pub mod wallet;
