//! The ledger of the issuer: the set of secrets that were redeemed.
//!
//! The secrets are kept in a `dashmap::DashSet`. A [`Ledger`] is changed
//! through an exclusive reference only, so that looking a secret up and
//! recording it cannot be torn apart by another caller.

use dashmap::DashSet;
use vstd::prelude::*;

verus! {

/// `dashmap::DashSet`, of which nothing but [`set_contents`] is known.
#[verifier::external_type_specification]
#[verifier::external_body]
#[verifier::reject_recursive_types(K)]
#[verifier::reject_recursive_types(S)]
pub struct ExDashSet<K, S>(DashSet<K, S>);

/// The byte strings that a `dashmap::DashSet` of byte vectors holds.
pub uninterp spec fn set_contents(set: DashSet<Vec<u8>>) -> Set<Seq<u8>>;

/// An empty set.
///
/// Trusted: calls `dashmap::DashSet::new`, which makes a set without keys.
#[verifier::external_body]
fn set_new() -> (set: DashSet<Vec<u8>>)
    ensures
        set_contents(set) == Set::<Seq<u8>>::empty(),
{
    DashSet::new()
}

/// Tells whether the set holds `key`.
///
/// Trusted: calls `dashmap::DashSet::contains`, documented as checking
/// whether the set contains the key.
#[verifier::external_body]
fn set_contains(set: &DashSet<Vec<u8>>, key: &[u8]) -> (found: bool)
    ensures
        found == set_contents(*set).contains(key@),
{
    set.contains(key)
}

/// Puts `key` into the set and tells whether it was new.
///
/// Trusted: calls `dashmap::DashSet::insert`, documented as inserting the
/// key and returning true if the key was not already in the set.
#[verifier::external_body]
fn set_insert(set: &mut DashSet<Vec<u8>>, key: Vec<u8>) -> (fresh: bool)
    ensures
        fresh == !set_contents(*old(set)).contains(key@),
        set_contents(*final(set)) == set_contents(*old(set)).insert(key@),
{
    set.insert(key)
}

/// The secrets that were redeemed.
pub struct Ledger {
    spent: DashSet<Vec<u8>>,
}

impl View for Ledger {
    type V = Set<Seq<u8>>;

    /// The set of redeemed secrets.
    closed spec fn view(&self) -> Set<Seq<u8>> {
        set_contents(self.spent)
    }
}

impl Ledger {
    /// A ledger with no secret in it.
    pub fn new() -> (ledger: Ledger)
        ensures
            ledger@ == Set::<Seq<u8>>::empty(),
    {
        Ledger { spent: set_new() }
    }

    /// Tells whether the secret was redeemed.
    pub fn contains(&self, secret: &[u8]) -> (found: bool)
        ensures
            found == self@.contains(secret@),
    {
        set_contains(&self.spent, secret)
    }

    /// Records the secret as redeemed and tells whether it was not
    /// redeemed before: check and insertion are one step.
    pub fn insert_if_absent(&mut self, secret: Vec<u8>) -> (fresh: bool)
        ensures
            fresh == !old(self)@.contains(secret@),
            final(self)@ == old(self)@.insert(secret@),
    {
        set_insert(&mut self.spent, secret)
    }
}

} // verus!
