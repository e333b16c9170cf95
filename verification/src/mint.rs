//! The issuer: one key pair for each denomination, and the ledger of
//! redeemed secrets.
//!
//! What the issuer knows is modelled by [`MintState`]: the secret key of each
//! denomination and the set of redeemed secrets. Every operation says how it
//! changes that state. An operation on several notes either goes through for
//! all of them or changes nothing.

use crate::blind::{blind_sign_with_nonce, dleq_holds, lemma_dleq_complete, signed_log, signing_outcome, DLEQ};
use crate::encoding::{bytes_equal, copy_bytes};
use crate::hash::hash_to_curve_log;
use crate::ledger::Ledger;
use crate::point::{generator_mul, point_mul, Point};
use crate::scalar::{order, random_scalar, random_secret_key, Scalar};
use crate::types::{holds_secret, secrets_distinct, total_value, Note};
use std::collections::HashMap;
use vstd::prelude::*;

verus! {

broadcast use vstd::std_specs::hash::group_hash_axioms;

/// The key pair of one denomination.
#[derive(Clone, Copy)]
pub struct MintKey {
    value: u64,
    privkey: Scalar,
    pubkey: Point,
}

impl MintKey {
    /// The denomination that the key signs.
    pub closed spec fn denomination(self) -> u64 {
        self.value
    }

    /// The secret key.
    pub closed spec fn secret(self) -> nat {
        self.privkey@
    }

    /// The public key.
    pub closed spec fn public(self) -> Point {
        self.pubkey
    }

    /// The secret key is a nonzero scalar, and the public key is the
    /// generator times the secret key.
    #[verifier::type_invariant]
    pub open spec fn wf(self) -> bool {
        &&& 0 < self.secret() < order()
        &&& self.public().wf()
        &&& self.public().log() == self.secret()
    }

    /// The key pair of the secret key `privkey` for the denomination
    /// `value`; `None` where the secret key is zero.
    pub fn from_secret(value: u64, privkey: Scalar) -> (r: Option<MintKey>)
        ensures
            r is Some <==> privkey@ != 0,
            r matches Some(key) ==> {
                &&& key.denomination() == value
                &&& key.secret() == privkey@
                &&& key.wf()
            },
    {
        if privkey.is_zero() {
            return None;
        }
        proof {
            use_type_invariant(&privkey);
        }
        let pubkey = generator_mul(&privkey);
        Some(MintKey { value, privkey, pubkey })
    }

    /// A fresh random key pair for the denomination `value`.
    pub fn new(value: u64) -> (key: MintKey)
        ensures
            key.denomination() == value,
            key.wf(),
    {
        let privkey = random_secret_key();
        let pubkey = generator_mul(&privkey);
        MintKey { value, privkey, pubkey }
    }

    /// The secret key.
    pub(crate) fn privkey(&self) -> (r: &Scalar)
        ensures
            r@ == self.secret(),
            r.wf(),
            r@ != 0,
    {
        proof {
            use_type_invariant(self);
        }
        &self.privkey
    }

    /// The denomination that the key signs.
    pub fn value(&self) -> (r: u64)
        ensures
            r == self.denomination(),
    {
        self.value
    }

    /// The public key.
    pub fn pubkey(&self) -> (r: Point)
        ensures
            r == self.public(),
            r.wf(),
            r.log() == self.secret(),
    {
        proof {
            use_type_invariant(self);
        }
        self.pubkey
    }

    /// The x coordinate of the public key: its compressed encoding without
    /// the first byte, which holds the parity of the y coordinate.
    pub fn xonly_pubkey(&self) -> (r: [u8; 32])
        ensures
            r@ == self.public()@.subrange(1, 33),
    {
        let encoded = self.pubkey.serialize();
        let mut r: [u8; 32] = [0u8; 32];
        let mut i: usize = 0;
        while i < 32
            invariant
                i <= 32,
                encoded@ == self.public()@,
                forall|j: int| 0 <= j < i ==> r@[j] == encoded@[j + 1],
            decreases 32 - i,
        {
            r[i] = encoded[i + 1];
            i = i + 1;
        }
        assert(r@ =~= self.public()@.subrange(1, 33));
        r
    }
}

/// What the issuer knows: the secret key of each denomination and the
/// secrets that were redeemed.
pub struct MintState {
    pub keys: Map<u64, nat>,
    pub spent: Set<Seq<u8>>,
}

impl MintState {
    /// Every secret key is a nonzero scalar.
    pub open spec fn wf(self) -> bool {
        forall|v: u64| self.keys.contains_key(v) ==> 0 < #[trigger] self.keys[v] < order()
    }

    /// Whether the note bears the signature of the issuer: its denomination
    /// has a key, and its signature is that key times its point.
    pub open spec fn is_signed(self, note: Note) -> bool {
        &&& self.keys.contains_key(note.value)
        &&& signed_log(self.keys[note.value], note.y.log()) == Some(note.c.log())
    }

    /// Whether the note would be redeemed: its point is the point of its
    /// secret, it bears the signature of the issuer, and its secret was not
    /// redeemed before. So whether a note is redeemed rests on its
    /// denomination, its secret and its signature alone.
    pub open spec fn accepts(self, note: Note) -> bool {
        &&& note.wf()
        &&& self.is_signed(note)
        &&& !self.spent.contains(note.secret@)
    }

    /// The state after the note was redeemed.
    pub open spec fn spend(self, note: Note) -> MintState {
        MintState { keys: self.keys, spent: self.spent.insert(note.secret@) }
    }

    /// Whether each of the notes would be redeemed, one after the other:
    /// each is accepted as the state stands, and no two share a secret.
    pub open spec fn accepts_all(self, notes: Seq<Note>) -> bool {
        &&& secrets_distinct(notes)
        &&& forall|i: int| 0 <= i < notes.len() ==> self.accepts(#[trigger] notes[i])
    }

    /// The state after all the notes were redeemed.
    pub open spec fn spend_all(self, notes: Seq<Note>) -> MintState {
        MintState {
            keys: self.keys,
            spent: Set::new(|s: Seq<u8>| self.spent.contains(s) || holds_secret(notes, s)),
        }
    }

    /// Whether the issuer has a key for the denomination of each request.
    pub open spec fn knows_all(self, outputs: Seq<(u64, Point)>) -> bool {
        forall|i: int| 0 <= i < outputs.len() ==> self.keys.contains_key((#[trigger] outputs[i]).0)
    }

    /// Whether a swap of the notes for the requests goes ahead: the values
    /// match, each request has a key, and each note would be redeemed.
    pub open spec fn swap_allowed(self, inputs: Seq<Note>, outputs: Seq<(u64, Point)>) -> bool {
        &&& total_value(inputs) == total_requested(outputs)
        &&& self.knows_all(outputs)
        &&& self.accepts_all(inputs)
    }

    /// What signing a request with a nonce gives (see [`signing_outcome`]):
    /// nothing where the nonce is zero.
    pub open spec fn signature(self, output: (u64, Point), nonce: Scalar) -> Option<
        (nat, nat, nat),
    > {
        if nonce@ == 0 {
            None
        } else {
            signing_outcome(self.keys[output.0], output.1.log(), nonce@)
        }
    }

    /// Whether each request can be signed with the nonce at its position.
    pub open spec fn signs_all(self, outputs: Seq<(u64, Point)>, nonces: Seq<Scalar>) -> bool {
        &&& nonces.len() == outputs.len()
        &&& forall|i: int|
            0 <= i < outputs.len() ==> (#[trigger] self.signature(outputs[i], nonces[i])) is Some
    }

    /// Whether `signed` is the signature on the request, with the proof
    /// that the nonce gives.
    pub open spec fn is_signature(
        self,
        output: (u64, Point),
        nonce: Scalar,
        signed: (Point, DLEQ),
    ) -> bool {
        &&& self.signature(output, nonce) == Some((signed.0.log(), signed.1.e@, signed.1.s@))
        &&& signed.0.wf()
    }

    /// Whether `signed` is the signature on the request, with a proof that
    /// holds.
    pub open spec fn is_proved_signature(self, output: (u64, Point), signed: (Point, DLEQ)) -> bool {
        &&& signed_log(self.keys[output.0], output.1.log()) == Some(signed.0.log())
        &&& dleq_holds(
            output.1.log(),
            signed.0.log(),
            self.keys[output.0],
            signed.1.e@,
            signed.1.s@,
        )
        &&& signed.0.wf()
    }
}

/// The sum of the denominations that are requested.
pub open spec fn total_requested(outputs: Seq<(u64, Point)>) -> nat
    decreases outputs.len(),
{
    if outputs.len() == 0 {
        0
    } else {
        total_requested(outputs.drop_last()) + outputs.last().0 as nat
    }
}

/// The key pairs as a map, a later one replacing an earlier one of the same
/// denomination.
pub open spec fn registry_of(keys: Seq<MintKey>) -> Map<u64, nat>
    decreases keys.len(),
{
    if keys.len() == 0 {
        Map::empty()
    } else {
        registry_of(keys.drop_last()).insert(keys.last().denomination(), keys.last().secret())
    }
}

/// A secret is redeemed once: after a note was redeemed, no note with its
/// secret is accepted, whatever else the note holds.
pub proof fn lemma_redeemed_once(state: MintState, first: Note, second: Note)
    requires
        second.secret@ == first.secret@,
    ensures
        !state.spend(first).accepts(second),
{
}

/// A signature is bound to the secret it was made for: a note that carries
/// the point and the signature of another note, under a secret whose point
/// is not that point, is accepted neither before nor after the other note
/// was redeemed. One signature cannot be redeemed again under new secrets.
pub proof fn lemma_signature_is_bound_to_secret(state: MintState, first: Note, second: Note)
    requires
        second.value == first.value,
        second.y == first.y,
        second.c == first.c,
        hash_to_curve_log(second.secret@) != Some(first.y.log()),
    ensures
        !state.accepts(second),
        !state.spend(first).accepts(second),
{
}

/// What was redeemed stays redeemed: a note whose secret is in the ledger is
/// accepted neither now nor after any further notes were redeemed.
pub proof fn lemma_spent_stays_spent(state: MintState, note: Note, more: Seq<Note>)
    requires
        state.spent.contains(note.secret@),
    ensures
        !state.accepts(note),
        !state.spend_all(more).accepts(note),
{
}

/// Redeeming changes no key, and so never the answer to whether a note
/// bears the signature of the issuer.
pub proof fn lemma_keys_do_not_change(state: MintState, notes: Seq<Note>, note: Note)
    ensures
        state.spend_all(notes).keys == state.keys,
        state.spend_all(notes).is_signed(note) == state.is_signed(note),
{
}

/// Redeeming notes one after the other is redeeming them all: the state
/// after one more note is the state after the others, with that note
/// redeemed.
pub proof fn lemma_spend_all_push(state: MintState, notes: Seq<Note>, note: Note)
    ensures
        state.spend_all(notes.push(note)) == state.spend_all(notes).spend(note),
        state.spend_all(Seq::<Note>::empty()) == state,
{
    let joined = state.spend_all(notes.push(note));
    let stepped = state.spend_all(notes).spend(note);
    assert forall|s: Seq<u8>| joined.spent.contains(s) == stepped.spent.contains(s) by {
        if holds_secret(notes.push(note), s) {
            let a = choose|a: int|
                0 <= a < notes.push(note).len() && notes.push(note)[a].secret@ == s;
            if a < notes.len() {
                assert(notes[a].secret@ == s);
            }
        }
        if holds_secret(notes, s) {
            let a = choose|a: int| 0 <= a < notes.len() && notes[a].secret@ == s;
            assert(notes.push(note)[a].secret@ == s);
        }
        if s == note.secret@ {
            assert(notes.push(note)[notes.len() as int].secret@ == s);
        }
    }
    assert(joined.spent =~= stepped.spent);
    assert(state.spend_all(Seq::<Note>::empty()).spent =~= state.spent);
}

/// Among notes that would be redeemed one after the other, redeeming the
/// first ones leaves the next one acceptable.
pub proof fn lemma_next_is_accepted(state: MintState, notes: Seq<Note>, i: int)
    requires
        state.accepts_all(notes),
        0 <= i < notes.len(),
    ensures
        state.spend_all(notes.take(i)).accepts(notes[i]),
{
    if holds_secret(notes.take(i), notes[i].secret@) {
        let a = choose|a: int|
            0 <= a < notes.take(i).len() && notes.take(i)[a].secret@ == notes[i].secret@;
        assert(notes[a].secret@ == notes[i].secret@);
    }
}

/// Adds up the values of the notes.
pub fn sum_note_values(notes: &[Note]) -> (sum: u128)
    ensures
        sum == total_value(notes@),
{
    let n = notes.len();
    let mut sum: u128 = 0;
    let mut i: usize = 0;
    assert(notes@.take(0).len() == 0);
    while i < n
        invariant
            n == notes@.len(),
            i <= n,
            sum == total_value(notes@.take(i as int)),
            sum <= i * 0xFFFF_FFFF_FFFF_FFFF,
        decreases n - i,
    {
        proof {
            let next = i + 1;
            assert(notes@.take(next).drop_last() =~= notes@.take(i as int));
            assert(notes@.take(next).last() == notes@[i as int]);
        }
        sum = sum + notes[i].value as u128;
        i = i + 1;
    }
    assert(notes@.take(n as int) =~= notes@);
    sum
}

/// Adds up the denominations that are requested.
pub fn sum_requested(outputs: &[(u64, Point)]) -> (sum: u128)
    ensures
        sum == total_requested(outputs@),
{
    let n = outputs.len();
    let mut sum: u128 = 0;
    let mut i: usize = 0;
    assert(outputs@.take(0).len() == 0);
    while i < n
        invariant
            n == outputs@.len(),
            i <= n,
            sum == total_requested(outputs@.take(i as int)),
            sum <= i * 0xFFFF_FFFF_FFFF_FFFF,
        decreases n - i,
    {
        proof {
            let next = i + 1;
            assert(outputs@.take(next).drop_last() =~= outputs@.take(i as int));
            assert(outputs@.take(next).last() == outputs@[i as int]);
        }
        sum = sum + outputs[i].0 as u128;
        i = i + 1;
    }
    assert(outputs@.take(n as int) =~= outputs@);
    sum
}

/// The key registry: the key pair of each denomination. It does not change
/// once it is made.
pub struct KeyRegistry {
    keys: HashMap<u64, MintKey>,
}

impl View for KeyRegistry {
    type V = Map<u64, nat>;

    /// The secret key of each denomination.
    closed spec fn view(&self) -> Map<u64, nat> {
        Map::new(|v: u64| self.keys@.contains_key(v), |v: u64| self.keys@[v].secret())
    }
}

impl KeyRegistry {
    /// Each key is held under its own denomination.
    #[verifier::type_invariant]
    pub closed spec fn inv(self) -> bool {
        forall|v: u64|
            self.keys@.contains_key(v) ==> (#[trigger] self.keys@[v]).wf()
                && self.keys@[v].denomination() == v
    }

    /// Every secret key of a registry is a nonzero scalar.
    pub proof fn lemma_keys_valid(self)
        requires
            self.inv(),
        ensures
            forall|v: u64| self@.contains_key(v) ==> 0 < #[trigger] self@[v] < order(),
    {
        assert forall|v: u64| self@.contains_key(v) implies 0 < #[trigger] self@[v] < order() by {
            assert(self.keys@[v].wf());
        }
    }

    /// A registry with a fresh random key pair for each denomination.
    pub fn new(denoms: &[u64]) -> (r: KeyRegistry)
        ensures
            r@.dom() == denoms@.to_set(),
            forall|v: u64| r@.contains_key(v) ==> 0 < #[trigger] r@[v] < order(),
    {
        let n = denoms.len();
        let mut keys: HashMap<u64, MintKey> = HashMap::new();
        let mut i: usize = 0;
        while i < n
            invariant
                n == denoms@.len(),
                i <= n,
                keys@.dom() =~= denoms@.take(i as int).to_set(),
                forall|v: u64|
                    keys@.contains_key(v) ==> (#[trigger] keys@[v]).wf() && keys@[v].denomination()
                        == v,
            decreases n - i,
        {
            let key = MintKey::new(denoms[i]);
            keys.insert(denoms[i], key);
            proof {
                assert(denoms@.take(i + 1) =~= denoms@.take(i as int).push(denoms@[i as int]));
                denoms@.take(i as int).lemma_push_to_set_commute(denoms@[i as int]);
            }
            i = i + 1;
        }
        assert(denoms@.take(n as int) =~= denoms@);
        let r = KeyRegistry { keys };
        proof {
            assert(r@.dom() =~= denoms@.to_set());
            r.lemma_keys_valid();
        }
        r
    }

    /// A registry of the given key pairs, a later one replacing an earlier
    /// one of the same denomination.
    pub fn with_keys(pairs: &[MintKey]) -> (r: KeyRegistry)
        ensures
            r@ == registry_of(pairs@),
    {
        let n = pairs.len();
        let mut keys: HashMap<u64, MintKey> = HashMap::new();
        let mut i: usize = 0;
        assert(pairs@.take(0).len() == 0);
        while i < n
            invariant
                n == pairs@.len(),
                i <= n,
                keys@.dom() =~= registry_of(pairs@.take(i as int)).dom(),
                forall|v: u64|
                    keys@.contains_key(v) ==> (#[trigger] keys@[v]).wf() && keys@[v].denomination()
                        == v && keys@[v].secret() == registry_of(pairs@.take(i as int))[v],
            decreases n - i,
        {
            let key = pairs[i];
            proof {
                use_type_invariant(&key);
                assert(pairs@.take(i + 1).drop_last() =~= pairs@.take(i as int));
                assert(pairs@.take(i + 1).last() == pairs@[i as int]);
            }
            keys.insert(key.value, key);
            i = i + 1;
        }
        assert(pairs@.take(n as int) =~= pairs@);
        let r = KeyRegistry { keys };
        assert(r@ =~= registry_of(pairs@));
        r
    }

    /// The key pair of a denomination; `None` where the registry has none.
    pub fn lookup(&self, value: u64) -> (r: Option<MintKey>)
        ensures
            r is Some <==> self@.contains_key(value),
            r matches Some(key) ==> {
                &&& key.denomination() == value
                &&& key.secret() == self@[value]
                &&& key.wf()
            },
    {
        proof {
            use_type_invariant(self);
        }
        match self.keys.get(&value) {
            Some(key) => {
                assert(self.keys@[value].wf());
                Some(*key)
            },
            None => None,
        }
    }
}

/// The issuer. It alone holds the secret keys and the ledger: the keys never
/// change, and the ledger changes only where a note is redeemed.
pub struct Mint {
    keys: KeyRegistry,
    spent: Ledger,
}

impl View for Mint {
    type V = MintState;

    closed spec fn view(&self) -> MintState {
        MintState { keys: self.keys@, spent: self.spent@ }
    }
}

impl Mint {
    /// An issuer with a fresh random key pair for each denomination and an
    /// empty ledger.
    pub fn new(denoms: &[u64]) -> (mint: Mint)
        ensures
            mint@.keys.dom() == denoms@.to_set(),
            mint@.spent == Set::<Seq<u8>>::empty(),
            mint@.wf(),
    {
        Mint { keys: KeyRegistry::new(denoms), spent: Ledger::new() }
    }

    /// An issuer with the given key pairs and an empty ledger.
    pub fn with_keys(pairs: &[MintKey]) -> (mint: Mint)
        ensures
            mint@.keys == registry_of(pairs@),
            mint@.spent == Set::<Seq<u8>>::empty(),
    {
        Mint { keys: KeyRegistry::with_keys(pairs), spent: Ledger::new() }
    }

    /// The key pair of a denomination; `None` where the issuer has none.
    pub fn key(&self, value: u64) -> (r: Option<MintKey>)
        ensures
            r is Some <==> self@.keys.contains_key(value),
            r matches Some(key) ==> {
                &&& key.denomination() == value
                &&& key.secret() == self@.keys[value]
                &&& key.wf()
            },
    {
        self.keys.lookup(value)
    }

    /// Tells whether the secret was redeemed.
    pub fn is_spent(&self, secret: &[u8]) -> (spent: bool)
        ensures
            spent == self@.spent.contains(secret@),
    {
        self.spent.contains(secret)
    }

    /// Signs a point under the key of a denomination, without a proof;
    /// `None` where the issuer has no key for the denomination.
    pub fn sign_point(&self, value: u64, point: &Point) -> (r: Option<Point>)
        ensures
            r is Some <==> self@.keys.contains_key(value),
            r matches Some(signed) ==> {
                &&& Some(signed.log()) == signed_log(self@.keys[value], point.log())
                &&& signed.wf()
            },
    {
        let key = match self.keys.lookup(value) {
            Some(key) => key,
            None => {
                return None;
            },
        };
        proof {
            use_type_invariant(point);
        }
        let signed = point_mul(point, key.privkey());
        proof {
            signed.lemma_log();
            assert(key.secret() * point.log() == point.log() * key.secret()) by (nonlinear_arith);
        }
        Some(signed)
    }

    /// Tells whether the note bears the signature of the issuer.
    pub fn is_signed(&self, note: &Note) -> (ok: bool)
        ensures
            ok == self@.is_signed(*note),
    {
        proof {
            use_type_invariant(&note.c);
            note.c.lemma_log();
        }
        match self.sign_point(note.value, &note.y) {
            Some(expected) => {
                proof {
                    expected.lemma_log();
                }
                note.c.equals(&expected)
            },
            None => false,
        }
    }

    /// Tells whether the note would be redeemed, and changes nothing.
    pub fn would_accept(&self, note: &Note) -> (ok: bool)
        ensures
            ok == self@.accepts(*note),
    {
        note.is_well_formed() && self.is_signed(note) && !self.spent.contains(
            note.secret.as_slice(),
        )
    }

    /// Redeems the note: where its point is the point of its secret, it
    /// bears the signature of the issuer and its secret was not redeemed
    /// before, the secret is recorded as redeemed. The look into the ledger
    /// and the insertion are one step.
    pub fn verify_and_spend(&mut self, note: &Note) -> (ok: bool)
        ensures
            ok == old(self)@.accepts(*note),
            final(self)@ == if ok {
                old(self)@.spend(*note)
            } else {
                old(self)@
            },
    {
        if !note.is_well_formed() || !self.is_signed(note) {
            return false;
        }
        let fresh = self.spent.insert_if_absent(copy_bytes(note.secret.as_slice()));
        proof {
            if !fresh {
                assert(final(self)@.spent =~= old(self)@.spent);
            }
        }
        fresh
    }

    /// Tells whether each of the notes would be redeemed, one after the
    /// other, and changes nothing.
    pub fn would_accept_all(&self, notes: &[Note]) -> (ok: bool)
        ensures
            ok == self@.accepts_all(notes@),
    {
        let n = notes.len();
        let mut i: usize = 0;
        while i < n
            invariant
                n == notes@.len(),
                i <= n,
                forall|a: int| 0 <= a < i ==> self@.accepts(#[trigger] notes@[a]),
                forall|a: int, b: int|
                    0 <= a < b < i ==> #[trigger] notes@[a].secret@ != #[trigger] notes@[b].secret@,
            decreases n - i,
        {
            if !self.would_accept(&notes[i]) {
                assert(!self@.accepts(notes@[i as int]));
                return false;
            }
            let mut j: usize = 0;
            while j < i
                invariant
                    n == notes@.len(),
                    i < n,
                    j <= i,
                    forall|a: int|
                        0 <= a < j ==> #[trigger] notes@[a].secret@ != notes@[i as int].secret@,
                decreases i - j,
            {
                if bytes_equal(notes[j].secret.as_slice(), notes[i].secret.as_slice()) {
                    assert(notes@[j as int].secret@ == notes@[i as int].secret@);
                    return false;
                }
                j = j + 1;
            }
            i = i + 1;
        }
        true
    }

    /// Tells whether the issuer has a key for the denomination of each
    /// request.
    pub fn knows_all(&self, outputs: &[(u64, Point)]) -> (ok: bool)
        ensures
            ok == self@.knows_all(outputs@),
    {
        let n = outputs.len();
        let mut i: usize = 0;
        while i < n
            invariant
                n == outputs@.len(),
                i <= n,
                forall|a: int| 0 <= a < i ==> self@.keys.contains_key((#[trigger] outputs@[a]).0),
            decreases n - i,
        {
            if self.keys.lookup(outputs[i].0).is_none() {
                assert(!self@.keys.contains_key(outputs@[i as int].0));
                return false;
            }
            i = i + 1;
        }
        true
    }

    /// Tells whether a swap of the notes for the requests would go ahead,
    /// and changes nothing. The values are compared first, then the
    /// denominations of the requests are looked up, then the notes are
    /// examined.
    pub fn would_swap(&self, inputs: &[Note], outputs: &[(u64, Point)]) -> (ok: bool)
        ensures
            ok == self@.swap_allowed(inputs@, outputs@),
    {
        sum_note_values(inputs) == sum_requested(outputs) && self.knows_all(outputs)
            && self.would_accept_all(inputs)
    }

    /// Redeems all of the notes or none: where each would be redeemed, one
    /// after the other, all are; else the ledger stays as it is.
    pub fn verify_and_spend_all(&mut self, notes: &[Note]) -> (ok: bool)
        ensures
            ok == old(self)@.accepts_all(notes@),
            final(self)@ == if ok {
                old(self)@.spend_all(notes@)
            } else {
                old(self)@
            },
    {
        if !self.would_accept_all(notes) {
            return false;
        }
        self.record_all(notes);
        true
    }

    /// Records the secrets of notes that would be redeemed one after the
    /// other.
    fn record_all(&mut self, notes: &[Note])
        requires
            old(self)@.accepts_all(notes@),
        ensures
            final(self)@ == old(self)@.spend_all(notes@),
    {
        let n = notes.len();
        let mut i: usize = 0;
        proof {
            assert(notes@.take(0) =~= Seq::<Note>::empty());
            lemma_spend_all_push(old(self)@, Seq::<Note>::empty(), notes@[0]);
        }
        while i < n
            invariant
                n == notes@.len(),
                i <= n,
                old(self)@.accepts_all(notes@),
                self@ == old(self)@.spend_all(notes@.take(i as int)),
            decreases n - i,
        {
            proof {
                lemma_next_is_accepted(old(self)@, notes@, i as int);
                lemma_spend_all_push(old(self)@, notes@.take(i as int), notes@[i as int]);
                assert(notes@.take(i + 1) =~= notes@.take(i as int).push(notes@[i as int]));
            }
            let fresh = self.spent.insert_if_absent(copy_bytes(notes[i].secret.as_slice()));
            assert(fresh);
            i = i + 1;
        }
        assert(notes@.take(n as int) =~= notes@);
    }

    /// Signs each request with the nonce at its position; `None` where one
    /// of the signatures cannot be made.
    fn sign_all(&self, outputs: &[(u64, Point)], nonces: &[Scalar]) -> (out: Option<
        Vec<(Point, DLEQ)>,
    >)
        requires
            self@.knows_all(outputs@),
        ensures
            out is Some <==> self@.signs_all(outputs@, nonces@),
            out matches Some(signed) ==> {
                &&& signed@.len() == outputs@.len()
                &&& forall|i: int|
                    0 <= i < outputs@.len() ==> self@.is_signature(
                        outputs@[i],
                        nonces@[i],
                        #[trigger] signed@[i],
                    )
            },
    {
        let n = outputs.len();
        if nonces.len() != n {
            return None;
        }
        let mut signed: Vec<(Point, DLEQ)> = Vec::new();
        let mut i: usize = 0;
        while i < n
            invariant
                n == outputs@.len(),
                n == nonces@.len(),
                i <= n,
                self@.knows_all(outputs@),
                signed@.len() == i,
                forall|a: int|
                    0 <= a < i ==> self@.is_signature(outputs@[a], nonces@[a], #[trigger] signed@[a]),
            decreases n - i,
        {
            let request = outputs[i];
            assert(self@.keys.contains_key(outputs@[i as int].0));
            let key = match self.keys.lookup(request.0) {
                Some(key) => key,
                None => {
                    return None;
                },
            };
            match blind_sign_with_nonce(key.privkey(), &request.1, &nonces[i]) {
                Some(signature) => {
                    signed.push(signature);
                },
                None => {
                    assert(self@.signature(outputs@[i as int], nonces@[i as int]) is None);
                    return None;
                },
            }
            i = i + 1;
        }
        proof {
            assert forall|a: int| 0 <= a < outputs@.len() implies (#[trigger] self@.signature(
                outputs@[a],
                nonces@[a],
            )) is Some by {
                assert(self@.is_signature(outputs@[a], nonces@[a], signed@[a]));
            }
        }
        Some(signed)
    }

    /// Swaps notes for signatures on blinded points, with the nonce at its
    /// position for the proof of each signature.
    ///
    /// Nothing is redeemed and nothing is signed unless the values match,
    /// each request has a key, each note would be redeemed, and each
    /// signature can be made. Then every note is redeemed, and the
    /// signatures come back in the order of the requests.
    pub fn swap_with_nonces(
        &mut self,
        inputs: Vec<Note>,
        outputs: Vec<(u64, Point)>,
        nonces: Vec<Scalar>,
    ) -> (out: Option<Vec<(Point, DLEQ)>>)
        ensures
            out is Some <==> old(self)@.swap_allowed(inputs@, outputs@) && old(self)@.signs_all(
                outputs@,
                nonces@,
            ),
            out matches Some(signed) ==> {
                &&& final(self)@ == old(self)@.spend_all(inputs@)
                &&& signed@.len() == outputs@.len()
                &&& forall|i: int|
                    0 <= i < outputs@.len() ==> old(self)@.is_signature(
                        outputs@[i],
                        nonces@[i],
                        #[trigger] signed@[i],
                    )
            },
            out is None ==> final(self)@ == old(self)@,
            total_value(inputs@) != total_requested(outputs@) ==> out is None,
            !old(self)@.accepts_all(inputs@) ==> out is None,
    {
        if !self.would_swap(inputs.as_slice(), outputs.as_slice()) {
            return None;
        }
        let signed = match self.sign_all(outputs.as_slice(), nonces.as_slice()) {
            Some(signed) => signed,
            None => {
                return None;
            },
        };
        self.record_all(inputs.as_slice());
        Some(signed)
    }

    /// Swaps notes for signatures on blinded points.
    ///
    /// Nothing is redeemed and nothing is signed unless the values match,
    /// each request has a key and each note would be redeemed. Then every
    /// note is redeemed, and each request is signed under the key of its
    /// denomination, with a proof that holds; the signatures come back in
    /// the order of the requests. `None` also where a nonce could not be
    /// drawn or a signature could not be made: then, too, nothing changes.
    /// Where nothing is requested, no nonce is drawn and nothing is signed,
    /// so that the swap goes through whenever it is allowed.
    pub fn swap(&mut self, inputs: Vec<Note>, outputs: Vec<(u64, Point)>) -> (out: Option<
        Vec<(Point, DLEQ)>,
    >)
        ensures
            outputs@.len() == 0 && old(self)@.swap_allowed(inputs@, outputs@) ==> out is Some,
            out matches Some(signed) ==> {
                &&& old(self)@.swap_allowed(inputs@, outputs@)
                &&& final(self)@ == old(self)@.spend_all(inputs@)
                &&& signed@.len() == outputs@.len()
                &&& forall|i: int|
                    0 <= i < outputs@.len() ==> old(self)@.is_proved_signature(
                        outputs@[i],
                        #[trigger] signed@[i],
                    )
            },
            out is None ==> final(self)@ == old(self)@,
            total_value(inputs@) != total_requested(outputs@) ==> out is None,
            !old(self)@.knows_all(outputs@) ==> out is None,
            !old(self)@.accepts_all(inputs@) ==> out is None,
    {
        if !self.would_swap(inputs.as_slice(), outputs.as_slice()) {
            return None;
        }
        let n = outputs.len();
        let mut nonces: Vec<Scalar> = Vec::new();
        let mut i: usize = 0;
        while i < n
            invariant
                n == outputs@.len(),
                i <= n,
                nonces@.len() == i,
                forall|a: int| 0 <= a < i ==> (#[trigger] outputs@[a]).1.wf(),
                forall|a: int| 0 <= a < i ==> 0 < (#[trigger] nonces@[a])@ < order(),
            decreases n - i,
        {
            let request = &outputs[i];
            proof {
                use_type_invariant(&request.1);
            }
            match random_scalar() {
                Some(nonce) => {
                    nonces.push(nonce);
                },
                None => {
                    return None;
                },
            }
            i = i + 1;
        }
        let signed = match self.sign_all(outputs.as_slice(), nonces.as_slice()) {
            Some(signed) => signed,
            None => {
                return None;
            },
        };
        proof {
            use_type_invariant(&self.keys);
            self.keys.lemma_keys_valid();
            let state = self@;
            assert forall|a: int| 0 <= a < outputs@.len() implies state.is_proved_signature(
                outputs@[a],
                #[trigger] signed@[a],
            ) by {
                assert(state.is_signature(outputs@[a], nonces@[a], signed@[a]));
                assert(state.keys.contains_key(outputs@[a].0));
                outputs@[a].1.lemma_log();
                lemma_dleq_complete(state.keys[outputs@[a].0], outputs@[a].1.log(), nonces@[a]@);
            }
        }
        self.record_all(inputs.as_slice());
        Some(signed)
    }
}

} // verus!
