//! The holder: the notes it owns, and how it pays with them.

use crate::blind::{
    blind_message_with_factor, blinded_log, dleq_holds, lemma_unblind_recovers_signature, signed_log,
    unblind_signature, unblinded_log, verify_dleq, DLEQ,
};
use crate::encoding::{bytes_equal, copy_bytes};
use crate::hash::{hash_to_curve, hash_to_curve_log};
use crate::mint::{Mint, MintState};
use crate::point::Point;
use crate::scalar::{order, random_bytes32, Scalar};
use crate::types::{holds_secret, total_value, Note};
use vstd::prelude::*;

verus! {

/// The notes of a holder, in the order in which they came.
pub struct Wallet {
    pub notes: Vec<Note>,
}

/// Whether `count` is how many notes are taken to pay `amount`: notes are
/// taken from the front until their value reaches the amount, or until
/// there are no more.
pub open spec fn is_selection(notes: Seq<Note>, amount: u64, count: int) -> bool {
    &&& 0 <= count <= notes.len()
    &&& count < notes.len() ==> total_value(notes.take(count)) >= amount
    &&& forall|fewer: int| 0 <= fewer < count ==> total_value(#[trigger] notes.take(fewer)) < amount
}

/// How many notes are taken to pay `amount`.
pub open spec fn selection_len(notes: Seq<Note>, amount: u64) -> int {
    choose|count: int| is_selection(notes, amount, count)
}

/// The notes that are taken to pay `amount`.
pub open spec fn selection(notes: Seq<Note>, amount: u64) -> Seq<Note> {
    notes.take(selection_len(notes, amount))
}

/// The test that a note passes where its secret is none of those of
/// `selected`.
pub open spec fn not_selected(selected: Seq<Note>) -> spec_fn(Note) -> bool {
    |note: Note| !holds_secret(selected, note.secret@)
}

/// The value of the notes grows with their number.
pub proof fn lemma_total_value_grows(notes: Seq<Note>, i: int, j: int)
    requires
        0 <= i <= j <= notes.len(),
    ensures
        total_value(notes.take(i)) <= total_value(notes.take(j)),
    decreases j - i,
{
    if i < j {
        lemma_total_value_grows(notes, i, j - 1);
        assert(notes.take(j).drop_last() =~= notes.take(j - 1));
    }
}

/// There is one number of notes that is taken to pay an amount.
pub proof fn lemma_selection_unique(notes: Seq<Note>, amount: u64, count: int)
    requires
        is_selection(notes, amount, count),
    ensures
        selection_len(notes, amount) == count,
{
    let other = selection_len(notes, amount);
    assert(is_selection(notes, amount, other));
    if other < count {
        assert(total_value(notes.take(other)) < amount);
    }
    if count < other {
        assert(total_value(notes.take(count)) < amount);
    }
}

/// Where some notes from the front are worth the amount exactly, the notes
/// that are taken are worth the amount exactly. So a payment fails for want
/// of exact change only where no notes from the front are worth the amount.
pub proof fn lemma_selection_exact(notes: Seq<Note>, amount: u64, count: int)
    requires
        0 <= count <= notes.len(),
        total_value(notes.take(count)) == amount,
    ensures
        total_value(selection(notes, amount)) == amount,
{
    lemma_selection_exists(notes, amount);
    let taken = selection_len(notes, amount);
    if taken < count {
        lemma_total_value_grows(notes, taken, count);
    } else if count < taken {
        assert(total_value(notes.take(count)) < amount);
    }
}

/// Some number of notes is taken to pay an amount.
pub proof fn lemma_selection_exists(notes: Seq<Note>, amount: u64)
    ensures
        is_selection(notes, amount, selection_len(notes, amount)),
{
    lemma_selection_from(notes, amount, 0);
}

proof fn lemma_selection_from(notes: Seq<Note>, amount: u64, start: int)
    requires
        0 <= start <= notes.len(),
        forall|fewer: int| 0 <= fewer < start ==> total_value(#[trigger] notes.take(fewer)) < amount,
    ensures
        exists|count: int| is_selection(notes, amount, count),
    decreases notes.len() - start,
{
    if start == notes.len() || total_value(notes.take(start)) >= amount {
        assert(is_selection(notes, amount, start));
    } else {
        lemma_selection_from(notes, amount, start + 1);
    }
}

/// Filtering notes of which none passes the test leaves nothing.
proof fn lemma_filter_none(notes: Seq<Note>, test: spec_fn(Note) -> bool)
    requires
        forall|i: int| 0 <= i < notes.len() ==> !test(#[trigger] notes[i]),
    ensures
        notes.filter(test) == Seq::<Note>::empty(),
    decreases notes.len(),
{
    reveal(Seq::filter);
    if notes.len() > 0 {
        lemma_filter_none(notes.drop_last(), test);
    }
}

/// What the holder checks of a signature that came back from a swap, for the
/// point with logarithm `y` that it blinded with the factor `r`: the blinded
/// point is not the identity, the proof holds of it, of the signature and of
/// the public key of the issuer, and the signature can be unblinded. The
/// result is the logarithm of the unblinded signature.
pub open spec fn received_log(y: nat, r: nat, key: nat, signed: (Point, DLEQ)) -> Option<nat> {
    match blinded_log(y, r) {
        Some(blinded) => if r != 0 && dleq_holds(
            blinded,
            signed.0.log(),
            key,
            signed.1.e@,
            signed.1.s@,
        ) {
            unblinded_log(signed.0.log(), r, key)
        } else {
            None
        },
        None => None,
    }
}

/// A note that came out of a swap bears the signature of the issuer: where
/// the issuer signed the blinded point of the note under the key of its
/// denomination, and the signature of the note is that signature unblinded
/// with the public key of that denomination, the issuer accepts the note as
/// signed.
pub proof fn lemma_unblinded_note_is_signed(
    state: MintState,
    note: Note,
    r: nat,
    blinded: nat,
    signed: nat,
)
    requires
        state.wf(),
        state.keys.contains_key(note.value),
        0 < note.y.log() < order(),
        r < order(),
        blinded_log(note.y.log(), r) == Some(blinded),
        signed_log(state.keys[note.value], blinded) == Some(signed),
        unblinded_log(signed, r, state.keys[note.value]) == Some(note.c.log()),
    ensures
        state.is_signed(note),
{
    lemma_unblind_recovers_signature(note.y.log(), state.keys[note.value], r, blinded, signed);
}

/// Tells whether the secret is that of one of the notes.
fn secret_among(notes: &[Note], secret: &[u8]) -> (found: bool)
    ensures
        found == holds_secret(notes@, secret@),
{
    let n = notes.len();
    let mut i: usize = 0;
    while i < n
        invariant
            n == notes@.len(),
            i <= n,
            forall|a: int| 0 <= a < i ==> #[trigger] notes@[a].secret@ != secret@,
        decreases n - i,
    {
        if bytes_equal(notes[i].secret.as_slice(), secret) {
            assert(notes@[i as int].secret@ == secret@);
            return true;
        }
        i = i + 1;
    }
    false
}

impl Wallet {
    /// A wallet without notes.
    pub fn new() -> (wallet: Wallet)
        ensures
            wallet.notes@.len() == 0,
    {
        Wallet { notes: Vec::new() }
    }

    /// Has the issuer sign the point of `secret` under the key of the
    /// denomination `value`, and keeps the note. Nothing is blinded. False,
    /// and no note, where the issuer has no key for the denomination or the
    /// secret cannot be hashed to a point.
    pub fn mint_note_with_secret(&mut self, mint: &Mint, value: u64, secret: Vec<u8>) -> (ok: bool)
        ensures
            ok == (mint@.keys.contains_key(value) && hash_to_curve_log(secret@) is Some),
            !ok ==> final(self).notes@ == old(self).notes@,
            ok ==> {
                let note = final(self).notes@.last();
                &&& final(self).notes@.len() == old(self).notes@.len() + 1
                &&& final(self).notes@.drop_last() == old(self).notes@
                &&& note.value == value
                &&& note.secret@ == secret@
                &&& note.wf()
                &&& Some(note.c.log()) == signed_log(mint@.keys[value], note.y.log())
                &&& mint@.accepts(note) == !mint@.spent.contains(secret@)
            },
    {
        let y = match hash_to_curve(secret.as_slice()) {
            Some(y) => y,
            None => {
                return false;
            },
        };
        let c = match mint.sign_point(value, &y) {
            Some(c) => c,
            None => {
                return false;
            },
        };
        self.notes.push(Note { value, secret, y, c });
        proof {
            assert(final(self).notes@.drop_last() =~= old(self).notes@);
        }
        true
    }

    /// Has the issuer sign the point of a fresh random secret of 32 bytes
    /// under the key of the denomination `value`, and keeps the note. False,
    /// and no note, where the issuer has no key for the denomination, and
    /// else only where the secret that was drawn cannot be hashed to a
    /// point.
    pub fn mint_note(&mut self, mint: &Mint, value: u64) -> (ok: bool)
        ensures
            ok ==> mint@.keys.contains_key(value),
            !ok ==> !mint@.keys.contains_key(value) || exists|secret: Seq<u8>|
                secret.len() == 32 && (#[trigger] hash_to_curve_log(secret)) is None,
            !ok ==> final(self).notes@ == old(self).notes@,
            ok ==> {
                let note = final(self).notes@.last();
                &&& final(self).notes@.len() == old(self).notes@.len() + 1
                &&& final(self).notes@.drop_last() == old(self).notes@
                &&& note.value == value
                &&& note.secret@.len() == 32
                &&& note.wf()
                &&& Some(note.c.log()) == signed_log(mint@.keys[value], note.y.log())
            },
    {
        let bytes = random_bytes32();
        let secret = copy_bytes(&bytes);
        let ghost drawn = secret@;
        let ok = self.mint_note_with_secret(mint, value, secret);
        proof {
            if !ok && mint@.keys.contains_key(value) {
                assert(drawn.len() == 32 && hash_to_curve_log(drawn) is None);
            }
        }
        ok
    }

    /// Takes in a signature that came back from a swap, for the secret that
    /// was blinded with `blind_factor`. The note is kept only where the
    /// proof shows that the issuer signed the blinded point with the secret
    /// key of `issuer_key`; then its signature is the unblinded one. False,
    /// and no note, where the secret cannot be hashed to a point, the
    /// blinding fails, the proof does not hold, or the unblinded signature
    /// would be the identity.
    pub fn receive_note(
        &mut self,
        value: u64,
        secret: Vec<u8>,
        blind_factor: &Scalar,
        signed: &(Point, DLEQ),
        issuer_key: &Point,
    ) -> (ok: bool)
        ensures
            ok == (hash_to_curve_log(secret@) matches Some(y) && received_log(
                y,
                blind_factor@,
                issuer_key.log(),
                *signed,
            ) is Some),
            !ok ==> final(self).notes@ == old(self).notes@,
            ok ==> {
                let note = final(self).notes@.last();
                &&& final(self).notes@.len() == old(self).notes@.len() + 1
                &&& final(self).notes@.drop_last() == old(self).notes@
                &&& note.value == value
                &&& note.secret@ == secret@
                &&& note.wf()
                &&& Some(note.c.log()) == received_log(
                    note.y.log(),
                    blind_factor@,
                    issuer_key.log(),
                    *signed,
                )
            },
    {
        let y = match hash_to_curve(secret.as_slice()) {
            Some(y) => y,
            None => {
                return false;
            },
        };
        let blinded = match blind_message_with_factor(&y, blind_factor) {
            Some(blinded) => blinded,
            None => {
                return false;
            },
        };
        if !verify_dleq(&blinded.blinded_point, &signed.0, issuer_key, &signed.1) {
            return false;
        }
        let c = match unblind_signature(&signed.0, blind_factor, issuer_key) {
            Some(c) => c,
            None => {
                return false;
            },
        };
        self.notes.push(Note { value, secret, y, c });
        proof {
            assert(final(self).notes@.drop_last() =~= old(self).notes@);
        }
        true
    }

    /// Takes notes from the front until their value reaches `amount`, and
    /// tells how many were taken; `None` where they are not worth the
    /// amount exactly. Nothing changes.
    pub fn select(&self, amount: u64) -> (r: Option<usize>)
        ensures
            r is Some <==> total_value(selection(self.notes@, amount)) == amount,
            r matches Some(count) ==> count == selection_len(self.notes@, amount),
            (forall|count: int|
                0 <= count <= self.notes@.len() ==> total_value(#[trigger] self.notes@.take(count))
                    != amount) ==> r is None,
    {
        let n = self.notes.len();
        let mut count: usize = 0;
        let mut sum: u128 = 0;
        assert(self.notes@.take(0).len() == 0);
        while count < n && sum < amount as u128
            invariant
                n == self.notes@.len(),
                count <= n,
                sum == total_value(self.notes@.take(count as int)),
                forall|fewer: int|
                    0 <= fewer < count ==> total_value(#[trigger] self.notes@.take(fewer)) < amount,
            decreases n - count,
        {
            proof {
                assert(self.notes@.take(count + 1).drop_last() =~= self.notes@.take(count as int));
                assert(self.notes@.take(count + 1).last() == self.notes@[count as int]);
            }
            sum = sum + self.notes[count].value as u128;
            count = count + 1;
        }
        proof {
            assert(is_selection(self.notes@, amount, count as int));
            lemma_selection_unique(self.notes@, amount, count as int);
        }
        if sum == amount as u128 {
            Some(count)
        } else {
            None
        }
    }

    /// Removes the first `count` notes, and every note that has the secret
    /// of one of them.
    fn remove_selected(&mut self, count: usize)
        requires
            count <= old(self).notes@.len(),
        ensures
            final(self).notes@ == old(self).notes@.filter(
                not_selected(old(self).notes@.take(count as int)),
            ),
    {
        let ghost selected = self.notes@.take(count as int);
        let ghost test = not_selected(selected);
        let mut rest = self.notes.split_off(count);
        let ghost others = rest@;
        let ghost mut done: int = 0;
        let mut i: usize = 0;
        proof {
            assert(self.notes@ =~= selected);
            assert(others =~= old(self).notes@.skip(count as int));
            reveal(Seq::filter);
            assert(others.take(0).filter(test) =~= Seq::<Note>::empty());
            assert(rest@.take(0) =~= Seq::<Note>::empty());
            assert(rest@.skip(0) =~= others.skip(0));
        }
        while i < rest.len()
            invariant
                self.notes@ == selected,
                test == not_selected(selected),
                0 <= done <= others.len(),
                i <= rest@.len(),
                rest@.len() - i == others.len() - done,
                rest@.take(i as int) == others.take(done).filter(test),
                rest@.skip(i as int) == others.skip(done),
            decreases rest@.len() - i,
        {
            let ghost before = rest@;
            let found = secret_among(self.notes.as_slice(), rest[i].secret.as_slice());
            proof {
                assert(before[i as int] == before.skip(i as int)[0]);
                assert(others.take(done + 1).drop_last() =~= others.take(done));
                assert(others.take(done + 1).last() == others[done]);
                assert(others.skip(done).skip(1) =~= others.skip(done + 1));
                reveal(Seq::filter);
                assert(test(others[done]) == !found);
            }
            if found {
                rest.remove(i);
                proof {
                    assert(rest@.take(i as int) =~= before.take(i as int));
                    assert(rest@.skip(i as int) =~= before.skip(i as int).skip(1));
                }
            } else {
                proof {
                    assert(before.take(i + 1) =~= before.take(i as int).push(before[i as int]));
                    assert(before.skip(i as int).skip(1) =~= before.skip(i + 1));
                }
                i = i + 1;
            }
            proof {
                done = done + 1;
            }
        }
        proof {
            assert(rest@.take(i as int) =~= rest@);
            assert(others.take(done) =~= others);
            assert(old(self).notes@ =~= selected + others);
            Seq::filter_distributes_over_add(selected, others, test);
            assert forall|a: int| 0 <= a < selected.len() implies !test(#[trigger] selected[a]) by {
                assert(holds_secret(selected, selected[a].secret@));
            }
            lemma_filter_none(selected, test);
            assert(Seq::<Note>::empty() + others.filter(test) =~= others.filter(test));
        }
        self.notes = rest;
    }

    /// Pays `amount` to the issuer.
    ///
    /// Notes are taken from the front until their value reaches the
    /// amount. The payment goes ahead where they are worth the amount
    /// exactly and the issuer would redeem each of them, one after the
    /// other. Then all are redeemed, and every note with the secret of one
    /// of them leaves the wallet. Else neither the wallet nor the ledger
    /// changes.
    pub fn spend(&mut self, mint: &mut Mint, amount: u64) -> (ok: bool)
        ensures
            ok == (total_value(selection(old(self).notes@, amount)) == amount && old(
                mint,
            )@.accepts_all(selection(old(self).notes@, amount))),
            ok ==> final(mint)@ == old(mint)@.spend_all(selection(old(self).notes@, amount)),
            ok ==> final(self).notes@ == old(self).notes@.filter(
                not_selected(selection(old(self).notes@, amount)),
            ),
            !ok ==> final(mint)@ == old(mint)@,
            !ok ==> final(self).notes@ == old(self).notes@,
            (forall|count: int|
                0 <= count <= old(self).notes@.len() ==> total_value(
                    #[trigger] old(self).notes@.take(count),
                ) != amount) ==> !ok,
    {
        let count = match self.select(amount) {
            Some(count) => count,
            None => {
                return false;
            },
        };
        proof {
            lemma_selection_exists(self.notes@, amount);
            assert(self.notes@.subrange(0, count as int) =~= self.notes@.take(count as int));
        }
        if !mint.verify_and_spend_all(&self.notes.as_slice()[0..count]) {
            return false;
        }
        self.remove_selected(count);
        true
    }
}

} // verus!
