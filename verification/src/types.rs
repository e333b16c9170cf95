//! The note: a bearer token of one denomination.

use crate::encoding::copy_bytes;
use crate::hash::{hash_to_curve, hash_to_curve_log};
use crate::point::Point;
use vstd::prelude::*;

verus! {

/// A note: a secret chosen by its holder, the point `y` that the secret is
/// hashed to, and the issuer's signature `c` on that point under the key of
/// the denomination `value`.
///
/// The fields are open, so a value of this type may hold a point that is not
/// the point of its secret, or a signature that no issuer made. The issuer
/// redeems neither: see [`Note::wf`] and
/// [`crate::mint::MintState::accepts`].
pub struct Note {
    pub value: u64,
    pub secret: Vec<u8>,
    pub y: Point,
    pub c: Point,
}

impl Note {
    /// Whether `y` is the point that the secret is hashed to.
    pub open spec fn wf(self) -> bool {
        Some(self.y.log()) == hash_to_curve_log(self.secret@)
    }

    /// Tells whether `y` is the point that the secret is hashed to.
    pub fn is_well_formed(&self) -> (ok: bool)
        ensures
            ok == self.wf(),
    {
        match hash_to_curve(self.secret.as_slice()) {
            Some(point) => point.equals(&self.y),
            None => false,
        }
    }
}

impl Clone for Note {
    fn clone(&self) -> (r: Note)
        ensures
            r.value == self.value,
            r.secret@ == self.secret@,
            r.y == self.y,
            r.c == self.c,
    {
        Note { value: self.value, secret: copy_bytes(self.secret.as_slice()), y: self.y, c: self.c }
    }
}

/// The sum of the values of the notes.
pub open spec fn total_value(notes: Seq<Note>) -> nat
    decreases notes.len(),
{
    if notes.len() == 0 {
        0
    } else {
        total_value(notes.drop_last()) + notes.last().value as nat
    }
}

/// Whether the secret is that of one of the notes.
pub open spec fn holds_secret(notes: Seq<Note>, secret: Seq<u8>) -> bool {
    exists|i: int| 0 <= i < notes.len() && #[trigger] notes[i].secret@ == secret
}

/// Whether no two of the notes share a secret.
pub open spec fn secrets_distinct(notes: Seq<Note>) -> bool {
    forall|i: int, j: int|
        0 <= i < j < notes.len() ==> #[trigger] notes[i].secret@ != #[trigger] notes[j].secret@
}

} // verus!
