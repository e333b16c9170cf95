//! Big-endian byte strings as natural numbers.
//!
//! Scalars, digests and counters all travel as fixed-width big-endian byte
//! strings. This module gives such a string its numeric value and proves the
//! byte-level routines (ordering, equality, subtraction) against it.

use vstd::prelude::*;

verus! {

/// The number a byte string denotes when read most significant byte first.
pub open spec fn be_value(s: Seq<u8>) -> nat
    decreases s.len(),
{
    if s.len() == 0 {
        0
    } else {
        be_value(s.drop_last()) * 256 + s.last() as nat
    }
}

/// `256^n`.
pub open spec fn pow256(n: nat) -> nat
    decreases n,
{
    if n == 0 {
        1
    } else {
        256 * pow256((n - 1) as nat)
    }
}

/// How two numbers stand to each other.
#[derive(Clone, Copy, PartialEq, Eq, Structural)]
pub enum Relation {
    Less,
    Equal,
    Greater,
}

/// The relation between two integers.
pub open spec fn relation_of(x: int, y: int) -> Relation {
    if x < y {
        Relation::Less
    } else if x == y {
        Relation::Equal
    } else {
        Relation::Greater
    }
}

/// A string of `n` bytes denotes a number below `256^n`.
pub proof fn lemma_be_value_bound(s: Seq<u8>)
    ensures
        be_value(s) < pow256(s.len()),
    decreases s.len(),
{
    if s.len() > 0 {
        lemma_be_value_bound(s.drop_last());
    }
}

/// The value of a string splits at any position into the value of the prefix,
/// shifted, plus the value of the suffix.
pub proof fn lemma_be_value_split(s: Seq<u8>, j: int)
    requires
        0 <= j <= s.len(),
    ensures
        be_value(s) == be_value(s.take(j)) * pow256((s.len() - j) as nat) + be_value(s.skip(j)),
    decreases s.len(),
{
    let goal = be_value(s.take(j)) * pow256((s.len() - j) as nat) + be_value(s.skip(j));
    if j == s.len() {
        assert(s.take(j) =~= s);
        assert(s.skip(j).len() == 0);
        assert(pow256(0) == 1);
        assert(be_value(s.skip(j)) == 0);
        let whole = be_value(s);
        assert(whole * 1 == whole) by (nonlinear_arith);
        assert(goal == whole);
    } else {
        let front = s.drop_last();
        lemma_be_value_split(front, j);
        assert(front.take(j) =~= s.take(j));
        assert(s.skip(j).drop_last() =~= front.skip(j));
        assert(s.skip(j).last() == s.last());
        let high = be_value(s.take(j));
        let p = pow256((front.len() - j) as nat);
        let low = be_value(front.skip(j));
        let last = s.last() as nat;
        assert(pow256((s.len() - j) as nat) == 256 * p);
        assert(be_value(front) == high * p + low);
        assert(be_value(s) == be_value(front) * 256 + last);
        assert(s.skip(j).len() > 0);
        assert(be_value(s.skip(j)) == low * 256 + last);
        assert((high * p + low) * 256 + last == high * (256 * p) + (low * 256 + last))
            by (nonlinear_arith);
        assert(goal == high * (256 * p) + (low * 256 + last));
    }
}

/// The value of a nonempty string is its first byte, shifted, plus the value
/// of the rest.
pub proof fn lemma_be_value_first(s: Seq<u8>)
    requires
        s.len() > 0,
    ensures
        be_value(s) == s[0] as nat * pow256((s.len() - 1) as nat) + be_value(s.skip(1)),
{
    lemma_be_value_split(s, 1);
    assert(s.take(1).drop_last().len() == 0);
    assert(be_value(s.take(1).drop_last()) == 0);
    assert(s.take(1).last() == s[0]);
    assert(be_value(s.take(1)) == s[0] as nat);
}

/// Compares two words of 32 bytes as big-endian numbers.
pub fn be_compare(a: &[u8; 32], b: &[u8; 32]) -> (r: Relation)
    ensures
        r == relation_of(be_value(a@) as int, be_value(b@) as int),
{
    let n: usize = 32;
    let mut state = Relation::Equal;
    let mut i: usize = 0;
    assert(a@.take(0).len() == 0 && b@.take(0).len() == 0);
    while i < n
        invariant
            n == a@.len(),
            n == b@.len(),
            i <= n,
            state == relation_of(be_value(a@.take(i as int)) as int, be_value(b@.take(i as int)) as int),
        decreases n - i,
    {
        proof {
            let next = i + 1;
            assert(a@.take(next).drop_last() =~= a@.take(i as int));
            assert(b@.take(next).drop_last() =~= b@.take(i as int));
            assert(a@.take(next).last() == a@[i as int]);
            assert(b@.take(next).last() == b@[i as int]);
        }
        match state {
            Relation::Equal => {
                if a[i] < b[i] {
                    state = Relation::Less;
                } else if a[i] > b[i] {
                    state = Relation::Greater;
                }
            },
            _ => {},
        }
        i = i + 1;
    }
    proof {
        assert(a@.take(n as int) =~= a@);
        assert(b@.take(n as int) =~= b@);
    }
    state
}

/// Tells whether two byte strings hold the same bytes.
pub fn bytes_equal(a: &[u8], b: &[u8]) -> (r: bool)
    ensures
        r == (a@ == b@),
{
    if a.len() != b.len() {
        return false;
    }
    let n = a.len();
    let mut i: usize = 0;
    while i < n
        invariant
            n == a@.len(),
            n == b@.len(),
            i <= n,
            forall|j: int| 0 <= j < i ==> a@[j] == b@[j],
        decreases n - i,
    {
        if a[i] != b[i] {
            return false;
        }
        i = i + 1;
    }
    assert(a@ =~= b@);
    true
}

/// Tells whether every byte of the string is zero, that is, whether it
/// denotes zero.
pub fn be_is_zero(a: &[u8]) -> (r: bool)
    ensures
        r == (be_value(a@) == 0),
{
    let n = a.len();
    let mut i: usize = 0;
    assert(a@.take(0).len() == 0);
    while i < n
        invariant
            n == a@.len(),
            i <= n,
            be_value(a@.take(i as int)) == 0,
        decreases n - i,
    {
        proof {
            let next = i + 1;
            assert(a@.take(next).drop_last() =~= a@.take(i as int));
            assert(a@.take(next).last() == a@[i as int]);
            lemma_be_value_split(a@, next);
        }
        if a[i] != 0 {
            proof {
                let next = i + 1;
                let high = be_value(a@.take(next));
                let p = pow256((n - next) as nat);
                lemma_pow256_positive((n - next) as nat);
                assert(high >= 1);
                assert(high * p >= p) by (nonlinear_arith)
                    requires
                        high >= 1,
                        p >= 1,
                ;
            }
            return false;
        }
        i = i + 1;
    }
    assert(a@.take(n as int) =~= a@);
    true
}

/// `256^n` is at least one.
pub proof fn lemma_pow256_positive(n: nat)
    ensures
        pow256(n) >= 1,
    decreases n,
{
    if n > 0 {
        lemma_pow256_positive((n - 1) as nat);
    }
}

/// Subtracts `b` from `a`, both read as big-endian numbers of 32 bytes,
/// modulo `256^32`. The flag tells whether `a` is below `b`, so that the
/// difference wrapped around.
pub fn be_sub32(a: &[u8; 32], b: &[u8; 32]) -> (r: ([u8; 32], bool))
    ensures
        r.1 == (be_value(a@) < be_value(b@)),
        be_value(r.0@) == if r.1 {
            be_value(a@) + pow256(32) - be_value(b@)
        } else {
            be_value(a@) - be_value(b@)
        },
{
    let mut r: [u8; 32] = [0u8; 32];
    let mut borrow: u8 = 0;
    let mut i: usize = 32;
    assert(a@.skip(32).len() == 0 && b@.skip(32).len() == 0 && r@.skip(32).len() == 0);
    while i > 0
        invariant
            i <= 32,
            borrow <= 1,
            be_value(a@.skip(i as int)) + borrow * pow256((32 - i) as nat) == be_value(
                b@.skip(i as int),
            ) + be_value(r@.skip(i as int)),
        decreases i,
    {
        let j: usize = i - 1;
        let ghost before = r@;
        let x: u16 = a[j] as u16;
        let y: u16 = b[j] as u16 + borrow as u16;
        let next_borrow: u8 = if x < y {
            1
        } else {
            0
        };
        let digit: u16 = if x < y {
            256 + x - y
        } else {
            x - y
        };
        r[j] = digit as u8;
        proof {
            let p = pow256((32 - i) as nat);
            assert(pow256((32 - j) as nat) == 256 * p);
            assert(r@.skip(i as int) =~= before.skip(i as int));
            lemma_be_value_first(a@.skip(j as int));
            lemma_be_value_first(b@.skip(j as int));
            lemma_be_value_first(r@.skip(j as int));
            assert(a@.skip(j as int).skip(1) =~= a@.skip(i as int));
            assert(b@.skip(j as int).skip(1) =~= b@.skip(i as int));
            assert(r@.skip(j as int).skip(1) =~= r@.skip(i as int));
            let av = be_value(a@.skip(i as int));
            let bv = be_value(b@.skip(i as int));
            let rv = be_value(r@.skip(i as int));
            let ad = a@[j as int] as int;
            let bd = b@[j as int] as int;
            let rd = r@[j as int] as int;
            let c0 = borrow as int;
            let c1 = next_borrow as int;
            assert(ad + 256 * c1 == bd + c0 + rd);
            assert(ad * p + av + c1 * (256 * p) == bd * p + bv + (rd * p + rv)) by (nonlinear_arith)
                requires
                    ad + 256 * c1 == bd + c0 + rd,
                    av + c0 * p == bv + rv,
            ;
        }
        borrow = next_borrow;
        i = j;
    }
    proof {
        assert(a@.skip(0) =~= a@);
        assert(b@.skip(0) =~= b@);
        assert(r@.skip(0) =~= r@);
        lemma_be_value_bound(a@);
        lemma_be_value_bound(r@);
    }
    (r, borrow == 1)
}

/// Appends `data` to `buffer`.
pub fn append_bytes(buffer: &mut Vec<u8>, data: &[u8])
    ensures
        final(buffer)@ == old(buffer)@ + data@,
{
    let n = data.len();
    let mut i: usize = 0;
    while i < n
        invariant
            n == data@.len(),
            i <= n,
            buffer@ == old(buffer)@ + data@.take(i as int),
        decreases n - i,
    {
        buffer.push(data[i]);
        i = i + 1;
        assert(buffer@ =~= old(buffer)@ + data@.take(i as int));
    }
    assert(data@.take(n as int) =~= data@);
}

/// A fresh vector with the bytes of `data`.
pub fn copy_bytes(data: &[u8]) -> (r: Vec<u8>)
    ensures
        r@ == data@,
{
    let mut r: Vec<u8> = Vec::new();
    append_bytes(&mut r, data);
    assert(r@ =~= data@);
    r
}

/// The four bytes of a counter, most significant first.
pub open spec fn u32_be(x: u32) -> Seq<u8> {
    seq![
        (x / 0x100_0000) as u8,
        ((x / 0x1_0000) % 256) as u8,
        ((x / 0x100) % 256) as u8,
        (x % 256) as u8,
    ]
}

/// Writes a counter as four bytes, most significant first.
pub fn u32_to_be(x: u32) -> (r: [u8; 4])
    ensures
        r@ == u32_be(x),
        be_value(r@) == x,
{
    let r: [u8; 4] = [
        (x / 0x100_0000) as u8,
        ((x / 0x1_0000) % 256) as u8,
        ((x / 0x100) % 256) as u8,
        (x % 256) as u8,
    ];
    proof {
        assert(r@ =~= u32_be(x));
        reveal_with_fuel(be_value, 5);
    }
    r
}

} // verus!
