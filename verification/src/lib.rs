//! Fractional ownership shares, accounted for at compile time.
//!
//! A full share of a heap value can be split into two half shares, halves into
//! quarters, and so on; shares can be joined back together, and only a
//! reassembled full share grants unique mutability and the right to
//! deallocate.  This crate holds the verified core of that discipline: the
//! algebra of fractional shares — positive rationals in `(0, 1]` whose
//! denominator is a power of two — in three encodings, together with the laws
//! that make the discipline sound:
//!
//! * this root module packs a share into a single `u128`, counting in units
//!   of `2^-128`, with zero standing for the full share;
//! * [`ownership`] carries a share as an explicit reduced fraction and proves
//!   that splitting halves it, that joining adds and re-canonicalises, and
//!   that the canonical form is unique;
//! * [`prat`] and [`marker`] lift the shares to the type level, so that a
//!   handle tagged with a share witness can only be split and joined along
//!   relations whose arithmetic has been proved.

use vstd::arithmetic::div_mod::{
    lemma_fundamental_div_mod, lemma_mod_sub_multiples_vanish, lemma_small_mod,
};
use vstd::prelude::*;

pub mod marker;
pub mod ownership;
pub mod prat;

verus! {

/// The denominator shared by every packed witness: `2^128`.
pub open spec fn packed_unit() -> int {
    u128::MAX as int + 1
}

/// The share a packed witness stands for, as a numerator over `packed_unit()`.
/// Zero is the packed form of the full share `2^128 / 2^128 = 1`.
pub open spec fn packed_weight(o: u128) -> int {
    if o == 0 {
        packed_unit()
    } else {
        o as int
    }
}

/// The packed witness for half of the full share.
pub open spec fn packed_half() -> u128 {
    (packed_unit() / 2) as u128
}

/// What `split` returns: the witness for half the given share.
pub open spec fn split_packed(input: u128) -> u128 {
    if input == 0 {
        packed_half()
    } else {
        (input / 2) as u128
    }
}

/// What `join` returns: the sum of the two shares, in units of `2^-128`,
/// reduced modulo `2^128` so that two halves meet back at the full witness.
pub open spec fn join_packed(a: u128, b: u128) -> u128 {
    ((a + b) % packed_unit()) as u128
}

/// Halve a packed witness.  Only an even witness (or the full one) can be
/// halved: an odd count of `2^-128` units has no representable half.
pub fn split(input: u128) -> (r: u128)
    requires
        input % 2 == 0,
    ensures
        r == split_packed(input),
        packed_weight(r) * 2 == packed_weight(input),
{
    if 0 == input {
        return u128::MAX / 2 + 1;
    }

    input / 2
}

/// Add two packed witnesses.  The sum wraps at `2^128`, which is exactly what
/// lets two half shares meet back at the full witness `0`; as long as the two
/// shares total at most the full share, the sum is exact
/// (`lemma_join_packed_weight`).
pub fn join(a: u128, b: u128) -> (r: u128)
    ensures
        r == join_packed(a, b),
{
    proof {
        if a + b > u128::MAX {
            lemma_mod_sub_multiples_vanish(a + b, packed_unit());
            lemma_small_mod((a + b - packed_unit()) as nat, packed_unit() as nat);
        } else {
            lemma_small_mod((a + b) as nat, packed_unit() as nat);
        }
    }
    a.wrapping_add(b)
}

/// Splitting a witness and joining the two halves restores the witness.
pub proof fn lemma_split_then_join_packed(o: u128)
    requires
        o % 2 == 0,
    ensures
        join_packed(split_packed(o), split_packed(o)) == o,
{
    if o == 0 {
        assert(packed_half() + packed_half() == packed_unit());
        assert(packed_unit() % packed_unit() == 0) by {
            lemma_mod_sub_multiples_vanish(packed_unit(), packed_unit());
            lemma_small_mod(0, packed_unit() as nat);
        }
    } else {
        lemma_fundamental_div_mod(o as int, 2);
        lemma_small_mod((o / 2 + o / 2) as nat, packed_unit() as nat);
    }
}

/// As long as two shares total at most the full share, joining adds their
/// weights exactly.  A full share can never take part: its weight alone plus
/// any positive weight already exceeds the whole.
pub proof fn lemma_join_packed_weight(a: u128, b: u128)
    requires
        packed_weight(a) + packed_weight(b) <= packed_unit(),
    ensures
        packed_weight(join_packed(a, b)) == packed_weight(a) + packed_weight(b),
{
    if a + b < packed_unit() {
        lemma_small_mod((a + b) as nat, packed_unit() as nat);
    } else {
        lemma_mod_sub_multiples_vanish(a + b, packed_unit());
        lemma_small_mod((a + b - packed_unit()) as nat, packed_unit() as nat);
    }
}

/// Zero is the one packed witness whose weight is the whole.
pub proof fn lemma_packed_full(o: u128)
    ensures
        packed_weight(o) == packed_unit() <==> o == 0,
{
}

}
