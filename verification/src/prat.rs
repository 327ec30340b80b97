//! The fractional-share algebra at the type level.
//!
//! `Fraction<P, Q>` is a zero-sized witness for the share `P/Q`.  The
//! [`CanSplit`] and [`JoinsWith`] relations say which witnesses a handle may
//! be split or joined at, and each entry of those relations carries a proof
//! obligation: the split really names the half, and the join really names the
//! canonical sum.  A chain of splits and joins that would leave the algebra —
//! exceed the whole, or miss the canonical form — has no entry, so it does not
//! type-check.
//!
//! Arithmetic cannot be carried out on const parameters in types here, so the
//! two relations are a closed, proved table: splits down to the sixteenths,
//! and joins of any two shares with denominators up to eight together with
//! the sibling joins at sixteen.  Every entry is verified against the same
//! canonical-form arithmetic as the runtime algebra in [`crate::ownership`].

use crate::ownership::{is_pow2, odd};
use vstd::prelude::*;

verus! {

/// The type-level witness for the share `P/Q`.
pub struct Fraction<const P: u128, const Q: u128>;

/// The whole share.
pub type Full = Fraction<1, 1>;

/// Half of the whole share.
pub type Half = Fraction<1, 2>;

/// A quarter of the whole share.
pub type Quarter = Fraction<1, 4>;

/// An eighth of the whole share.
pub type Eighth = Fraction<1, 8>;

/// A sixteenth of the whole share.
pub type Sixteenth = Fraction<1, 16>;

/// Three quarters of the whole share.
pub type ThreeQuarters = Fraction<3, 4>;

/// A type-level share witness: a fraction of the whole, fixed at compile
/// time.  `is_full` holds exactly for the whole share, the one witness that
/// grants mutation and deallocation.
pub trait Ownership: Sized {
    /// The numerator of the share this witness stands for.
    spec fn num() -> u128;

    /// The denominator of the share this witness stands for.
    spec fn den() -> u128;

    /// Runtime form of the deallocation decision: whether this witness
    /// stands for the whole share.
    fn is_full() -> (b: bool)
        ensures
            b == (Self::num() == Self::den()),
    ;
}

impl<const P: u128, const Q: u128> Ownership for Fraction<P, Q> {
    open spec fn num() -> u128 {
        P
    }

    open spec fn den() -> u128 {
        Q
    }

    fn is_full() -> (b: bool)
        ensures
            b == (P == Q),
    {
        P == Q
    }
}

/// A witness in canonical form: an odd numerator over a power-of-two
/// denominator, no greater than one.
pub open spec fn canonical<O: Ownership>() -> bool {
    odd(O::num() as int) && is_pow2(O::den() as int) && O::num() <= O::den()
}

/// The denominators the table uses are powers of two.
proof fn lemma_small_pow2()
    ensures
        is_pow2(1),
        is_pow2(2),
        is_pow2(4),
        is_pow2(8),
        is_pow2(16),
        is_pow2(32),
{
    reveal_with_fuel(is_pow2, 6);
}

/// The witnesses that can be halved.  `Split` names the half: the same
/// numerator over twice the denominator, so that two `Split` witnesses sum
/// back to `Self`.
pub trait CanSplit: Ownership {
    /// The witness for half of this share.
    type Split: Ownership;

    /// The split names exactly the half of this share, and it is canonical.
    proof fn split_is_half()
        ensures
            Self::Split::num() == Self::num(),
            Self::Split::den() as int == 2 * Self::den() as int,
            canonical::<Self::Split>(),
    ;
}

/// The pairs of witnesses that can be joined, and the witness their sum
/// reduces to.  A pair whose sum would exceed the whole, or whose sum has no
/// canonical witness in the table, has no entry here, so joining it does not
/// type-check.
pub trait JoinsWith<Other: Ownership>: Ownership {
    /// The canonical witness for the sum of the two shares.
    type Joined: Ownership;

    /// The joined witness is canonical and names exactly the sum of the two
    /// shares.
    proof fn join_is_sum()
        ensures
            canonical::<Self::Joined>(),
            Self::Joined::num() as int * (Self::den() as int * Other::den() as int) == (
            Self::num() as int * Other::den() as int + Other::num() as int
                * Self::den() as int) * Self::Joined::den() as int,
    ;
}

/// The two encodings agree on splitting: halving a runtime share that stands
/// for the same fraction as the witness `A` yields exactly the share that the
/// table's `Split` witness names.
pub proof fn lemma_split_table_matches_algebra<A: CanSplit>(x: crate::ownership::Ownership)
    requires
        x.num() == A::num(),
        x.den() == A::den(),
        x.den() <= u128::MAX / 2,
    ensures
        crate::ownership::split_frac(x).num() == <<A as CanSplit>::Split as Ownership>::num(),
        crate::ownership::split_frac(x).den() == <<A as CanSplit>::Split as Ownership>::den(),
{
    crate::ownership::lemma_split_frac_parts(x);
    A::split_is_half();
}

/// The two encodings agree: joining two runtime shares that stand for the
/// same fractions as the witnesses `A` and `B` yields exactly the share that
/// the table's `Joined` witness names.
pub proof fn lemma_table_matches_algebra<A: JoinsWith<B>, B: Ownership>(
    x: crate::ownership::Ownership,
    y: crate::ownership::Ownership,
)
    requires
        x.wf(),
        y.wf(),
        x.num() == A::num(),
        x.den() == A::den(),
        y.num() == B::num(),
        y.den() == B::den(),
        // the two shares together do not exceed the whole
        A::num() as int * B::den() as int + B::num() as int * A::den() as int <= A::den() as int
            * B::den() as int,
    ensures
        crate::ownership::join_frac(x, y).num() == <<A as JoinsWith<B>>::Joined as Ownership>::num(),
        crate::ownership::join_frac(x, y).den() == <<A as JoinsWith<B>>::Joined as Ownership>::den(),
{
    crate::ownership::lemma_join_frac_props(x, y);
    A::join_is_sum();
    let j = crate::ownership::join_frac(x, y);
    let jn = j.num() as int;
    let jd = j.den() as int;
    let sn = <<A as JoinsWith<B>>::Joined as Ownership>::num() as int;
    let sd = <<A as JoinsWith<B>>::Joined as Ownership>::den() as int;
    let pp = A::num() as int * B::den() as int + B::num() as int * A::den() as int;
    let qq = A::den() as int * B::den() as int;
    assert(qq >= 1) by (nonlinear_arith)
        requires
            qq == A::den() as int * B::den() as int,
            A::den() >= 1,
            B::den() >= 1,
    {}
    // Both the table entry and the runtime join stand for the improper sum
    // `pp/qq`, so they are equal in value ...
    assert(qq * (jn * sd) == (jn * qq) * sd) by (nonlinear_arith);
    assert((jn * qq) * sd == (pp * jd) * sd);
    assert((pp * jd) * sd == (pp * sd) * jd) by (nonlinear_arith);
    assert((pp * sd) * jd == (sn * qq) * jd);
    assert((sn * qq) * jd == qq * (sn * jd)) by (nonlinear_arith);
    vstd::arithmetic::mul::lemma_mul_equality_converse(qq, jn * sd, sn * jd);
    // ... and equal canonical fractions are identical.
    crate::ownership::lemma_canonical_parts(
        j,
        <<A as JoinsWith<B>>::Joined as Ownership>::num(),
        <<A as JoinsWith<B>>::Joined as Ownership>::den(),
    );
}

impl CanSplit for Fraction<1, 1> {
    type Split = Fraction<1, 2>;

    proof fn split_is_half() {
        lemma_small_pow2();
        assert(<Self::Split as Ownership>::num() == 1);
        assert(<Self::Split as Ownership>::den() == 2);
    }
}

impl CanSplit for Fraction<1, 2> {
    type Split = Fraction<1, 4>;

    proof fn split_is_half() {
        lemma_small_pow2();
        assert(<Self::Split as Ownership>::num() == 1);
        assert(<Self::Split as Ownership>::den() == 4);
    }
}

impl CanSplit for Fraction<1, 4> {
    type Split = Fraction<1, 8>;

    proof fn split_is_half() {
        lemma_small_pow2();
        assert(<Self::Split as Ownership>::num() == 1);
        assert(<Self::Split as Ownership>::den() == 8);
    }
}

impl CanSplit for Fraction<1, 8> {
    type Split = Fraction<1, 16>;

    proof fn split_is_half() {
        lemma_small_pow2();
        assert(<Self::Split as Ownership>::num() == 1);
        assert(<Self::Split as Ownership>::den() == 16);
    }
}

impl CanSplit for Fraction<3, 4> {
    type Split = Fraction<3, 8>;

    proof fn split_is_half() {
        lemma_small_pow2();
        assert(<Self::Split as Ownership>::num() == 3);
        assert(<Self::Split as Ownership>::den() == 8);
    }
}

impl CanSplit for Fraction<3, 8> {
    type Split = Fraction<3, 16>;

    proof fn split_is_half() {
        lemma_small_pow2();
        assert(<Self::Split as Ownership>::num() == 3);
        assert(<Self::Split as Ownership>::den() == 16);
    }
}

impl CanSplit for Fraction<5, 8> {
    type Split = Fraction<5, 16>;

    proof fn split_is_half() {
        lemma_small_pow2();
        assert(<Self::Split as Ownership>::num() == 5);
        assert(<Self::Split as Ownership>::den() == 16);
    }
}

impl CanSplit for Fraction<7, 8> {
    type Split = Fraction<7, 16>;

    proof fn split_is_half() {
        lemma_small_pow2();
        assert(<Self::Split as Ownership>::num() == 7);
        assert(<Self::Split as Ownership>::den() == 16);
    }
}

impl JoinsWith<Fraction<1, 2>> for Fraction<1, 2> {
    type Joined = Fraction<1, 1>;

    proof fn join_is_sum() {
        lemma_small_pow2();
        assert(<Fraction<1, 2> as Ownership>::num() == 1);
        assert(<Fraction<1, 2> as Ownership>::den() == 2);
        assert(<Fraction<1, 2> as Ownership>::num() == 1);
        assert(<Fraction<1, 2> as Ownership>::den() == 2);
        assert(<Self::Joined as Ownership>::num() == 1);
        assert(<Self::Joined as Ownership>::den() == 1);
    }
}

impl JoinsWith<Fraction<1, 4>> for Fraction<1, 2> {
    type Joined = Fraction<3, 4>;

    proof fn join_is_sum() {
        lemma_small_pow2();
        assert(<Fraction<1, 2> as Ownership>::num() == 1);
        assert(<Fraction<1, 2> as Ownership>::den() == 2);
        assert(<Fraction<1, 4> as Ownership>::num() == 1);
        assert(<Fraction<1, 4> as Ownership>::den() == 4);
        assert(<Self::Joined as Ownership>::num() == 3);
        assert(<Self::Joined as Ownership>::den() == 4);
    }
}

impl JoinsWith<Fraction<1, 2>> for Fraction<1, 4> {
    type Joined = Fraction<3, 4>;

    proof fn join_is_sum() {
        lemma_small_pow2();
        assert(<Fraction<1, 4> as Ownership>::num() == 1);
        assert(<Fraction<1, 4> as Ownership>::den() == 4);
        assert(<Fraction<1, 2> as Ownership>::num() == 1);
        assert(<Fraction<1, 2> as Ownership>::den() == 2);
        assert(<Self::Joined as Ownership>::num() == 3);
        assert(<Self::Joined as Ownership>::den() == 4);
    }
}

impl JoinsWith<Fraction<1, 8>> for Fraction<1, 2> {
    type Joined = Fraction<5, 8>;

    proof fn join_is_sum() {
        lemma_small_pow2();
        assert(<Fraction<1, 2> as Ownership>::num() == 1);
        assert(<Fraction<1, 2> as Ownership>::den() == 2);
        assert(<Fraction<1, 8> as Ownership>::num() == 1);
        assert(<Fraction<1, 8> as Ownership>::den() == 8);
        assert(<Self::Joined as Ownership>::num() == 5);
        assert(<Self::Joined as Ownership>::den() == 8);
    }
}

impl JoinsWith<Fraction<1, 2>> for Fraction<1, 8> {
    type Joined = Fraction<5, 8>;

    proof fn join_is_sum() {
        lemma_small_pow2();
        assert(<Fraction<1, 8> as Ownership>::num() == 1);
        assert(<Fraction<1, 8> as Ownership>::den() == 8);
        assert(<Fraction<1, 2> as Ownership>::num() == 1);
        assert(<Fraction<1, 2> as Ownership>::den() == 2);
        assert(<Self::Joined as Ownership>::num() == 5);
        assert(<Self::Joined as Ownership>::den() == 8);
    }
}

impl JoinsWith<Fraction<3, 8>> for Fraction<1, 2> {
    type Joined = Fraction<7, 8>;

    proof fn join_is_sum() {
        lemma_small_pow2();
        assert(<Fraction<1, 2> as Ownership>::num() == 1);
        assert(<Fraction<1, 2> as Ownership>::den() == 2);
        assert(<Fraction<3, 8> as Ownership>::num() == 3);
        assert(<Fraction<3, 8> as Ownership>::den() == 8);
        assert(<Self::Joined as Ownership>::num() == 7);
        assert(<Self::Joined as Ownership>::den() == 8);
    }
}

impl JoinsWith<Fraction<1, 2>> for Fraction<3, 8> {
    type Joined = Fraction<7, 8>;

    proof fn join_is_sum() {
        lemma_small_pow2();
        assert(<Fraction<3, 8> as Ownership>::num() == 3);
        assert(<Fraction<3, 8> as Ownership>::den() == 8);
        assert(<Fraction<1, 2> as Ownership>::num() == 1);
        assert(<Fraction<1, 2> as Ownership>::den() == 2);
        assert(<Self::Joined as Ownership>::num() == 7);
        assert(<Self::Joined as Ownership>::den() == 8);
    }
}

impl JoinsWith<Fraction<1, 4>> for Fraction<1, 4> {
    type Joined = Fraction<1, 2>;

    proof fn join_is_sum() {
        lemma_small_pow2();
        assert(<Fraction<1, 4> as Ownership>::num() == 1);
        assert(<Fraction<1, 4> as Ownership>::den() == 4);
        assert(<Fraction<1, 4> as Ownership>::num() == 1);
        assert(<Fraction<1, 4> as Ownership>::den() == 4);
        assert(<Self::Joined as Ownership>::num() == 1);
        assert(<Self::Joined as Ownership>::den() == 2);
    }
}

impl JoinsWith<Fraction<3, 4>> for Fraction<1, 4> {
    type Joined = Fraction<1, 1>;

    proof fn join_is_sum() {
        lemma_small_pow2();
        assert(<Fraction<1, 4> as Ownership>::num() == 1);
        assert(<Fraction<1, 4> as Ownership>::den() == 4);
        assert(<Fraction<3, 4> as Ownership>::num() == 3);
        assert(<Fraction<3, 4> as Ownership>::den() == 4);
        assert(<Self::Joined as Ownership>::num() == 1);
        assert(<Self::Joined as Ownership>::den() == 1);
    }
}

impl JoinsWith<Fraction<1, 4>> for Fraction<3, 4> {
    type Joined = Fraction<1, 1>;

    proof fn join_is_sum() {
        lemma_small_pow2();
        assert(<Fraction<3, 4> as Ownership>::num() == 3);
        assert(<Fraction<3, 4> as Ownership>::den() == 4);
        assert(<Fraction<1, 4> as Ownership>::num() == 1);
        assert(<Fraction<1, 4> as Ownership>::den() == 4);
        assert(<Self::Joined as Ownership>::num() == 1);
        assert(<Self::Joined as Ownership>::den() == 1);
    }
}

impl JoinsWith<Fraction<1, 8>> for Fraction<1, 4> {
    type Joined = Fraction<3, 8>;

    proof fn join_is_sum() {
        lemma_small_pow2();
        assert(<Fraction<1, 4> as Ownership>::num() == 1);
        assert(<Fraction<1, 4> as Ownership>::den() == 4);
        assert(<Fraction<1, 8> as Ownership>::num() == 1);
        assert(<Fraction<1, 8> as Ownership>::den() == 8);
        assert(<Self::Joined as Ownership>::num() == 3);
        assert(<Self::Joined as Ownership>::den() == 8);
    }
}

impl JoinsWith<Fraction<1, 4>> for Fraction<1, 8> {
    type Joined = Fraction<3, 8>;

    proof fn join_is_sum() {
        lemma_small_pow2();
        assert(<Fraction<1, 8> as Ownership>::num() == 1);
        assert(<Fraction<1, 8> as Ownership>::den() == 8);
        assert(<Fraction<1, 4> as Ownership>::num() == 1);
        assert(<Fraction<1, 4> as Ownership>::den() == 4);
        assert(<Self::Joined as Ownership>::num() == 3);
        assert(<Self::Joined as Ownership>::den() == 8);
    }
}

impl JoinsWith<Fraction<3, 8>> for Fraction<1, 4> {
    type Joined = Fraction<5, 8>;

    proof fn join_is_sum() {
        lemma_small_pow2();
        assert(<Fraction<1, 4> as Ownership>::num() == 1);
        assert(<Fraction<1, 4> as Ownership>::den() == 4);
        assert(<Fraction<3, 8> as Ownership>::num() == 3);
        assert(<Fraction<3, 8> as Ownership>::den() == 8);
        assert(<Self::Joined as Ownership>::num() == 5);
        assert(<Self::Joined as Ownership>::den() == 8);
    }
}

impl JoinsWith<Fraction<1, 4>> for Fraction<3, 8> {
    type Joined = Fraction<5, 8>;

    proof fn join_is_sum() {
        lemma_small_pow2();
        assert(<Fraction<3, 8> as Ownership>::num() == 3);
        assert(<Fraction<3, 8> as Ownership>::den() == 8);
        assert(<Fraction<1, 4> as Ownership>::num() == 1);
        assert(<Fraction<1, 4> as Ownership>::den() == 4);
        assert(<Self::Joined as Ownership>::num() == 5);
        assert(<Self::Joined as Ownership>::den() == 8);
    }
}

impl JoinsWith<Fraction<5, 8>> for Fraction<1, 4> {
    type Joined = Fraction<7, 8>;

    proof fn join_is_sum() {
        lemma_small_pow2();
        assert(<Fraction<1, 4> as Ownership>::num() == 1);
        assert(<Fraction<1, 4> as Ownership>::den() == 4);
        assert(<Fraction<5, 8> as Ownership>::num() == 5);
        assert(<Fraction<5, 8> as Ownership>::den() == 8);
        assert(<Self::Joined as Ownership>::num() == 7);
        assert(<Self::Joined as Ownership>::den() == 8);
    }
}

impl JoinsWith<Fraction<1, 4>> for Fraction<5, 8> {
    type Joined = Fraction<7, 8>;

    proof fn join_is_sum() {
        lemma_small_pow2();
        assert(<Fraction<5, 8> as Ownership>::num() == 5);
        assert(<Fraction<5, 8> as Ownership>::den() == 8);
        assert(<Fraction<1, 4> as Ownership>::num() == 1);
        assert(<Fraction<1, 4> as Ownership>::den() == 4);
        assert(<Self::Joined as Ownership>::num() == 7);
        assert(<Self::Joined as Ownership>::den() == 8);
    }
}

impl JoinsWith<Fraction<1, 8>> for Fraction<3, 4> {
    type Joined = Fraction<7, 8>;

    proof fn join_is_sum() {
        lemma_small_pow2();
        assert(<Fraction<3, 4> as Ownership>::num() == 3);
        assert(<Fraction<3, 4> as Ownership>::den() == 4);
        assert(<Fraction<1, 8> as Ownership>::num() == 1);
        assert(<Fraction<1, 8> as Ownership>::den() == 8);
        assert(<Self::Joined as Ownership>::num() == 7);
        assert(<Self::Joined as Ownership>::den() == 8);
    }
}

impl JoinsWith<Fraction<3, 4>> for Fraction<1, 8> {
    type Joined = Fraction<7, 8>;

    proof fn join_is_sum() {
        lemma_small_pow2();
        assert(<Fraction<1, 8> as Ownership>::num() == 1);
        assert(<Fraction<1, 8> as Ownership>::den() == 8);
        assert(<Fraction<3, 4> as Ownership>::num() == 3);
        assert(<Fraction<3, 4> as Ownership>::den() == 4);
        assert(<Self::Joined as Ownership>::num() == 7);
        assert(<Self::Joined as Ownership>::den() == 8);
    }
}

impl JoinsWith<Fraction<1, 8>> for Fraction<1, 8> {
    type Joined = Fraction<1, 4>;

    proof fn join_is_sum() {
        lemma_small_pow2();
        assert(<Fraction<1, 8> as Ownership>::num() == 1);
        assert(<Fraction<1, 8> as Ownership>::den() == 8);
        assert(<Fraction<1, 8> as Ownership>::num() == 1);
        assert(<Fraction<1, 8> as Ownership>::den() == 8);
        assert(<Self::Joined as Ownership>::num() == 1);
        assert(<Self::Joined as Ownership>::den() == 4);
    }
}

impl JoinsWith<Fraction<3, 8>> for Fraction<1, 8> {
    type Joined = Fraction<1, 2>;

    proof fn join_is_sum() {
        lemma_small_pow2();
        assert(<Fraction<1, 8> as Ownership>::num() == 1);
        assert(<Fraction<1, 8> as Ownership>::den() == 8);
        assert(<Fraction<3, 8> as Ownership>::num() == 3);
        assert(<Fraction<3, 8> as Ownership>::den() == 8);
        assert(<Self::Joined as Ownership>::num() == 1);
        assert(<Self::Joined as Ownership>::den() == 2);
    }
}

impl JoinsWith<Fraction<1, 8>> for Fraction<3, 8> {
    type Joined = Fraction<1, 2>;

    proof fn join_is_sum() {
        lemma_small_pow2();
        assert(<Fraction<3, 8> as Ownership>::num() == 3);
        assert(<Fraction<3, 8> as Ownership>::den() == 8);
        assert(<Fraction<1, 8> as Ownership>::num() == 1);
        assert(<Fraction<1, 8> as Ownership>::den() == 8);
        assert(<Self::Joined as Ownership>::num() == 1);
        assert(<Self::Joined as Ownership>::den() == 2);
    }
}

impl JoinsWith<Fraction<5, 8>> for Fraction<1, 8> {
    type Joined = Fraction<3, 4>;

    proof fn join_is_sum() {
        lemma_small_pow2();
        assert(<Fraction<1, 8> as Ownership>::num() == 1);
        assert(<Fraction<1, 8> as Ownership>::den() == 8);
        assert(<Fraction<5, 8> as Ownership>::num() == 5);
        assert(<Fraction<5, 8> as Ownership>::den() == 8);
        assert(<Self::Joined as Ownership>::num() == 3);
        assert(<Self::Joined as Ownership>::den() == 4);
    }
}

impl JoinsWith<Fraction<1, 8>> for Fraction<5, 8> {
    type Joined = Fraction<3, 4>;

    proof fn join_is_sum() {
        lemma_small_pow2();
        assert(<Fraction<5, 8> as Ownership>::num() == 5);
        assert(<Fraction<5, 8> as Ownership>::den() == 8);
        assert(<Fraction<1, 8> as Ownership>::num() == 1);
        assert(<Fraction<1, 8> as Ownership>::den() == 8);
        assert(<Self::Joined as Ownership>::num() == 3);
        assert(<Self::Joined as Ownership>::den() == 4);
    }
}

impl JoinsWith<Fraction<7, 8>> for Fraction<1, 8> {
    type Joined = Fraction<1, 1>;

    proof fn join_is_sum() {
        lemma_small_pow2();
        assert(<Fraction<1, 8> as Ownership>::num() == 1);
        assert(<Fraction<1, 8> as Ownership>::den() == 8);
        assert(<Fraction<7, 8> as Ownership>::num() == 7);
        assert(<Fraction<7, 8> as Ownership>::den() == 8);
        assert(<Self::Joined as Ownership>::num() == 1);
        assert(<Self::Joined as Ownership>::den() == 1);
    }
}

impl JoinsWith<Fraction<1, 8>> for Fraction<7, 8> {
    type Joined = Fraction<1, 1>;

    proof fn join_is_sum() {
        lemma_small_pow2();
        assert(<Fraction<7, 8> as Ownership>::num() == 7);
        assert(<Fraction<7, 8> as Ownership>::den() == 8);
        assert(<Fraction<1, 8> as Ownership>::num() == 1);
        assert(<Fraction<1, 8> as Ownership>::den() == 8);
        assert(<Self::Joined as Ownership>::num() == 1);
        assert(<Self::Joined as Ownership>::den() == 1);
    }
}

impl JoinsWith<Fraction<3, 8>> for Fraction<3, 8> {
    type Joined = Fraction<3, 4>;

    proof fn join_is_sum() {
        lemma_small_pow2();
        assert(<Fraction<3, 8> as Ownership>::num() == 3);
        assert(<Fraction<3, 8> as Ownership>::den() == 8);
        assert(<Fraction<3, 8> as Ownership>::num() == 3);
        assert(<Fraction<3, 8> as Ownership>::den() == 8);
        assert(<Self::Joined as Ownership>::num() == 3);
        assert(<Self::Joined as Ownership>::den() == 4);
    }
}

impl JoinsWith<Fraction<5, 8>> for Fraction<3, 8> {
    type Joined = Fraction<1, 1>;

    proof fn join_is_sum() {
        lemma_small_pow2();
        assert(<Fraction<3, 8> as Ownership>::num() == 3);
        assert(<Fraction<3, 8> as Ownership>::den() == 8);
        assert(<Fraction<5, 8> as Ownership>::num() == 5);
        assert(<Fraction<5, 8> as Ownership>::den() == 8);
        assert(<Self::Joined as Ownership>::num() == 1);
        assert(<Self::Joined as Ownership>::den() == 1);
    }
}

impl JoinsWith<Fraction<3, 8>> for Fraction<5, 8> {
    type Joined = Fraction<1, 1>;

    proof fn join_is_sum() {
        lemma_small_pow2();
        assert(<Fraction<5, 8> as Ownership>::num() == 5);
        assert(<Fraction<5, 8> as Ownership>::den() == 8);
        assert(<Fraction<3, 8> as Ownership>::num() == 3);
        assert(<Fraction<3, 8> as Ownership>::den() == 8);
        assert(<Self::Joined as Ownership>::num() == 1);
        assert(<Self::Joined as Ownership>::den() == 1);
    }
}

impl JoinsWith<Fraction<1, 16>> for Fraction<1, 16> {
    type Joined = Fraction<1, 8>;

    proof fn join_is_sum() {
        lemma_small_pow2();
        assert(<Fraction<1, 16> as Ownership>::num() == 1);
        assert(<Fraction<1, 16> as Ownership>::den() == 16);
        assert(<Fraction<1, 16> as Ownership>::num() == 1);
        assert(<Fraction<1, 16> as Ownership>::den() == 16);
        assert(<Self::Joined as Ownership>::num() == 1);
        assert(<Self::Joined as Ownership>::den() == 8);
    }
}

impl JoinsWith<Fraction<3, 16>> for Fraction<3, 16> {
    type Joined = Fraction<3, 8>;

    proof fn join_is_sum() {
        lemma_small_pow2();
        assert(<Fraction<3, 16> as Ownership>::num() == 3);
        assert(<Fraction<3, 16> as Ownership>::den() == 16);
        assert(<Fraction<3, 16> as Ownership>::num() == 3);
        assert(<Fraction<3, 16> as Ownership>::den() == 16);
        assert(<Self::Joined as Ownership>::num() == 3);
        assert(<Self::Joined as Ownership>::den() == 8);
    }
}

impl JoinsWith<Fraction<5, 16>> for Fraction<5, 16> {
    type Joined = Fraction<5, 8>;

    proof fn join_is_sum() {
        lemma_small_pow2();
        assert(<Fraction<5, 16> as Ownership>::num() == 5);
        assert(<Fraction<5, 16> as Ownership>::den() == 16);
        assert(<Fraction<5, 16> as Ownership>::num() == 5);
        assert(<Fraction<5, 16> as Ownership>::den() == 16);
        assert(<Self::Joined as Ownership>::num() == 5);
        assert(<Self::Joined as Ownership>::den() == 8);
    }
}

impl JoinsWith<Fraction<7, 16>> for Fraction<7, 16> {
    type Joined = Fraction<7, 8>;

    proof fn join_is_sum() {
        lemma_small_pow2();
        assert(<Fraction<7, 16> as Ownership>::num() == 7);
        assert(<Fraction<7, 16> as Ownership>::den() == 16);
        assert(<Fraction<7, 16> as Ownership>::num() == 7);
        assert(<Fraction<7, 16> as Ownership>::den() == 16);
        assert(<Self::Joined as Ownership>::num() == 7);
        assert(<Self::Joined as Ownership>::den() == 8);
    }
}


} // verus!
