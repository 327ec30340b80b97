//! The type-level witnesses: the split/join table and the fullness decision.

use fracbox::marker;
use fracbox::prat::{
    CanSplit, Eighth, Fraction, Full, Half, JoinsWith, Ownership, Quarter, Sixteenth,
    ThreeQuarters,
};

#[test]
fn witness_fullness() {
    assert!(<Full as Ownership>::is_full());
    assert!(!<Half as Ownership>::is_full());
    assert!(!<Quarter as Ownership>::is_full());
    assert!(!<Eighth as Ownership>::is_full());
    assert!(!<Sixteenth as Ownership>::is_full());
    assert!(!<ThreeQuarters as Ownership>::is_full());
}

#[test]
fn split_relation_names_the_half() {
    // each binding type-checks only because the table names exactly the half
    let _: <Full as CanSplit>::Split = Fraction::<1, 2>;
    let _: <Half as CanSplit>::Split = Fraction::<1, 4>;
    let _: <Quarter as CanSplit>::Split = Fraction::<1, 8>;
    let _: <Eighth as CanSplit>::Split = Fraction::<1, 16>;
    let _: <ThreeQuarters as CanSplit>::Split = Fraction::<3, 8>;
}

#[test]
fn join_relation_names_the_canonical_sum() {
    let _: <Half as JoinsWith<Half>>::Joined = Fraction::<1, 1>;
    let _: <Half as JoinsWith<Quarter>>::Joined = Fraction::<3, 4>;
    let _: <Quarter as JoinsWith<Half>>::Joined = Fraction::<3, 4>;
    let _: <Quarter as JoinsWith<ThreeQuarters>>::Joined = Fraction::<1, 1>;
    let _: <Eighth as JoinsWith<Eighth>>::Joined = Fraction::<1, 4>;
    let _: <Sixteenth as JoinsWith<Sixteenth>>::Joined = Fraction::<1, 8>;
    let _: <Fraction<3, 8> as JoinsWith<Fraction<5, 8>>>::Joined = Fraction::<1, 1>;
    assert!(<<Half as JoinsWith<Half>>::Joined as Ownership>::is_full());
    assert!(!<<Half as JoinsWith<Quarter>>::Joined as Ownership>::is_full());
}

#[test]
fn marker_witness_fullness() {
    assert!(<marker::Full as marker::Ownership>::is_full());
    assert!(!<marker::Partial<marker::Full> as marker::Ownership>::is_full());
    assert!(!<marker::Partial<marker::Partial<marker::Full>> as marker::Ownership>::is_full());
}
