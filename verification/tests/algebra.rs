//! The runtime fraction algebra: splitting, joining, canonical form.

use fracbox::ownership::{join, split, Ownership};

#[test]
fn full_is_full() {
    let full = Ownership::full();
    assert!(full.is_full());
    assert_eq!(full.numerator(), 1);
    assert_eq!(full.denominator(), 1);
}

#[test]
fn split_of_full_is_half() {
    let half = split(Ownership::full());
    assert_eq!(half.numerator(), 1);
    assert_eq!(half.denominator(), 2);
    assert!(!half.is_full());
}

#[test]
fn split_keeps_halving() {
    let half = split(Ownership::full());
    let quarter = split(half);
    let eighth = split(quarter);
    assert_eq!(quarter.numerator(), 1);
    assert_eq!(quarter.denominator(), 4);
    assert_eq!(eighth.numerator(), 1);
    assert_eq!(eighth.denominator(), 8);
}

#[test]
fn join_restores_what_split_divided() {
    let full = Ownership::full();
    let half = split(full);
    assert!(join(half, half).is_full());
    let quarter = split(half);
    assert_eq!(join(quarter, quarter), half);
}

#[test]
fn join_reduces_to_canonical_form() {
    // the improper sum 1/4 + 1/4 = 2/4 comes back reduced, as 1/2
    let quarter = split(split(Ownership::full()));
    let sum = join(quarter, quarter);
    assert_eq!(sum.numerator(), 1);
    assert_eq!(sum.denominator(), 2);
}

#[test]
fn join_unequal_shares() {
    let half = split(Ownership::full());
    let quarter = split(half);
    let three_quarters = join(half, quarter);
    assert_eq!(three_quarters.numerator(), 3);
    assert_eq!(three_quarters.denominator(), 4);
    assert!(join(three_quarters, quarter).is_full());
}

#[test]
fn join_is_commutative() {
    let half = split(Ownership::full());
    let quarter = split(half);
    let eighth = split(quarter);
    assert_eq!(join(half, quarter), join(quarter, half));
    assert_eq!(join(half, eighth), join(eighth, half));
}

#[test]
fn join_is_associative() {
    let half = split(Ownership::full());
    let quarter = split(half);
    let eighth = split(quarter);
    let left = join(join(half, quarter), eighth);
    let right = join(half, join(quarter, eighth));
    assert_eq!(left, right);
    assert_eq!(left.numerator(), 7);
    assert_eq!(left.denominator(), 8);
}

#[test]
fn eight_way_split_rejoins_pairwise() {
    let full = Ownership::full();
    let eighth = split(split(split(full)));
    let quarter = join(eighth, eighth);
    let half = join(quarter, quarter);
    let whole = join(half, half);
    assert_eq!(quarter.denominator(), 4);
    assert_eq!(half.denominator(), 2);
    assert!(whole.is_full());
}

#[test]
fn any_parenthesisation_of_a_partition_of_one_is_full() {
    let half = split(Ownership::full());
    let quarter = split(half);
    let eighth = split(quarter);
    // 1/2 + 1/4 + 1/8 + 1/8 == 1, in several association orders
    let a = join(join(join(half, quarter), eighth), eighth);
    let b = join(half, join(quarter, join(eighth, eighth)));
    let c = join(join(half, quarter), join(eighth, eighth));
    assert!(a.is_full());
    assert!(b.is_full());
    assert!(c.is_full());
    assert_eq!(a, b);
    assert_eq!(b, c);
}

#[test]
fn complementary_eighths_join_to_full() {
    let half = split(Ownership::full());
    let quarter = split(half);
    let eighth = split(quarter);
    let three_eighths = join(quarter, eighth);
    let five_eighths = join(half, eighth);
    assert_eq!(three_eighths.numerator(), 3);
    assert_eq!(three_eighths.denominator(), 8);
    assert_eq!(five_eighths.numerator(), 5);
    assert_eq!(five_eighths.denominator(), 8);
    assert!(join(three_eighths, five_eighths).is_full());
}

#[test]
fn sibling_sixteenths_rejoin() {
    let half = split(Ownership::full());
    let quarter = split(half);
    let three_quarters = join(half, quarter);
    let three_eighths = split(three_quarters);
    let three_sixteenths = split(three_eighths);
    assert_eq!(three_sixteenths.numerator(), 3);
    assert_eq!(three_sixteenths.denominator(), 16);
    assert_eq!(join(three_sixteenths, three_sixteenths), three_eighths);
}

#[test]
fn deep_splits_stay_canonical() {
    let mut o = Ownership::full();
    let mut expected_den: u128 = 1;
    for _ in 0..20 {
        o = split(o);
        expected_den *= 2;
        assert_eq!(o.numerator(), 1);
        assert_eq!(o.denominator(), expected_den);
        assert!(!o.is_full());
    }
}
