//! The packed encoding: a share counted in units of `2^-128` in one `u128`,
//! with zero standing for the full share.

use fracbox::{join, split};

#[test]
fn packed_split_of_full_is_half() {
    let half = split(0);
    assert_eq!(half, u128::MAX / 2 + 1);
}

#[test]
fn packed_halves_rejoin_to_full() {
    let half = split(0);
    assert_eq!(join(half, half), 0);
}

#[test]
fn packed_split_keeps_halving() {
    let half = split(0);
    let quarter = split(half);
    let eighth = split(quarter);
    assert_eq!(quarter, half / 2);
    assert_eq!(eighth, half / 4);
    assert_eq!(join(eighth, eighth), quarter);
    assert_eq!(join(quarter, quarter), half);
}

#[test]
fn packed_join_adds_weights() {
    let half = split(0);
    let quarter = split(half);
    let eighth = split(quarter);
    assert_eq!(join(half, quarter), half + quarter);
    assert_eq!(join(join(half, quarter), join(eighth, eighth)), 0);
}
