//! The fractional-share algebra over explicit fractions.
//!
//! A share is a rational in `(0, 1]` kept in canonical form: an odd numerator
//! over a power-of-two denominator.  Splitting doubles the denominator;
//! joining adds the two fractions and divides out the greatest common divisor,
//! so the result is canonical again.  The laws at the end of this module prove
//! that the canonical form is unique, that joining is commutative and
//! associative, and that joining the two halves of a split restores the share
//! that was split — the algebraic facts the handle discipline rests on.  The
//! family lemmas around `cell_ok` then follow one heap cell through its life:
//! its live shares start as the one full share, keep summing to exactly the
//! whole across every split and join, and admit a full share only as the sole
//! survivor — which is what entitles that share to mutate and deallocate.

use vstd::arithmetic::div_mod::{
    lemma_div_is_ordered, lemma_div_is_ordered_by_denominator, lemma_div_multiples_vanish,
    lemma_fundamental_div_mod, lemma_fundamental_div_mod_converse_mod, lemma_mod_multiples_basic,
};
use vstd::arithmetic::mul::{
    lemma_mul_equality_converse, lemma_mul_inequality, lemma_mul_inequality_converse,
    lemma_mul_strict_inequality_converse,
};
use vstd::prelude::*;

verus! {

/// True of an odd integer.
pub open spec fn odd(n: int) -> bool {
    n % 2 == 1
}

/// True of the powers of two: 1, 2, 4, 8, ...
pub open spec fn is_pow2(n: int) -> bool
    decreases n,
{
    if n <= 0 {
        false
    } else if n == 1 {
        true
    } else {
        n % 2 == 0 && is_pow2(n / 2)
    }
}

/// `d` divides `n`.
pub open spec fn divides(d: int, n: int) -> bool {
    exists|k: int| n == #[trigger] (k * d)
}

/// Euclid's recursion: the reference meaning of a greatest common divisor.
pub open spec fn gcd_spec(a: nat, b: nat) -> nat
    decreases b,
{
    if b == 0 {
        a
    } else {
        gcd_spec(b, a % b)
    }
}

/// A fractional share in canonical form: an odd numerator over a power-of-two
/// denominator, no greater than one.
#[derive(Copy, Clone, PartialEq, Eq, Structural, PartialOrd, Ord, Debug)]
pub struct Ownership(u128, u128);

impl Ownership {
    /// The numerator of the share.
    pub closed spec fn num(self) -> u128 {
        self.0
    }

    /// The denominator of the share.
    pub closed spec fn den(self) -> u128 {
        self.1
    }

    /// Canonical form: an odd numerator over a power-of-two denominator,
    /// and the share is in `(0, 1]`.
    pub open spec fn wf(self) -> bool {
        odd(self.num() as int) && is_pow2(self.den() as int) && self.num() <= self.den()
    }

    /// Whether this share is the whole: in canonical form, exactly `1/1`.
    pub open spec fn is_full_spec(self) -> bool {
        self.num() == 1 && self.den() == 1
    }

    /// The whole share, `1/1`.
    pub fn full() -> (r: Ownership)
        ensures
            r.wf(),
            r.is_full_spec(),
            r.num() == 1,
            r.den() == 1,
    {
        Ownership(1, 1)
    }

    /// Runtime form of `is_full_spec`: the deallocation decision.
    pub fn is_full(&self) -> (b: bool)
        ensures
            b == self.is_full_spec(),
    {
        self.0 == 1 && self.1 == 1
    }

    /// The numerator, for inspection.
    pub fn numerator(&self) -> (n: u128)
        ensures
            n == self.num(),
    {
        self.0
    }

    /// The denominator, for inspection.
    pub fn denominator(&self) -> (d: u128)
        ensures
            d == self.den(),
    {
        self.1
    }
}

/// What `split` returns: the same numerator over twice the denominator.
pub closed spec fn split_frac(input: Ownership) -> Ownership {
    Ownership(input.num(), (input.den() * 2) as u128)
}

/// The two halves of `p/q` are each `p/2q`.  A canonical share can always be
/// halved as long as the doubled denominator is still representable.
pub fn split(input: Ownership) -> (r: Ownership)
    requires
        input.wf(),
        input.den() <= u128::MAX / 2,
    ensures
        r == split_frac(input),
        r.wf(),
        r.num() == input.num(),
        r.den() == 2 * input.den(),
        // halving: twice the result is the input, as fractions
        2 * (r.num() as int) * (input.den() as int) == (input.num() as int) * (r.den() as int),
{
    proof {
        lemma_pow2_double(input.den() as int);
        assert(2 * (input.num() as int) * (input.den() as int) == (input.num() as int) * (2
            * (input.den() as int))) by (nonlinear_arith);
    }
    Ownership(input.0, input.1 * 2)
}

/// The parts of a halved share: the numerator is kept, the denominator is
/// doubled.
pub proof fn lemma_split_frac_parts(o: Ownership)
    requires
        o.den() <= u128::MAX / 2,
    ensures
        split_frac(o).num() == o.num(),
        split_frac(o).den() as int == 2 * o.den() as int,
{
}

/// Doubling a power of two gives a power of two.
proof fn lemma_pow2_double(n: int)
    requires
        is_pow2(n),
    ensures
        is_pow2(2 * n),
{
    lemma_mod_multiples_basic(n, 2);
    assert((2 * n) % 2 == 0);
    assert((2 * n) / 2 == n) by {
        lemma_div_multiples_vanish(n, 2);
    }
}

/// Relies on `gcd::binary_u128`: the greatest common divisor of its two
/// arguments (with `gcd(n, 0) == gcd(0, n) == n`), which is what Euclid's
/// recursion computes.
#[verifier::external_body]
fn gcd_u128(a: u128, b: u128) -> (r: u128)
    ensures
        r == gcd_spec(a as nat, b as nat),
{
    gcd::binary_u128(a, b)
}

/// The greatest common divisor divides both arguments and is positive as soon
/// as either argument is.
proof fn lemma_gcd_divides(a: nat, b: nat)
    ensures
        divides(gcd_spec(a, b) as int, a as int),
        divides(gcd_spec(a, b) as int, b as int),
        a > 0 || b > 0 ==> gcd_spec(a, b) > 0,
    decreases b,
{
    if b == 0 {
        assert(a as int == 1 * (gcd_spec(a, b) as int));
        assert(b as int == 0 * (gcd_spec(a, b) as int));
    } else {
        lemma_gcd_divides(b, a % b);
        let g = gcd_spec(b, a % b) as int;
        let k1 = choose|k: int| b as int == #[trigger] (k * g);
        let k2 = choose|k: int| (a % b) as int == #[trigger] (k * g);
        lemma_fundamental_div_mod(a as int, b as int);
        let q = a as int / b as int;
        assert(a as int == (k1 * q + k2) * g) by (nonlinear_arith)
            requires
                a as int == (b as int) * q + (a % b) as int,
                b as int == k1 * g,
                (a % b) as int == k2 * g,
        {}
    }
}

/// An odd number times an odd number is odd.
proof fn lemma_odd_mul_odd(a: int, b: int)
    requires
        odd(a),
        odd(b),
    ensures
        odd(a * b),
{
    lemma_fundamental_div_mod(a, 2);
    lemma_fundamental_div_mod(b, 2);
    let x = a / 2;
    let y = b / 2;
    assert(a * b == (2 * x * y + x + y) * 2 + 1) by (nonlinear_arith)
        requires
            a == 2 * x + 1,
            b == 2 * y + 1,
    {}
    lemma_fundamental_div_mod_converse_mod(a * b, 2, 2 * x * y + x + y, 1);
}

/// A non-negative even number is twice its own half.
proof fn lemma_even_divides(n: int)
    requires
        n >= 0,
        n % 2 == 0,
    ensures
        n == 2 * (n / 2),
        divides(2, n),
{
    lemma_fundamental_div_mod(n, 2);
    assert(n == (n / 2) * 2);
}

/// A positive odd divisor of twice a number divides the number itself.
proof fn lemma_odd_divides_double(d: int, m: int)
    requires
        d >= 1,
        odd(d),
        m >= 0,
        divides(d, 2 * m),
    ensures
        divides(d, m),
{
    let k = choose|k: int| 2 * m == #[trigger] (k * d);
    assert(k >= 0) by (nonlinear_arith)
        requires
            k * d == 2 * m,
            m >= 0,
            d >= 1,
    {}
    if k % 2 == 1 {
        lemma_odd_mul_odd(k, d);
        lemma_mod_multiples_basic(m, 2);
        assert(false);
    } else {
        lemma_even_divides(k);
        let k2 = k / 2;
        assert(m == k2 * d) by (nonlinear_arith)
            requires
                2 * m == k * d,
                k == 2 * k2,
        {}
    }
}

/// A positive divisor of a power of two is itself a power of two, and so is
/// the quotient.
proof fn lemma_pow2_divisor(n: int, d: int)
    requires
        is_pow2(n),
        d >= 1,
        divides(d, n),
    ensures
        is_pow2(d),
        is_pow2(n / d),
        n == d * (n / d),
    decreases n,
{
    let k = choose|k: int| n == #[trigger] (k * d);
    if n == 1 {
        assert(k >= 1) by (nonlinear_arith)
            requires
                k * d == 1,
                d >= 1,
        {}
        lemma_mul_inequality(1, k, d);
        assert(d == 1);
    } else {
        lemma_even_divides(n);
        let n2 = n / 2;
        if d % 2 == 1 {
            assert(2 * n2 == k * d);
            lemma_odd_divides_double(d, n2);
            lemma_pow2_divisor(n2, d);
            let k2 = choose|k: int| n2 == #[trigger] (k * d);
            lemma_div_multiples_vanish(k2, d);
            assert(n2 / d == k2);
            assert(n == (2 * k2) * d) by (nonlinear_arith)
                requires
                    n == 2 * n2,
                    n2 == k2 * d,
            {}
            lemma_div_multiples_vanish(2 * k2, d);
            assert(n / d == 2 * k2);
            lemma_pow2_double(k2);
            assert(n == d * (n / d)) by (nonlinear_arith)
                requires
                    n == (2 * k2) * d,
                    n / d == 2 * k2,
            {}
        } else {
            lemma_even_divides(d);
            let d2 = d / 2;
            assert(n2 == k * d2) by (nonlinear_arith)
                requires
                    n == k * d,
                    n == 2 * n2,
                    d == 2 * d2,
            {}
            lemma_pow2_divisor(n2, d2);
            lemma_pow2_double(d2);
            lemma_div_multiples_vanish(k, d);
            lemma_div_multiples_vanish(k, d2);
            assert(n / d == k && n2 / d2 == k);
            assert(n == d * (n / d)) by (nonlinear_arith)
                requires
                    n == k * d,
                    n / d == k,
            {}
        }
    }
}

/// A power of two is positive.
proof fn lemma_pow2_pos(n: int)
    requires
        is_pow2(n),
    ensures
        n >= 1,
{
}

/// A product of two powers of two is a power of two.
proof fn lemma_pow2_mul(a: int, b: int)
    requires
        is_pow2(a),
        is_pow2(b),
    ensures
        is_pow2(a * b),
    decreases a,
{
    if a == 1 {
        assert(1 * b == b) by (nonlinear_arith);
    } else {
        lemma_even_divides(a);
        let a2 = a / 2;
        lemma_pow2_mul(a2, b);
        assert(a * b == 2 * (a2 * b)) by (nonlinear_arith)
            requires
                a == 2 * a2,
        {}
        lemma_pow2_double(a2 * b);
    }
}

/// Of two powers of two, the smaller divides the larger, with a power-of-two
/// quotient.
proof fn lemma_pow2_le_divides(a: int, b: int)
    requires
        is_pow2(a),
        is_pow2(b),
        a <= b,
    ensures
        divides(a, b),
        b == (b / a) * a,
        is_pow2(b / a),
    decreases a,
{
    if a == 1 {
        assert(b == b * 1) by (nonlinear_arith);
        assert(b / 1 == b) by {
            lemma_div_multiples_vanish(b, 1);
            assert(1 * b == b) by (nonlinear_arith);
        }
    } else {
        lemma_pow2_pos(b);
        lemma_even_divides(a);
        lemma_even_divides(b);
        let a2 = a / 2;
        let b2 = b / 2;
        lemma_pow2_le_divides(a2, b2);
        let k = b2 / a2;
        assert(b == k * a) by (nonlinear_arith)
            requires
                b2 == k * a2,
                a == 2 * a2,
                b == 2 * b2,
        {}
        lemma_div_multiples_vanish(k, a);
        assert(b / a == k);
    }
}

/// Canonical forms are unique: two canonical fractions of equal value are
/// equal componentwise.
proof fn lemma_canon_unique_int(p: int, q: int, r: int, s: int)
    requires
        odd(p),
        odd(r),
        is_pow2(q),
        is_pow2(s),
        p * s == r * q,
    ensures
        p == r,
        q == s,
    decreases q,
{
    lemma_pow2_pos(q);
    lemma_pow2_pos(s);
    if q == 1 && s == 1 {
        assert(p * 1 == p && r * 1 == r) by (nonlinear_arith);
    } else if q == 1 {
        lemma_even_divides(s);
        let s2 = s / 2;
        assert(r == (p * s2) * 2) by (nonlinear_arith)
            requires
                p * s == r * q,
                q == 1,
                s == 2 * s2,
        {}
        lemma_mod_multiples_basic(p * s2, 2);
        assert(false);
    } else if s == 1 {
        lemma_even_divides(q);
        let q2 = q / 2;
        assert(p == (r * q2) * 2) by (nonlinear_arith)
            requires
                p * s == r * q,
                s == 1,
                q == 2 * q2,
        {}
        lemma_mod_multiples_basic(r * q2, 2);
        assert(false);
    } else {
        lemma_even_divides(q);
        lemma_even_divides(s);
        let q2 = q / 2;
        let s2 = s / 2;
        assert(p * s2 == r * q2) by (nonlinear_arith)
            requires
                p * s == r * q,
                q == 2 * q2,
                s == 2 * s2,
        {}
        lemma_canon_unique_int(p, q2, r, s2);
    }
}

/// Canonical forms are unique: two canonical shares that stand for the same
/// value are the same share.  In particular, a share equal in value to `2/4`
/// can only be the share `1/2`.
pub proof fn lemma_canonical_unique(a: Ownership, b: Ownership)
    requires
        a.wf(),
        b.wf(),
        a.num() as int * b.den() as int == b.num() as int * a.den() as int,
    ensures
        a == b,
{
    lemma_canon_unique_int(
        a.num() as int,
        a.den() as int,
        b.num() as int,
        b.den() as int,
    );
}

/// Every common divisor of the two arguments divides their greatest common
/// divisor.
proof fn lemma_gcd_greatest(a: nat, b: nat, d: int)
    requires
        d >= 1,
        divides(d, a as int),
        divides(d, b as int),
    ensures
        divides(d, gcd_spec(a, b) as int),
    decreases b,
{
    if b == 0 {
    } else {
        let k1 = choose|k: int| a as int == #[trigger] (k * d);
        let k2 = choose|k: int| b as int == #[trigger] (k * d);
        lemma_fundamental_div_mod(a as int, b as int);
        let q = a as int / b as int;
        assert((a % b) as int == (k1 - k2 * q) * d) by (nonlinear_arith)
            requires
                a as int == (b as int) * q + (a % b) as int,
                a as int == k1 * d,
                b as int == k2 * d,
        {}
        lemma_gcd_greatest(b, a % b, d);
    }
}

/// Dividing an improper fraction `pp/qq` — with `1 <= pp <= qq` and `qq` a
/// power of two — by the greatest common divisor of its parts yields the
/// canonical form of the same value.
proof fn lemma_reduce_canonical(pp: int, qq: int)
    requires
        1 <= pp,
        pp <= qq,
        is_pow2(qq),
    ensures
        ({
            let g = gcd_spec(pp as nat, qq as nat) as int;
            &&& g >= 1
            &&& pp == (pp / g) * g
            &&& qq == (qq / g) * g
            &&& odd(pp / g)
            &&& is_pow2(qq / g)
            &&& 1 <= pp / g
            &&& pp / g <= qq / g
            &&& (pp / g) * qq == pp * (qq / g)
            &&& (pp == qq ==> pp / g == 1 && qq / g == 1)
        }),
{
    let g = gcd_spec(pp as nat, qq as nat) as int;
    lemma_gcd_divides(pp as nat, qq as nat);
    let k1 = choose|k: int| pp == #[trigger] (k * g);
    let k2 = choose|k: int| qq == #[trigger] (k * g);
    lemma_pow2_divisor(qq, g);
    lemma_div_multiples_vanish(k1, g);
    lemma_div_multiples_vanish(k2, g);
    assert(pp / g == k1 && qq / g == k2);
    assert(k1 >= 1) by (nonlinear_arith)
        requires
            k1 * g == pp,
            pp >= 1,
            g >= 1,
    {}
    lemma_div_is_ordered(pp, qq, g);
    assert(k1 * qq == pp * k2) by (nonlinear_arith)
        requires
            pp == k1 * g,
            qq == k2 * g,
    {}
    if k2 == 1 {
        assert(k1 == 1);
    } else {
        lemma_pow2_pos(qq / g);
        if k1 % 2 == 0 {
            lemma_even_divides(k1);
            lemma_even_divides(k2);
            assert(pp == (k1 / 2) * (2 * g)) by (nonlinear_arith)
                requires
                    pp == k1 * g,
                    k1 == 2 * (k1 / 2),
            {}
            assert(qq == (k2 / 2) * (2 * g)) by (nonlinear_arith)
                requires
                    qq == k2 * g,
                    k2 == 2 * (k2 / 2),
            {}
            lemma_gcd_greatest(pp as nat, qq as nat, 2 * g);
            let k3 = choose|k: int| g == #[trigger] (k * (2 * g));
            assert(false) by (nonlinear_arith)
                requires
                    g == k3 * (2 * g),
                    g >= 1,
            {}
        }
    }
    if pp == qq {
        assert(k1 == k2);
    }
}

/// What `join` returns: the canonical form of the sum of the two shares.  The
/// improper sum `p/q + r/s` is `(p*s + r*q) / (q*s)`; dividing out the
/// greatest common divisor reduces it to canonical form.
pub closed spec fn join_frac(a: Ownership, b: Ownership) -> Ownership {
    let pp = a.num() as int * b.den() as int + b.num() as int * a.den() as int;
    let qq = a.den() as int * b.den() as int;
    let g = gcd_spec(pp as nat, qq as nat) as int;
    Ownership((pp / g) as u128, (qq / g) as u128)
}

/// What joining does to the fraction model: the result is canonical, it
/// stands for exactly the sum of the two shares, its denominator is no larger
/// than one of the two given denominators, and it is the whole share exactly
/// when the two shares sum to the whole.
pub proof fn lemma_join_frac_props(a: Ownership, b: Ownership)
    requires
        a.wf(),
        b.wf(),
        // the two shares together do not exceed the whole
        a.num() as int * b.den() as int + b.num() as int * a.den() as int <= a.den() as int
            * b.den() as int,
    ensures
        join_frac(a, b).wf(),
        join_frac(a, b).num() as int * (a.den() as int * b.den() as int) == (a.num() as int
            * b.den() as int + b.num() as int * a.den() as int) * join_frac(a, b).den() as int,
        join_frac(a, b).den() <= a.den() || join_frac(a, b).den() <= b.den(),
        join_frac(a, b).is_full_spec() <==> a.num() as int * b.den() as int + b.num() as int
            * a.den() as int == a.den() as int * b.den() as int,
{
    let p = a.num() as int;
    let q = a.den() as int;
    let r = b.num() as int;
    let s = b.den() as int;
    let pp = p * s + r * q;
    let qq = q * s;
    lemma_pow2_pos(q);
    lemma_pow2_pos(s);
    assert(pp >= 1) by (nonlinear_arith)
        requires
            pp == p * s + r * q,
            p >= 1,
            q >= 1,
            r >= 1,
            s >= 1,
    {}
    lemma_pow2_mul(q, s);
    lemma_reduce_canonical(pp, qq);
    let g = gcd_spec(pp as nat, qq as nat) as int;
    // The smaller denominator divides both parts of the improper sum, so it
    // divides the reduction factor; the reduced denominator therefore fits
    // under the larger denominator.
    let mn = if q <= s {
        q
    } else {
        s
    };
    let mx = if q <= s {
        s
    } else {
        q
    };
    lemma_pow2_le_divides(mn, mx);
    let t = choose|k: int| mx == #[trigger] (k * mn);
    if q <= s {
        assert(pp == (p * t + r) * mn) by (nonlinear_arith)
            requires
                pp == p * s + r * q,
                s == t * mn,
                q == mn,
        {}
        assert(qq == (t * mn) * mn) by (nonlinear_arith)
            requires
                qq == q * s,
                s == t * mn,
                q == mn,
        {}
    } else {
        assert(pp == (p + r * t) * mn) by (nonlinear_arith)
            requires
                pp == p * s + r * q,
                q == t * mn,
                s == mn,
        {}
        assert(qq == (t * mn) * mn) by (nonlinear_arith)
            requires
                qq == q * s,
                q == t * mn,
                s == mn,
        {}
    }
    lemma_gcd_greatest(pp as nat, qq as nat, mn);
    let u = choose|k: int| g == #[trigger] (k * mn);
    assert(g >= mn) by (nonlinear_arith)
        requires
            g == u * mn,
            g >= 1,
            mn >= 1,
    {}
    lemma_div_is_ordered_by_denominator(qq, mn, g);
    lemma_div_multiples_vanish(mx, mn);
    assert(mn * mx == qq) by (nonlinear_arith)
        requires
            qq == q * s,
            mn == if q <= s {
                q
            } else {
                s
            },
            mx == if q <= s {
                s
            } else {
                q
            },
    {}
    assert(qq / mn == mx);
    assert(qq / g <= mx);
    // Both reduced parts fit in the machine word, so the model is faithful.
    assert(join_frac(a, b).num() as int == pp / g && join_frac(a, b).den() as int == qq / g);
    if join_frac(a, b).is_full_spec() {
        assert(1 * qq == pp * 1 && qq == pp) by (nonlinear_arith)
            requires
                (pp / g) * qq == pp * (qq / g),
                pp / g == 1,
                qq / g == 1,
        {}
    }
}

/// Join two shares into the canonical form of their sum.  A pair is joinable
/// only when the sum does not exceed the whole share; the result is the whole
/// share exactly when the two halves of that inequality meet.
pub fn join(a: Ownership, b: Ownership) -> (r: Ownership)
    requires
        a.wf(),
        b.wf(),
        // the two shares together do not exceed the whole
        a.num() as int * b.den() as int + b.num() as int * a.den() as int <= a.den() as int
            * b.den() as int,
        // machine limit: the common denominator must be representable
        a.den() as int * b.den() as int <= u128::MAX as int,
    ensures
        r == join_frac(a, b),
        r.wf(),
        r.num() as int * (a.den() as int * b.den() as int) == (a.num() as int * b.den() as int
            + b.num() as int * a.den() as int) * r.den() as int,
        r.is_full_spec() <==> a.num() as int * b.den() as int + b.num() as int * a.den() as int
            == a.den() as int * b.den() as int,
{
    proof {
        lemma_join_frac_props(a, b);
        assert(a.num() as int * b.den() as int >= 1 && b.num() as int * a.den() as int
            >= 1) by (nonlinear_arith)
            requires
                a.num() >= 1,
                b.num() >= 1,
                a.den() >= 1,
                b.den() >= 1,
        {}
        let pp = a.num() as int * b.den() as int + b.num() as int * a.den() as int;
        let qq = a.den() as int * b.den() as int;
        lemma_pow2_mul(a.den() as int, b.den() as int);
        lemma_reduce_canonical(pp, qq);
    }
    let improper_p = a.0 * b.1 + b.0 * a.1;
    let improper_q = a.1 * b.1;
    let reduction_factor = gcd_u128(improper_p, improper_q);
    Ownership(improper_p / reduction_factor, improper_q / reduction_factor)
}

/// The two shares of a split, joined, restore the share that was split; in
/// the words of the algebra, joining a witness with itself yields the unique
/// parent whose split produced it.
pub proof fn lemma_split_then_join(o: Ownership)
    requires
        o.wf(),
        o.den() <= u128::MAX / 2,
    ensures
        join_frac(split_frac(o), split_frac(o)) == o,
{
    let p = o.num() as int;
    let q = o.den() as int;
    let h = split_frac(o);
    lemma_pow2_double(q);
    lemma_pow2_pos(q);
    assert(h.num() as int == p && h.den() as int == 2 * q);
    assert(h.num() as int * h.den() as int + h.num() as int * h.den() as int <= h.den() as int
        * h.den() as int) by (nonlinear_arith)
        requires
            h.num() as int == p,
            h.den() as int == 2 * q,
            p <= q,
            q >= 1,
    {}
    lemma_join_frac_props(h, h);
    let j = join_frac(h, h);
    let jn = j.num() as int;
    let jd = j.den() as int;
    lemma_pow2_pos(jd);
    assert(jn * q == p * jd) by (nonlinear_arith)
        requires
            jn * ((2 * q) * (2 * q)) == (p * (2 * q) + p * (2 * q)) * jd,
            q >= 1,
    {}
    lemma_canonical_unique(j, o);
}

/// Joining is associative: on three shares that together do not exceed the
/// whole, either order of the two joins yields the same canonical share.
/// Together with commutativity, this extends to any parenthesisation of a
/// sequence of joins.
#[verifier::rlimit(30)]
pub proof fn lemma_join_assoc(a: Ownership, b: Ownership, c: Ownership)
    requires
        a.wf(),
        b.wf(),
        c.wf(),
        // the three shares together do not exceed the whole
        a.num() as int * (b.den() as int * c.den() as int) + b.num() as int * (a.den() as int
            * c.den() as int) + c.num() as int * (a.den() as int * b.den() as int) <= a.den() as int
            * (b.den() as int * c.den() as int),
    ensures
        join_frac(join_frac(a, b), c) == join_frac(a, join_frac(b, c)),
{
    let p1 = a.num() as int;
    let q1 = a.den() as int;
    let p2 = b.num() as int;
    let q2 = b.den() as int;
    let p3 = c.num() as int;
    let q3 = c.den() as int;
    let dab = q1 * q2;
    let sab = p1 * q2 + p2 * q1;
    let dbc = q2 * q3;
    let sbc = p2 * q3 + p3 * q2;
    let total = p1 * (q2 * q3) + p2 * (q1 * q3) + p3 * (q1 * q2);
    let whole = q1 * (q2 * q3);
    lemma_pow2_pos(q1);
    lemma_pow2_pos(q2);
    lemma_pow2_pos(q3);
    assert(dab >= 1 && dbc >= 1 && whole == dab * q3 && whole == q1 * dbc && total == sab * q3 + p3
        * dab && total == p1 * dbc + sbc * q1) by (nonlinear_arith)
        requires
            q1 >= 1,
            q2 >= 1,
            q3 >= 1,
            dab == q1 * q2,
            sab == p1 * q2 + p2 * q1,
            dbc == q2 * q3,
            sbc == p2 * q3 + p3 * q2,
            total == p1 * (q2 * q3) + p2 * (q1 * q3) + p3 * (q1 * q2),
            whole == q1 * (q2 * q3),
    {}
    // The first two shares alone stay within the whole.
    assert(sab * q3 <= dab * q3 - dab) by (nonlinear_arith)
        requires
            total == sab * q3 + p3 * dab,
            total <= whole,
            whole == dab * q3,
            p3 >= 1,
            dab >= 1,
    {}
    assert(sab * q3 < dab * q3);
    lemma_mul_strict_inequality_converse(sab, dab, q3);
    // ... and so do the last two.
    assert(sbc * q1 <= dbc * q1 - dbc) by (nonlinear_arith)
        requires
            total == p1 * dbc + sbc * q1,
            total <= whole,
            whole == q1 * dbc,
            p1 >= 1,
            dbc >= 1,
    {}
    assert(sbc * q1 < dbc * q1);
    lemma_mul_strict_inequality_converse(sbc, dbc, q1);
    // Join the first two; the result stays joinable with the third.
    lemma_join_frac_props(a, b);
    let j1 = join_frac(a, b);
    let n1 = j1.num() as int;
    let d1 = j1.den() as int;
    lemma_pow2_pos(d1);
    assert((n1 * q3 + p3 * d1) * dab == (d1 * q3) * dab - (whole - total) * d1) by (nonlinear_arith)
        requires
            n1 * dab == sab * d1,
            total == sab * q3 + p3 * dab,
            whole == dab * q3,
    {}
    assert((n1 * q3 + p3 * d1) * dab <= (d1 * q3) * dab) by (nonlinear_arith)
        requires
            (n1 * q3 + p3 * d1) * dab == (d1 * q3) * dab - (whole - total) * d1,
            total <= whole,
            d1 >= 1,
    {}
    lemma_mul_inequality_converse(n1 * q3 + p3 * d1, d1 * q3, dab);
    lemma_join_frac_props(j1, c);
    let j2 = join_frac(j1, c);
    let n2 = j2.num() as int;
    let d2 = j2.den() as int;
    // The left-nested join stands for the total over the common denominator.
    assert(d1 * (n2 * whole) == (n2 * (d1 * q3)) * dab) by (nonlinear_arith)
        requires
            whole == dab * q3,
    {}
    assert((n2 * (d1 * q3)) * dab == ((n1 * q3 + p3 * d1) * d2) * dab);
    assert(((n1 * q3 + p3 * d1) * d2) * dab == (n1 * q3) * (d2 * dab) + (p3 * d1) * (d2
        * dab)) by (nonlinear_arith);
    assert((n1 * q3) * (d2 * dab) == (n1 * dab) * (q3 * d2)) by (nonlinear_arith);
    assert((n1 * dab) * (q3 * d2) == (sab * d1) * (q3 * d2));
    assert((sab * d1) * (q3 * d2) == d1 * ((sab * q3) * d2)) by (nonlinear_arith);
    assert((p3 * d1) * (d2 * dab) == d1 * ((p3 * dab) * d2)) by (nonlinear_arith);
    assert(d1 * ((sab * q3) * d2) + d1 * ((p3 * dab) * d2) == d1 * ((sab * q3 + p3 * dab)
        * d2)) by (nonlinear_arith);
    assert(d1 * ((sab * q3 + p3 * dab) * d2) == d1 * (total * d2));
    lemma_mul_equality_converse(d1, n2 * whole, total * d2);
    // Join the last two; the first share stays joinable with the result.
    lemma_join_frac_props(b, c);
    let k1 = join_frac(b, c);
    let m1 = k1.num() as int;
    let e1 = k1.den() as int;
    lemma_pow2_pos(e1);
    assert((p1 * e1 + m1 * q1) * dbc == (q1 * e1) * dbc - (whole - total) * e1) by (nonlinear_arith)
        requires
            m1 * dbc == sbc * e1,
            total == p1 * dbc + sbc * q1,
            whole == q1 * dbc,
    {}
    assert((p1 * e1 + m1 * q1) * dbc <= (q1 * e1) * dbc) by (nonlinear_arith)
        requires
            (p1 * e1 + m1 * q1) * dbc == (q1 * e1) * dbc - (whole - total) * e1,
            total <= whole,
            e1 >= 1,
    {}
    lemma_mul_inequality_converse(p1 * e1 + m1 * q1, q1 * e1, dbc);
    lemma_join_frac_props(a, k1);
    let k2 = join_frac(a, k1);
    let m2 = k2.num() as int;
    let e2 = k2.den() as int;
    // The right-nested join stands for the same total.
    assert(e1 * (m2 * whole) == (m2 * (q1 * e1)) * dbc) by (nonlinear_arith)
        requires
            whole == q1 * dbc,
    {}
    assert((m2 * (q1 * e1)) * dbc == ((p1 * e1 + m1 * q1) * e2) * dbc);
    assert(((p1 * e1 + m1 * q1) * e2) * dbc == (p1 * e1) * (e2 * dbc) + (m1 * q1) * (e2
        * dbc)) by (nonlinear_arith);
    assert((m1 * q1) * (e2 * dbc) == (m1 * dbc) * (q1 * e2)) by (nonlinear_arith);
    assert((m1 * dbc) * (q1 * e2) == (sbc * e1) * (q1 * e2));
    assert((p1 * e1) * (e2 * dbc) == e1 * ((p1 * dbc) * e2)) by (nonlinear_arith);
    assert((sbc * e1) * (q1 * e2) == e1 * ((sbc * q1) * e2)) by (nonlinear_arith);
    assert(e1 * ((p1 * dbc) * e2) + e1 * ((sbc * q1) * e2) == e1 * ((p1 * dbc + sbc * q1)
        * e2)) by (nonlinear_arith);
    assert(e1 * ((p1 * dbc + sbc * q1) * e2) == e1 * (total * e2));
    lemma_mul_equality_converse(e1, m2 * whole, total * e2);
    // Equal values in canonical form are the same share.
    assert(whole * (n2 * e2) == whole * (m2 * d2)) by (nonlinear_arith)
        requires
            n2 * whole == total * d2,
            m2 * whole == total * e2,
    {}
    assert(whole >= 1) by (nonlinear_arith)
        requires
            q1 >= 1,
            q2 >= 1,
            q3 >= 1,
            whole == q1 * (q2 * q3),
    {}
    lemma_mul_equality_converse(whole, n2 * e2, m2 * d2);
    lemma_canonical_unique(j2, k2);
}

/// A canonical share is the whole exactly when its numerator meets its
/// denominator: `is_full` answers for the value `1`, not just for the spelling
/// `1/1`.
pub proof fn lemma_full_iff_whole(o: Ownership)
    requires
        o.wf(),
    ensures
        o.is_full_spec() <==> o.num() == o.den(),
{
    if o.num() == o.den() {
        lemma_canonical_parts(o, 1, 1);
    }
}

/// Canonical uniqueness, stated against a fraction given by its parts: a
/// canonical share equal in value to the canonical fraction `n/d` has exactly
/// the numerator `n` and the denominator `d`.
pub proof fn lemma_canonical_parts(a: Ownership, n: u128, d: u128)
    requires
        a.wf(),
        odd(n as int),
        is_pow2(d as int),
        n <= d,
        a.num() as int * d as int == n as int * a.den() as int,
    ensures
        a.num() == n,
        a.den() == d,
{
    lemma_canon_unique_int(a.num() as int, a.den() as int, n as int, d as int);
}

/// The whole share joins with nothing: any share added to it exceeds the
/// whole, so no pair offered to `join` may contain it.
pub proof fn lemma_full_joins_with_nothing(a: Ownership, b: Ownership)
    requires
        a.wf(),
        b.wf(),
        a.is_full_spec(),
    ensures
        a.num() as int * b.den() as int + b.num() as int * a.den() as int > a.den() as int
            * b.den() as int,
{
    assert(a.num() as int * b.den() as int + b.num() as int * a.den() as int > a.den() as int
        * b.den() as int) by (nonlinear_arith)
        requires
            a.num() == 1,
            a.den() == 1,
            b.num() >= 1,
    {}
}

/// One step of a family sum: the share `o` added on top of the running
/// improper sum `r`, over the product of the denominators.
pub open spec fn sum_step(o: Ownership, r: (int, int)) -> (int, int) {
    (o.num() as int * r.1 + r.0 * o.den() as int, o.den() as int * r.1)
}

/// The improper sum of a family of shares: the numerator and denominator of
/// the sum of the fractions, accumulated without reduction.  A cell's live
/// handles always carry shares that sum to exactly the whole.
pub open spec fn seq_sum(ws: Seq<Ownership>) -> (int, int)
    decreases ws.len(),
{
    if ws.len() == 0 {
        (0int, 1int)
    } else {
        sum_step(ws[0], seq_sum(ws.subrange(1, ws.len() as int)))
    }
}

/// The sum of a family of well-formed shares is positive as soon as the
/// family is not empty.
proof fn lemma_seq_sum_pos(ws: Seq<Ownership>)
    requires
        forall|j: int| 0 <= j < ws.len() ==> (#[trigger] ws[j]).wf(),
    ensures
        seq_sum(ws).1 >= 1,
        seq_sum(ws).0 >= 0,
        ws.len() >= 1 ==> seq_sum(ws).0 >= 1,
    decreases ws.len(),
{
    if ws.len() == 0 {
    } else {
        let rest = ws.subrange(1, ws.len() as int);
        assert forall|j: int| 0 <= j < rest.len() implies (#[trigger] rest[j]).wf() by {
            assert(rest[j] == ws[j + 1]);
        }
        lemma_seq_sum_pos(rest);
        let r = seq_sum(rest);
        let p0 = ws[0].num() as int;
        let q0 = ws[0].den() as int;
        lemma_pow2_pos(q0);
        assert(p0 * r.1 + r.0 * q0 >= 1 && q0 * r.1 >= 1) by (nonlinear_arith)
            requires
                p0 >= 1,
                q0 >= 1,
                r.1 >= 1,
                r.0 >= 0,
        {}
    }
}

/// Each member of a well-formed family is at most the family sum, and
/// strictly below it as soon as the family has a second member.
proof fn lemma_seq_share_bound(ws: Seq<Ownership>, i: int)
    requires
        forall|j: int| 0 <= j < ws.len() ==> (#[trigger] ws[j]).wf(),
        0 <= i < ws.len(),
    ensures
        ws[i].num() as int * seq_sum(ws).1 <= seq_sum(ws).0 * ws[i].den() as int,
        ws.len() >= 2 ==> ws[i].num() as int * seq_sum(ws).1 < seq_sum(ws).0 * ws[i].den() as int,
    decreases ws.len(),
{
    let rest = ws.subrange(1, ws.len() as int);
    assert forall|j: int| 0 <= j < rest.len() implies (#[trigger] rest[j]).wf() by {
        assert(rest[j] == ws[j + 1]);
    }
    lemma_seq_sum_pos(rest);
    let r = seq_sum(rest);
    let p0 = ws[0].num() as int;
    let q0 = ws[0].den() as int;
    let pi = ws[i].num() as int;
    let qi = ws[i].den() as int;
    lemma_pow2_pos(q0);
    lemma_pow2_pos(qi);
    if i == 0 {
        assert(pi * (q0 * r.1) <= (p0 * r.1 + r.0 * q0) * qi) by (nonlinear_arith)
            requires
                pi == p0,
                qi == q0,
                r.0 >= 0,
                q0 >= 1,
        {}
        if ws.len() >= 2 {
            assert(pi * (q0 * r.1) < (p0 * r.1 + r.0 * q0) * qi) by (nonlinear_arith)
                requires
                    pi == p0,
                    qi == q0,
                    r.0 >= 1,
                    q0 >= 1,
            {}
        }
    } else {
        lemma_seq_share_bound(rest, i - 1);
        assert(rest[i - 1] == ws[i]);
        assert(pi * (q0 * r.1) < (p0 * r.1 + r.0 * q0) * qi) by (nonlinear_arith)
            requires
                pi * r.1 <= r.0 * qi,
                p0 >= 1,
                q0 >= 1,
                qi >= 1,
                r.1 >= 1,
        {}
    }
}

/// A healthy cell: every live share is canonical, and together the live
/// shares sum to exactly the whole.  This is the aliasing invariant the
/// handles maintain, and the lemmas below show that every transition of a
/// cell's life — boxing a value, splitting a share, joining two shares —
/// keeps it.
pub open spec fn cell_ok(ws: Seq<Ownership>) -> bool {
    &&& forall|j: int| 0 <= j < ws.len() ==> (#[trigger] ws[j]).wf()
    &&& seq_sum(ws).0 == seq_sum(ws).1
}

/// The aliasing invariant: in a healthy cell, a full share can only be the
/// sole live share — so the holder of a full share may mutate or deallocate.
pub proof fn lemma_full_share_is_alone(ws: Seq<Ownership>, i: int)
    requires
        cell_ok(ws),
        0 <= i < ws.len(),
        ws[i].is_full_spec(),
    ensures
        ws.len() == 1,
{
    if ws.len() >= 2 {
        lemma_seq_share_bound(ws, i);
    }
}

/// Two shares on top of the same running sum may be added in either order.
proof fn lemma_sum_step_swap(a: Ownership, b: Ownership, r: (int, int))
    ensures
        sum_step(a, sum_step(b, r)) == sum_step(b, sum_step(a, r)),
{
    let pa = a.num() as int;
    let qa = a.den() as int;
    let pb = b.num() as int;
    let qb = b.den() as int;
    assert((pb * r.1 + r.0 * qb) * qa == (pb * r.1) * qa + (r.0 * qb) * qa) by (nonlinear_arith);
    assert((pa * r.1 + r.0 * qa) * qb == (pa * r.1) * qb + (r.0 * qa) * qb) by (nonlinear_arith);
    assert(pa * (qb * r.1) == (pa * r.1) * qb) by (nonlinear_arith);
    assert(pb * (qa * r.1) == (pb * r.1) * qa) by (nonlinear_arith);
    assert((r.0 * qb) * qa == (r.0 * qa) * qb) by (nonlinear_arith);
    assert(qa * (qb * r.1) == qb * (qa * r.1)) by (nonlinear_arith);
}

/// The family sum does not depend on the order of the family: any member can
/// be brought to the front.
proof fn lemma_seq_sum_move_to_front(ws: Seq<Ownership>, i: int)
    requires
        0 <= i < ws.len(),
    ensures
        seq_sum(ws) == seq_sum(seq![ws[i]] + ws.remove(i)),
    decreases i,
{
    let moved = seq![ws[i]] + ws.remove(i);
    if i == 0 {
        assert(moved =~= ws);
    } else {
        let rest = ws.subrange(1, ws.len() as int);
        lemma_seq_sum_move_to_front(rest, i - 1);
        let tail = rest.remove(i - 1);
        let rest_moved = seq![rest[i - 1]] + tail;
        assert(rest_moved[0] == ws[i]);
        assert(rest_moved.subrange(1, rest_moved.len() as int) =~= tail);
        assert(seq_sum(rest_moved) == sum_step(ws[i], seq_sum(tail)));
        assert(seq_sum(ws) == sum_step(ws[0], sum_step(ws[i], seq_sum(tail))));
        let moved_tail = moved.subrange(1, moved.len() as int);
        assert(moved[0] == ws[i]);
        assert(seq_sum(moved) == sum_step(ws[i], seq_sum(moved_tail)));
        assert(moved_tail =~= seq![ws[0]] + tail);
        assert(moved_tail[0] == ws[0]);
        assert(moved_tail.subrange(1, moved_tail.len() as int) =~= tail);
        assert(seq_sum(moved_tail) == sum_step(ws[0], seq_sum(tail)));
        lemma_sum_step_swap(ws[0], ws[i], seq_sum(tail));
    }
}

/// Transition `new`: boxing a value opens its cell with the one full share,
/// and that family is healthy.
pub proof fn lemma_cell_start(o: Ownership)
    requires
        o.is_full_spec(),
    ensures
        cell_ok(seq![o]),
{
    let ws = seq![o];
    reveal_with_fuel(seq_sum, 3);
    assert(ws[0].wf());
    assert(seq_sum(ws).0 == seq_sum(ws).1);
}

/// Transition `split`: replacing one share of a healthy family by the two
/// halves of that share keeps the family healthy.
pub proof fn lemma_cell_split(ws: Seq<Ownership>, i: int)
    requires
        cell_ok(ws),
        0 <= i < ws.len(),
        ws[i].den() <= u128::MAX / 2,
    ensures
        cell_ok(seq![split_frac(ws[i]), split_frac(ws[i])] + ws.remove(i)),
{
    let o = ws[i];
    let h = split_frac(o);
    let rest = ws.remove(i);
    let before = seq![o] + rest;
    let after = seq![h, h] + rest;
    lemma_seq_sum_move_to_front(ws, i);
    assert(before[0] == o);
    assert(before.subrange(1, before.len() as int) =~= rest);
    assert(seq_sum(before) == sum_step(o, seq_sum(rest)));
    let after_tail = after.subrange(1, after.len() as int);
    assert(after[0] == h);
    assert(seq_sum(after) == sum_step(h, seq_sum(after_tail)));
    assert(after_tail =~= seq![h] + rest);
    assert(after_tail[0] == h);
    assert(after_tail.subrange(1, after_tail.len() as int) =~= rest);
    assert(seq_sum(after_tail) == sum_step(h, seq_sum(rest)));
    let p = o.num() as int;
    let q = o.den() as int;
    lemma_pow2_double(q);
    lemma_pow2_pos(q);
    assert(h.num() as int == p && h.den() as int == 2 * q);
    assert(h.wf());
    let r = seq_sum(rest);
    let b0 = sum_step(o, r);
    let a1 = sum_step(h, r);
    let a0 = sum_step(h, a1);
    assert(seq_sum(before) == b0 && seq_sum(after) == a0);
    // The new sum is the old one, scaled by a common factor.
    assert(a0.0 == (4 * q) * b0.0 && a0.1 == (4 * q) * b0.1) by (nonlinear_arith)
        requires
            b0.0 == p * r.1 + r.0 * q,
            b0.1 == q * r.1,
            a1.0 == p * r.1 + r.0 * (2 * q),
            a1.1 == (2 * q) * r.1,
            a0.0 == p * a1.1 + a1.0 * (2 * q),
            a0.1 == (2 * q) * a1.1,
    {}
    assert forall|k: int| 0 <= k < after.len() implies (#[trigger] after[k]).wf() by {
        if k >= 2 {
            assert(after[k] == rest[k - 2]);
            if k - 2 < i {
                assert(rest[k - 2] == ws[k - 2]);
            } else {
                assert(rest[k - 2] == ws[k - 1]);
            }
        }
    }
}

/// Transition `join`: two distinct members of a healthy family never sum past
/// the whole — they can always be joined — and replacing the two by their
/// join keeps the family healthy.
#[verifier::rlimit(50)]
pub proof fn lemma_cell_join(ws: Seq<Ownership>, i: int, j: int)
    requires
        cell_ok(ws),
        0 <= i < ws.len(),
        0 <= j < ws.len(),
        i != j,
    ensures
        ws[i].num() as int * ws[j].den() as int + ws[j].num() as int * ws[i].den() as int
            <= ws[i].den() as int * ws[j].den() as int,
        cell_ok(
            seq![join_frac(ws[i], ws[j])] + ws.remove(i).remove(
                if j < i {
                    j
                } else {
                    j - 1
                },
            ),
        ),
{
    let a = ws[i];
    let b = ws[j];
    let ws1 = ws.remove(i);
    let j1 = if j < i {
        j
    } else {
        j - 1
    };
    assert(ws1[j1] == ws[j]);
    let rest = ws1.remove(j1);
    lemma_seq_sum_move_to_front(ws, i);
    lemma_seq_sum_move_to_front(ws1, j1);
    let before1 = seq![a] + ws1;
    let before2 = seq![b] + rest;
    assert(before1[0] == a);
    assert(before1.subrange(1, before1.len() as int) =~= ws1);
    assert(seq_sum(before1) == sum_step(a, seq_sum(ws1)));
    assert(before2[0] == b);
    assert(before2.subrange(1, before2.len() as int) =~= rest);
    assert(seq_sum(before2) == sum_step(b, seq_sum(rest)));
    assert forall|k: int| 0 <= k < rest.len() implies (#[trigger] rest[k]).wf() by {
        let k1 = if k < j1 {
            k
        } else {
            k + 1
        };
        assert(rest[k] == ws1[k1]);
        if k1 < i {
            assert(ws1[k1] == ws[k1]);
        } else {
            assert(ws1[k1] == ws[k1 + 1]);
        }
    }
    lemma_seq_sum_pos(rest);
    let r = seq_sum(rest);
    let x = sum_step(b, r);
    let s1 = sum_step(a, x);
    assert(seq_sum(ws) == s1);
    let pa = a.num() as int;
    let qa = a.den() as int;
    let pb = b.num() as int;
    let qb = b.den() as int;
    lemma_pow2_pos(qa);
    lemma_pow2_pos(qb);
    let cross = pa * qb + pb * qa;
    let common = qa * qb;
    assert(common >= 1) by (nonlinear_arith)
        requires
            common == qa * qb,
            qa >= 1,
            qb >= 1,
    {}
    assert(s1.0 == cross * r.1 + r.0 * common && s1.1 == common * r.1) by (nonlinear_arith)
        requires
            x.0 == pb * r.1 + r.0 * qb,
            x.1 == qb * r.1,
            s1.0 == pa * x.1 + x.0 * qa,
            s1.1 == qa * x.1,
            cross == pa * qb + pb * qa,
            common == qa * qb,
    {}
    // Within a healthy family, the pair stays within the whole.
    assert(cross * r.1 <= common * r.1) by (nonlinear_arith)
        requires
            s1.0 == cross * r.1 + r.0 * common,
            s1.1 == common * r.1,
            s1.0 == s1.1,
            r.0 >= 0,
            common >= 1,
    {}
    lemma_mul_inequality_converse(cross, common, r.1);
    // The joined share stands for the pair's sum, so the sum of the new
    // family equals the sum of the old one.
    lemma_join_frac_props(a, b);
    let c = join_frac(a, b);
    let pc = c.num() as int;
    let qc = c.den() as int;
    lemma_pow2_pos(qc);
    let after = seq![c] + rest;
    assert(after[0] == c);
    assert(after.subrange(1, after.len() as int) =~= rest);
    let s2 = sum_step(c, r);
    assert(seq_sum(after) == s2);
    assert(s2.0 * s1.1 == (pc * common) * (r.1 * r.1) + (r.0 * qc) * (common
        * r.1)) by (nonlinear_arith)
        requires
            s2.0 == pc * r.1 + r.0 * qc,
            s1.1 == common * r.1,
    {}
    assert(s1.0 * s2.1 == (cross * qc) * (r.1 * r.1) + (r.0 * common) * (qc
        * r.1)) by (nonlinear_arith)
        requires
            s1.0 == cross * r.1 + r.0 * common,
            s2.1 == qc * r.1,
    {}
    assert((pc * common) * (r.1 * r.1) == (cross * qc) * (r.1 * r.1));
    assert((r.0 * qc) * (common * r.1) == (r.0 * common) * (qc * r.1)) by (nonlinear_arith);
    assert(s2.0 * s1.1 == s1.0 * s2.1);
    assert(s1.1 >= 1) by (nonlinear_arith)
        requires
            s1.1 == common * r.1,
            common >= 1,
            r.1 >= 1,
    {}
    assert(s2.0 * s1.1 == s2.1 * s1.1) by (nonlinear_arith)
        requires
            s2.0 * s1.1 == s1.0 * s2.1,
            s1.0 == s1.1,
    {}
    lemma_mul_inequality_converse(s2.0, s2.1, s1.1);
    lemma_mul_inequality_converse(s2.1, s2.0, s1.1);
    assert forall|k: int| 0 <= k < after.len() implies (#[trigger] after[k]).wf() by {
        if k >= 1 {
            assert(after[k] == rest[k - 1]);
        }
    }
}

/// Joining is commutative: the two shares may be given in either order.
pub proof fn lemma_join_comm(a: Ownership, b: Ownership)
    ensures
        join_frac(a, b) == join_frac(b, a),
{
    assert(a.den() as int * b.den() as int == b.den() as int * a.den() as int) by (nonlinear_arith);
}

} // verus!
