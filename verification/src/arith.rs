//! Quotients rounded up.

use vstd::prelude::*;

verus! {

/// The quotient, rounded up.
pub open spec fn up(a: nat, b: nat) -> nat {
    ((a + b - 1) as nat) / b
}

/// The quotient, rounded up.
pub fn div_up(a: u128, b: u128) -> (q: u128)
    requires
        b > 0,
    ensures
        q == up(a as nat, b as nat),
        q <= a,
{
    let whole: u128 = a / b;
    let rest: u128 = a % b;
    proof {
        let x = a as int;
        let y = b as int;
        vstd::arithmetic::div_mod::lemma_fundamental_div_mod(x, y);
        let m = x + y - 1;
        if rest == 0 {
            assert(m == y * whole + (y - 1));
            vstd::arithmetic::div_mod::lemma_fundamental_div_mod_converse(m, y, whole as int, y - 1);
        } else {
            assert(m == y * (whole + 1) + (rest - 1)) by (nonlinear_arith)
                requires
                    x == y * whole + rest,
                    m == x + y - 1,
            ;
            vstd::arithmetic::div_mod::lemma_fundamental_div_mod_converse(
                m,
                y,
                whole + 1,
                rest - 1,
            );
        }
        assert(whole <= a && (rest != 0 ==> whole < a)) by (nonlinear_arith)
            requires
                a == b * whole + rest,
                b > 0,
        ;
    }
    if rest == 0 {
        whole
    } else {
        whole + 1
    }
}

/// Rounded up, a quotient is the least that is enough.
pub proof fn lemma_up_is_the_least_enough(a: nat, b: nat)
    requires
        b > 0,
    ensures
        a <= up(a, b) * b,
        a > 0 ==> (up(a, b) - 1) * b < a,
        a == 0 ==> up(a, b) == 0,
{
    let m = (a + b - 1) as int;
    let q = up(a, b) as int;
    vstd::arithmetic::div_mod::lemma_fundamental_div_mod(m, b as int);
    vstd::arithmetic::div_mod::lemma_mod_bound(m, b as int);
    let r = m % b as int;
    assert(a <= q * b && (q - 1) * b < a) by (nonlinear_arith)
        requires
            a + b - 1 == b * q + r,
            0 <= r < b,
            b > 0,
    ;
    if a == 0 {
        vstd::arithmetic::div_mod::lemma_basic_div(m, b as int);
    }
}

} // verus!
