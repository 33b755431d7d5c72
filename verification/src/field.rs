//! The base prime field: integers modulo `FIELD_ORDER = 2^64 - 2^32 + 1`.
//!
//! A field element is a `u64` holding its canonical representative,
//! i.e. a value strictly below `FIELD_ORDER`.

use vstd::calc;
use vstd::prelude::*;

verus! {

/// Order of the base prime field, `2^64 - 2^32 + 1`.
pub const FIELD_ORDER: u64 = 18446744069414584321;

/// The field order as a mathematical integer, for use in contracts.
pub open spec fn fp() -> int {
    FIELD_ORDER as int
}

/// A `u64` is a canonical field element when it is below the order.
pub open spec fn in_field(x: u64) -> bool {
    x < FIELD_ORDER
}

/// Every element of a coefficient sequence is a canonical representative.
pub open spec fn seq_in_field(s: Seq<int>) -> bool {
    forall|i: int| 0 <= i < s.len() ==> 0 <= #[trigger] s[i] < fp()
}

/// Modular sum of two representatives.
pub open spec fn add_f(a: int, b: int) -> int {
    (a + b) % fp()
}

/// Modular difference; the `fp()` offset keeps the dividend non-negative.
pub open spec fn sub_f(a: int, b: int) -> int {
    (a - b + fp()) % fp()
}

/// Modular product of two representatives.
pub open spec fn mul_f(a: int, b: int) -> int {
    (a * b) % fp()
}

/// Additive inverse.
pub open spec fn neg_f(a: int) -> int {
    (fp() - a) % fp()
}

/// Field addition.
pub fn f_add(a: u64, b: u64) -> (r: u64)
    requires
        in_field(a),
        in_field(b),
    ensures
        in_field(r),
        r == add_f(a as int, b as int),
{
    let m: u128 = FIELD_ORDER as u128;
    let s: u128 = a as u128 + b as u128;
    let rr: u128 = s % m;
    assert(rr < m);
    rr as u64
}

/// Field subtraction.
pub fn f_sub(a: u64, b: u64) -> (r: u64)
    requires
        in_field(a),
        in_field(b),
    ensures
        in_field(r),
        r == sub_f(a as int, b as int),
{
    let m: u128 = FIELD_ORDER as u128;
    let s: u128 = a as u128 + m - b as u128;
    let rr: u128 = s % m;
    assert(rr < m);
    rr as u64
}

/// Field multiplication.
pub fn f_mul(a: u64, b: u64) -> (r: u64)
    requires
        in_field(a),
        in_field(b),
    ensures
        in_field(r),
        r == mul_f(a as int, b as int),
{
    let m: u128 = FIELD_ORDER as u128;
    proof {
        assert((a as int) * (b as int) < (0x100000000000000000000000000000000 as int))
            by (nonlinear_arith)
            requires a < 0x10000000000000000, b < 0x10000000000000000;
    }
    let p: u128 = a as u128 * b as u128;
    let rr: u128 = p % m;
    assert(rr < m);
    rr as u64
}

/// `NEG_ONE`, the canonical representative of `-1`.
pub fn f_neg_one() -> (r: u64)
    ensures
        in_field(r),
        r == neg_f(1),
{
    proof {
        vstd::arithmetic::div_mod::lemma_small_mod((FIELD_ORDER - 1) as nat, FIELD_ORDER as nat);
    }
    FIELD_ORDER - 1
}

/// Modular power: `b^e` reduced into the field.
pub open spec fn pow_f(b: int, e: nat) -> int {
    vstd::arithmetic::power::pow(b, e) % fp()
}

/// Field exponentiation by squaring.
#[verifier::loop_isolation(false)]
pub fn f_pow(b: u64, e: u64) -> (r: u64)
    requires
        in_field(b),
    ensures
        in_field(r),
        r == pow_f(b as int, e as nat),
{
    let mut result: u64 = 1;
    let mut base: u64 = b;
    let mut exp: u64 = e;
    proof {
        vstd::arithmetic::power::lemma_pow0(b as int);
        vstd::arithmetic::div_mod::lemma_small_mod(1nat, FIELD_ORDER as nat);
    }
    while exp > 0
        invariant
            in_field(result),
            in_field(base),
            (result * vstd::arithmetic::power::pow(base as int, exp as nat)) % fp()
                == pow_f(b as int, e as nat),
        decreases exp,
    {
        let ghost res0 = result as int;
        let ghost base0 = base as int;
        let ghost exp0 = exp as nat;
        if exp % 2 == 1 {
            result = f_mul(result, base);
        }
        base = f_mul(base, base);
        exp = exp / 2;
        proof {
            lemma_pow_step(res0, base0, exp0, result as int, base as int);
        }
    }
    proof {
        vstd::arithmetic::power::lemma_pow0(base as int);
        vstd::arithmetic::div_mod::lemma_small_mod(result as nat, FIELD_ORDER as nat);
    }
    result
}

/// One square-and-multiply step preserves `result * base^exp` modulo the order.
proof fn lemma_pow_step(res0: int, base0: int, exp0: nat, res1: int, base1: int)
    requires
        exp0 > 0,
        0 <= res0 < fp(),
        0 <= base0 < fp(),
        res1 == if exp0 % 2 == 1 { (res0 * base0) % fp() } else { res0 },
        base1 == (base0 * base0) % fp(),
    ensures
        (res1 * vstd::arithmetic::power::pow(base1, (exp0 / 2) as nat)) % fp()
            == (res0 * vstd::arithmetic::power::pow(base0, exp0)) % fp(),
{
    reveal(vstd::arithmetic::power::pow);
    let p = fp();
    let h = (exp0 / 2) as nat;
    let pw = vstd::arithmetic::power::pow(base0, exp0);
    let pwh2 = vstd::arithmetic::power::pow(base0, (2 * h) as nat);
    // base1^h mod p equals base0^(2h) mod p.
    vstd::arithmetic::power::lemma_pow_multiplies(base0, 2, h);
    assert(vstd::arithmetic::power::pow(base0, 2nat)
        == base0 * vstd::arithmetic::power::pow(base0, 1nat));
    assert(vstd::arithmetic::power::pow(base0, 1nat) == base0) by {
        vstd::arithmetic::power::lemma_pow1(base0);
    }
    assert(vstd::arithmetic::power::pow(base0, 2nat) == base0 * base0);
    vstd::arithmetic::power::lemma_pow_mod_noop(base0 * base0, h, p);
    assert(vstd::arithmetic::power::pow(base1, h) % p == pwh2 % p);
    if exp0 % 2 == 1 {
        // pow(base0, exp0) == base0 * pow(base0, 2h).
        assert(exp0 == 2 * h + 1);
        vstd::arithmetic::power::lemma_pow_adds(base0, 1nat, (2 * h) as nat);
        assert(vstd::arithmetic::power::pow(base0, 1nat) == base0) by {
            vstd::arithmetic::power::lemma_pow1(base0);
        }
        assert(pw == base0 * pwh2);
        calc! {
            (==)
            (res1 * vstd::arithmetic::power::pow(base1, h)) % p; {
                vstd::arithmetic::div_mod::lemma_mul_mod_noop_general(
                    res1, vstd::arithmetic::power::pow(base1, h), p);
            }
            (res1 * (vstd::arithmetic::power::pow(base1, h) % p)) % p; {}
            (res1 * (pwh2 % p)) % p; {
                vstd::arithmetic::div_mod::lemma_mul_mod_noop_general(res1, pwh2, p);
            }
            (res1 * pwh2) % p; {
                vstd::arithmetic::div_mod::lemma_mul_mod_noop_general(res0 * base0, pwh2, p);
            }
            ((res0 * base0) * pwh2) % p; {
                vstd::arithmetic::mul::lemma_mul_is_associative(res0, base0, pwh2);
            }
            (res0 * (base0 * pwh2)) % p; {}
            (res0 * pw) % p;
        }
    } else {
        assert(exp0 == 2 * h);
        assert(pw == pwh2);
        calc! {
            (==)
            (res0 * vstd::arithmetic::power::pow(base1, h)) % p; {
                vstd::arithmetic::div_mod::lemma_mul_mod_noop_general(
                    res0, vstd::arithmetic::power::pow(base1, h), p);
            }
            (res0 * (vstd::arithmetic::power::pow(base1, h) % p)) % p; {}
            (res0 * (pwh2 % p)) % p; {
                vstd::arithmetic::div_mod::lemma_mul_mod_noop_general(res0, pwh2, p);
            }
            (res0 * pwh2) % p;
        }
    }
}

/// Multiplicative inverse by Fermat exponentiation, with the result
/// checked against the definition before it is returned.
///
/// The contract is exact: the candidate is `a^(order-2)`, and it is
/// returned precisely when it passes the definition check.  That the
/// check passes for every non-zero element rests on the primality of
/// `FIELD_ORDER`, which is not proved here.
pub fn f_try_inverse(a: u64) -> (r: Option<u64>)
    requires
        in_field(a),
    ensures
        r is Some <==> mul_f(a as int, pow_f(a as int, (FIELD_ORDER - 2) as nat)) == 1,
        r is Some ==> r->Some_0 as int == pow_f(a as int, (FIELD_ORDER - 2) as nat)
            && in_field(r->Some_0) && mul_f(a as int, r->Some_0 as int) == 1,
        a == 0 ==> r is None,
{
    let c = f_pow(a, FIELD_ORDER - 2);
    let check = f_mul(a, c);
    if check == 1 {
        proof {
            if a == 0 {
                assert((0 * c) % fp() == 0) by {
                    vstd::arithmetic::mul::lemma_mul_basics(c as int);
                    vstd::arithmetic::div_mod::lemma_small_mod(0nat, FIELD_ORDER as nat);
                }
            }
        }
        Some(c)
    } else {
        None
    }
}

} // verus!
