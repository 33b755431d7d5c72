//! Host-side extension-field algebra: value-level arithmetic in the ring
//! `F[x]/(x^D - W)` over the base prime field.
//!
//! An element is a length-D coefficient vector.  Multiplication is
//! schoolbook convolution with twisted wraparound: a product landing at
//! combined index `i + j >= D` is folded back to index `i + j - D` after
//! scaling by the non-residue `W`.  These values are used for constants
//! and witness-side computation; the in-circuit encoding lives in the
//! gadget layer.

use vstd::calc;
use vstd::prelude::*;

use crate::field::{
    add_f, f_add, f_mul, f_pow, f_try_inverse, fp, in_field, mul_f, neg_f, pow_f, seq_in_field,
    sub_f, FIELD_ORDER,
};

verus! {

/// Coefficients of an exec vector, as mathematical integers.
pub open spec fn vals_of(s: Seq<u64>) -> Seq<int> {
    s.map_values(|c: u64| c as int)
}

/// The all-zero coefficient vector of length `d`.
pub open spec fn ext_zero_spec(d: int) -> Seq<int> {
    Seq::new(d as nat, |i: int| 0)
}

/// The multiplicative unit: coefficient 0 is one, the rest are zero.
pub open spec fn ext_one_spec(d: int) -> Seq<int> {
    Seq::new(d as nat, |i: int| if i == 0 { 1int } else { 0int })
}

/// Coefficient-wise modular sum.
pub open spec fn ext_add_spec(a: Seq<int>, b: Seq<int>) -> Seq<int> {
    Seq::new(a.len(), |i: int| add_f(a[i], b[i]))
}

/// Coefficient-wise modular difference.
pub open spec fn ext_sub_spec(a: Seq<int>, b: Seq<int>) -> Seq<int> {
    Seq::new(a.len(), |i: int| sub_f(a[i], b[i]))
}

/// Scaling by a base-field element.
pub open spec fn ext_scale_spec(c: int, a: Seq<int>) -> Seq<int> {
    Seq::new(a.len(), |i: int| mul_f(c, a[i]))
}

/// One unreduced convolution term of `a * b` at output index `k`:
/// the pair `(i, k - i)` when it lands directly, or `(i, k + D - i)`
/// scaled by the non-residue `w` when it wraps around.
pub open spec fn conv_term(w: int, a: Seq<int>, b: Seq<int>, k: int, i: int) -> int {
    if i <= k {
        a[i] * b[k - i]
    } else {
        w * (a[i] * b[k + a.len() - i])
    }
}

/// Sum of the first `n` convolution terms at output index `k`.
pub open spec fn conv_sum(w: int, a: Seq<int>, b: Seq<int>, k: int, n: nat) -> int
    decreases n,
{
    if n == 0 {
        0
    } else {
        conv_sum(w, a, b, k, (n - 1) as nat) + conv_term(w, a, b, k, n - 1)
    }
}

/// Product in `F[x]/(x^D - w)`: each output coefficient is the reduced
/// convolution sum at its index.
pub open spec fn ext_mul_spec(w: int, a: Seq<int>, b: Seq<int>) -> Seq<int> {
    Seq::new(a.len(), |k: int| conv_sum(w, a, b, k, a.len()) % fp())
}

/// k-fold Frobenius image: coefficient `i` is scaled by
/// `dth_root^((k mod D) * i)`, since `x` maps to `dth_root^k * x` and
/// the map has order dividing D.
pub open spec fn ext_frobenius_spec(root: int, a: Seq<int>, k: nat) -> Seq<int> {
    Seq::new(
        a.len(),
        |i: int| mul_f(a[i], pow_f(root, ((k % a.len()) * i) as nat)),
    )
}

/// Fused operation at the heart of each gate row: `c0 * (a * b) + c1 * s`.
pub open spec fn ext_madd_spec(w: int, c0: int, a: Seq<int>, b: Seq<int>, c1: int, s: Seq<int>)
    -> Seq<int> {
    ext_add_spec(ext_scale_spec(c0, ext_mul_spec(w, a, b)), ext_scale_spec(c1, s))
}

/// Tower descriptor for one extension degree: the non-residue `w`
/// making `x^d - w` irreducible, the root `w^((order-1)/d)` driving the
/// Frobenius map, and the distinguished generators of the extension's
/// multiplicative group and of its largest power-of-two subgroup.
///
/// Irreducibility and generator correctness are facts established
/// offline; nothing here checks them, and a wrong constant silently
/// yields wrong arithmetic.
pub struct TowerParams {
    pub d: usize,
    pub w: u64,
    pub dth_root: u64,
    pub ext_multiplicative_group_generator: Vec<u64>,
    pub ext_power_of_two_generator: Vec<u64>,
}

impl TowerParams {
    /// Structural validity of a descriptor.
    pub open spec fn wf(&self) -> bool {
        &&& 1 <= self.d
        &&& self.d <= 65536
        &&& self.w != 0
        &&& in_field(self.w)
        &&& in_field(self.dth_root)
        &&& self.ext_multiplicative_group_generator@.len() == self.d
        &&& seq_in_field(vals_of(self.ext_multiplicative_group_generator@))
        &&& self.ext_power_of_two_generator@.len() == self.d
        &&& seq_in_field(vals_of(self.ext_power_of_two_generator@))
    }

    /// The quadratic tower over the Goldilocks field: `x^2 - 7`.
    pub fn quadratic() -> (r: TowerParams)
        ensures
            r.wf(),
            r.d == 2,
            r.w == 7,
    {
        TowerParams {
            d: 2,
            w: 7,
            dth_root: 18446744069414584320,
            ext_multiplicative_group_generator: vec![0, 11713931119993638672],
            ext_power_of_two_generator: vec![0, 7226896044987257365],
        }
    }

    /// The quartic tower over the Goldilocks field: `x^4 - 7`.
    pub fn quartic() -> (r: TowerParams)
        ensures
            r.wf(),
            r.d == 4,
            r.w == 7,
    {
        TowerParams {
            d: 4,
            w: 7,
            dth_root: 281474976710656,
            ext_multiplicative_group_generator: vec![0, 8295451483910296135, 0, 0],
            ext_power_of_two_generator: vec![0, 0, 0, 17216955519093520442],
        }
    }

    /// The quintic tower over the Goldilocks field: `x^5 - 3`.
    pub fn quintic() -> (r: TowerParams)
        ensures
            r.wf(),
            r.d == 5,
            r.w == 3,
    {
        TowerParams {
            d: 5,
            w: 3,
            dth_root: 1041288259238279555,
            ext_multiplicative_group_generator: vec![
                4624713872807171977,
                381988216716071028,
                14499722700050429911,
                4870631734967222356,
                4518902370426242880,
            ],
            ext_power_of_two_generator: vec![1753635133440165772, 0, 0, 0, 0],
        }
    }
}

/// A host-side extension-field element: its coefficient vector together
/// with the non-residue of the tower it lives in.
pub struct ExtensionElement {
    pub w: u64,
    pub coeffs: Vec<u64>,
}

impl ExtensionElement {
    /// Coefficients as mathematical integers.
    pub open spec fn vals(&self) -> Seq<int> {
        vals_of(self.coeffs@)
    }

    /// Structural validity: at least one coefficient, everything canonical.
    pub open spec fn wf(&self) -> bool {
        &&& 1 <= self.coeffs@.len()
        &&& self.w != 0
        &&& in_field(self.w)
        &&& seq_in_field(self.vals())
    }

    /// Two elements inhabit the same tower.
    pub open spec fn same_tower(&self, other: &ExtensionElement) -> bool {
        self.w == other.w && self.coeffs@.len() == other.coeffs@.len()
    }

    /// Coefficient-wise sum.
    pub fn add(&self, other: &ExtensionElement) -> (r: ExtensionElement)
        requires
            self.wf(),
            other.wf(),
            self.same_tower(other),
        ensures
            r.wf(),
            r.same_tower(self),
            r.vals() == ext_add_spec(self.vals(), other.vals()),
    {
        let d = self.coeffs.len();
        let mut out: Vec<u64> = Vec::new();
        let mut i: usize = 0;
        while i < d
            invariant
                i <= d,
                d == self.coeffs@.len(),
                self.wf(),
                other.wf(),
                self.same_tower(other),
                out@.len() == i,
                forall|j: int|
                    0 <= j < i ==> out@[j] as int == add_f(self.vals()[j], other.vals()[j]),
            decreases d - i,
        {
            proof {
                assert(0 <= self.vals()[i as int] < fp());
                assert(0 <= other.vals()[i as int] < fp());
            }
            out.push(f_add(self.coeffs[i], other.coeffs[i]));
            i = i + 1;
        }
        let r = ExtensionElement { w: self.w, coeffs: out };
        proof {
            assert(r.vals() =~= ext_add_spec(self.vals(), other.vals()));
        }
        r
    }

    /// Coefficient-wise difference.
    pub fn sub(&self, other: &ExtensionElement) -> (r: ExtensionElement)
        requires
            self.wf(),
            other.wf(),
            self.same_tower(other),
        ensures
            r.wf(),
            r.same_tower(self),
            r.vals() == ext_sub_spec(self.vals(), other.vals()),
    {
        let d = self.coeffs.len();
        let mut out: Vec<u64> = Vec::new();
        let mut i: usize = 0;
        while i < d
            invariant
                i <= d,
                d == self.coeffs@.len(),
                self.wf(),
                other.wf(),
                self.same_tower(other),
                out@.len() == i,
                forall|j: int|
                    0 <= j < i ==> out@[j] as int == sub_f(self.vals()[j], other.vals()[j]),
            decreases d - i,
        {
            proof {
                assert(0 <= self.vals()[i as int] < fp());
                assert(0 <= other.vals()[i as int] < fp());
            }
            out.push(crate::field::f_sub(self.coeffs[i], other.coeffs[i]));
            i = i + 1;
        }
        let r = ExtensionElement { w: self.w, coeffs: out };
        proof {
            assert(r.vals() =~= ext_sub_spec(self.vals(), other.vals()));
        }
        r
    }

    /// Scaling by a base-field element.
    pub fn scale(&self, c: u64) -> (r: ExtensionElement)
        requires
            self.wf(),
            in_field(c),
        ensures
            r.wf(),
            r.same_tower(self),
            r.vals() == ext_scale_spec(c as int, self.vals()),
    {
        let d = self.coeffs.len();
        let mut out: Vec<u64> = Vec::new();
        let mut i: usize = 0;
        while i < d
            invariant
                i <= d,
                d == self.coeffs@.len(),
                self.wf(),
                in_field(c),
                out@.len() == i,
                forall|j: int| 0 <= j < i ==> out@[j] as int == mul_f(c as int, self.vals()[j]),
            decreases d - i,
        {
            proof {
                assert(0 <= self.vals()[i as int] < fp());
            }
            out.push(f_mul(c, self.coeffs[i]));
            i = i + 1;
        }
        let r = ExtensionElement { w: self.w, coeffs: out };
        proof {
            assert(r.vals() =~= ext_scale_spec(c as int, self.vals()));
        }
        r
    }

    /// Schoolbook product with twisted wraparound reduction.
    pub fn mul(&self, other: &ExtensionElement) -> (r: ExtensionElement)
        requires
            self.wf(),
            other.wf(),
            self.same_tower(other),
        ensures
            r.wf(),
            r.same_tower(self),
            r.vals() == ext_mul_spec(self.w as int, self.vals(), other.vals()),
    {
        let d = self.coeffs.len();
        let ghost av = self.vals();
        let ghost bv = other.vals();
        let ghost wi = self.w as int;
        let mut out: Vec<u64> = Vec::new();
        let mut k: usize = 0;
        while k < d
            invariant
                k <= d,
                d == self.coeffs@.len(),
                self.wf(),
                other.wf(),
                self.same_tower(other),
                av == self.vals(),
                bv == other.vals(),
                wi == self.w as int,
                out@.len() == k,
                forall|j: int| 0 <= j < k ==> out@[j] as int == conv_sum(wi, av, bv, j, d as nat) % fp(),
            decreases d - k,
        {
            let mut acc: u64 = 0;
            let mut i: usize = 0;
            proof {
                vstd::arithmetic::div_mod::lemma_small_mod(0nat, FIELD_ORDER as nat);
            }
            while i < d
                invariant
                    i <= d,
                    k < d,
                    d == self.coeffs@.len(),
                    self.wf(),
                    other.wf(),
                    self.same_tower(other),
                    av == self.vals(),
                    bv == other.vals(),
                    wi == self.w as int,
                    in_field(acc),
                    acc as int == conv_sum(wi, av, bv, k as int, i as nat) % fp(),
                decreases d - i,
            {
                let ghost s0 = conv_sum(wi, av, bv, k as int, i as nat);
                proof {
                    assert(0 <= av[i as int] < fp());
                    if i <= k {
                        assert(0 <= bv[k - i] < fp());
                    } else {
                        assert(0 <= bv[k + d - i] < fp());
                    }
                }
                let term: u64 = if i <= k {
                    f_mul(self.coeffs[i], other.coeffs[k - i])
                } else {
                    f_mul(self.w, f_mul(self.coeffs[i], other.coeffs[k + (d - i)]))
                };
                proof {
                    let t = conv_term(wi, av, bv, k as int, i as int);
                    if i <= k {
                        assert(term as int == t % fp());
                    } else {
                        vstd::arithmetic::div_mod::lemma_mul_mod_noop_general(
                            wi, av[i as int] * bv[k + d - i], fp());
                        assert(term as int == t % fp());
                    }
                    vstd::arithmetic::div_mod::lemma_add_mod_noop(s0, t, fp());
                }
                acc = f_add(acc, term);
                i = i + 1;
            }
            out.push(acc);
            k = k + 1;
        }
        let r = ExtensionElement { w: self.w, coeffs: out };
        proof {
            assert(r.vals() =~= ext_mul_spec(wi, av, bv));
        }
        r
    }
}

/// Squaring, as a capability usable without naming the operand type.
pub trait Square: Sized {
    /// When squaring is defined for this value.
    spec fn square_req(&self) -> bool;

    /// What the squared value is.
    spec fn square_post(&self, r: &Self) -> bool;

    /// The square of `self`.
    fn square(&self) -> (r: Self)
        requires
            self.square_req(),
        ensures
            self.square_post(&r),
    ;
}

impl Square for ExtensionElement {
    open spec fn square_req(&self) -> bool {
        self.wf()
    }

    open spec fn square_post(&self, r: &Self) -> bool {
        &&& r.wf()
        &&& r.same_tower(self)
        &&& r.vals() == ext_mul_spec(self.w as int, self.vals(), self.vals())
    }

    fn square(&self) -> (r: Self) {
        self.mul(self)
    }
}

impl TowerParams {
    /// An element of this tower from a canonical coefficient vector.
    pub fn element(&self, coeffs: Vec<u64>) -> (r: ExtensionElement)
        requires
            self.wf(),
            coeffs@.len() == self.d,
            seq_in_field(vals_of(coeffs@)),
        ensures
            r.wf(),
            r.w == self.w,
            r.coeffs@.len() == self.d,
            r.vals() == vals_of(coeffs@),
    {
        ExtensionElement { w: self.w, coeffs }
    }

    /// The zero element of this tower.
    pub fn zero_element(&self) -> (r: ExtensionElement)
        requires
            self.wf(),
        ensures
            r.wf(),
            r.w == self.w,
            r.coeffs@.len() == self.d,
            r.vals() == ext_zero_spec(self.d as int),
    {
        let mut coeffs: Vec<u64> = Vec::new();
        let mut i: usize = 0;
        while i < self.d
            invariant
                i <= self.d,
                coeffs@.len() == i,
                forall|j: int| 0 <= j < i ==> coeffs@[j] == 0u64,
            decreases self.d - i,
        {
            coeffs.push(0);
            i = i + 1;
        }
        let r = ExtensionElement { w: self.w, coeffs };
        proof {
            assert(r.vals() =~= ext_zero_spec(self.d as int));
        }
        r
    }

    /// The unit element of this tower.
    pub fn one_element(&self) -> (r: ExtensionElement)
        requires
            self.wf(),
        ensures
            r.wf(),
            r.w == self.w,
            r.coeffs@.len() == self.d,
            r.vals() == ext_one_spec(self.d as int),
    {
        let mut coeffs: Vec<u64> = Vec::new();
        coeffs.push(1);
        let mut i: usize = 1;
        while i < self.d
            invariant
                1 <= i <= self.d || (self.d == 0 && i == 1),
                coeffs@.len() == i,
                coeffs@[0] == 1u64,
                forall|j: int| 1 <= j < i ==> coeffs@[j] == 0u64,
            decreases self.d - i,
        {
            coeffs.push(0);
            i = i + 1;
        }
        let r = ExtensionElement { w: self.w, coeffs };
        proof {
            assert(r.vals() =~= ext_one_spec(self.d as int));
        }
        r
    }

    /// k-fold Frobenius endomorphism: coefficient `i` is scaled by
    /// `dth_root^((k mod d) * i)`.
    pub fn repeated_frobenius_element(&self, a: &ExtensionElement, k: usize) -> (r:
        ExtensionElement)
        requires
            self.wf(),
            a.wf(),
            a.w == self.w,
            a.coeffs@.len() == self.d,
        ensures
            r.wf(),
            r.w == self.w,
            r.coeffs@.len() == self.d,
            r.vals() == ext_frobenius_spec(self.dth_root as int, a.vals(), k as nat),
    {
        let d = self.d;
        let kr = k % d;
        let ghost root = self.dth_root as int;
        let z0 = f_pow(self.dth_root, kr as u64);
        let mut z: u64 = 1;
        proof {
            vstd::arithmetic::power::lemma_pow0(root);
            vstd::arithmetic::div_mod::lemma_small_mod(1nat, FIELD_ORDER as nat);
            assert(z as int == pow_f(root, (kr * 0) as nat));
        }
        let mut out: Vec<u64> = Vec::new();
        let mut i: usize = 0;
        while i < d
            invariant
                i <= d,
                d == self.d == a.coeffs@.len(),
                kr == k % d,
                kr < d,
                self.wf(),
                a.wf(),
                a.w == self.w,
                root == self.dth_root as int,
                in_field(z),
                in_field(z0),
                z0 as int == pow_f(root, kr as nat),
                z as int == pow_f(root, (kr * i) as nat),
                out@.len() == i,
                forall|j: int|
                    0 <= j < i ==> out@[j] as int
                        == mul_f(a.vals()[j], pow_f(root, (kr * j) as nat)),
            decreases d - i,
        {
            proof {
                assert(0 <= a.vals()[i as int] < fp());
            }
            out.push(f_mul(a.coeffs[i], z));
            let ghost zi = (kr * i) as nat;
            z = f_mul(z, z0);
            proof {
                vstd::arithmetic::power::lemma_pow_adds(root, zi, kr as nat);
                vstd::arithmetic::div_mod::lemma_mul_mod_noop(
                    vstd::arithmetic::power::pow(root, zi),
                    vstd::arithmetic::power::pow(root, kr as nat),
                    fp(),
                );
                assert(kr * (i + 1) == kr * i + kr) by (nonlinear_arith);
            }
            i = i + 1;
        }
        let r = ExtensionElement { w: self.w, coeffs: out };
        proof {
            assert((k % d) as int == (k as nat % a.vals().len()) as int);
            assert(r.vals() =~= ext_frobenius_spec(root, a.vals(), k as nat));
        }
        r
    }

    /// Multiplicative inverse, when one exists.
    ///
    /// The candidate is built from the product of the Frobenius
    /// conjugates and a base-field inversion of the norm, then checked
    /// against the definition; only a checked candidate is returned.
    /// Completeness for every non-zero element rests on the offline
    /// facts about the tower constants and is not claimed here.
    pub fn try_inverse_element(&self, a: &ExtensionElement) -> (r: Option<ExtensionElement>)
        requires
            self.wf(),
            a.wf(),
            a.w == self.w,
            a.coeffs@.len() == self.d,
        ensures
            r is Some ==> {
                &&& r->Some_0.wf()
                &&& r->Some_0.w == self.w
                &&& r->Some_0.coeffs@.len() == self.d
                &&& ext_mul_spec(self.w as int, a.vals(), r->Some_0.vals())
                    == ext_one_spec(self.d as int)
            },
            a.vals() == ext_zero_spec(self.d as int) ==> r is None,
    {
        proof {
            // The zero element passes no definition check: its product
            // with any candidate is the zero vector, never the unit.
            if a.vals() == ext_zero_spec(self.d as int) {
                assert(ext_one_spec(self.d as int)[0] == 1
                    && ext_zero_spec(self.d as int)[0] == 0);
            }
        }
        if self.d == 1 {
            // Degree one: the element is its own base-field scalar.
            proof {
                assert(0 <= a.vals()[0] < fp());
            }
            match f_try_inverse(a.coeffs[0]) {
                Option::Some(c) => {
                    let cand = ExtensionElement { w: self.w, coeffs: vec![c] };
                    let check = a.mul(&cand);
                    if Self::is_one_vector(&check.coeffs) {
                        proof {
                            assert(check.vals() =~= ext_one_spec(self.d as int));
                            if a.vals() == ext_zero_spec(self.d as int) {
                                lemma_ext_mul_zero_left(self.w as int, cand.vals());
                            }
                        }
                        Option::Some(cand)
                    } else {
                        Option::None
                    }
                },
                Option::None => Option::None,
            }
        } else {
            // Product of the conjugates frob^1(a) * ... * frob^(d-1)(a).
            let mut t = self.repeated_frobenius_element(a, 1);
            let mut acc = ExtensionElement { w: t.w, coeffs: t.coeffs.clone() };
            let mut i: usize = 2;
            while i < self.d
                invariant
                    2 <= i <= self.d || (self.d == 2 && i == 2),
                    self.wf(),
                    a.wf(),
                    a.w == self.w,
                    a.coeffs@.len() == self.d,
                    t.wf(),
                    t.w == self.w,
                    t.coeffs@.len() == self.d,
                    acc.wf(),
                    acc.w == self.w,
                    acc.coeffs@.len() == self.d,
                decreases self.d - i,
            {
                t = self.repeated_frobenius_element(&t, 1);
                acc = acc.mul(&t);
                i = i + 1;
            }
            // The norm of `a` is `a` times that product; when the tower
            // constants are right it lies in the base field, so its
            // leading coefficient carries everything needed.
            let norm = a.mul(&acc);
            proof {
                assert(0 <= norm.vals()[0] < fp());
            }
            match f_try_inverse(norm.coeffs[0]) {
                Option::Some(n_inv) => {
                    let cand = acc.scale(n_inv);
                    let check = a.mul(&cand);
                    if Self::is_one_vector(&check.coeffs) {
                        proof {
                            assert(check.vals() =~= ext_one_spec(self.d as int));
                            if a.vals() == ext_zero_spec(self.d as int) {
                                lemma_ext_mul_zero_left(self.w as int, cand.vals());
                            }
                        }
                        Option::Some(cand)
                    } else {
                        Option::None
                    }
                },
                Option::None => Option::None,
            }
        }
    }

    /// Does a coefficient vector spell the unit element?
    pub(crate) fn is_one_vector(coeffs: &Vec<u64>) -> (r: bool)
        requires
            coeffs@.len() >= 1,
        ensures
            r <==> vals_of(coeffs@) == ext_one_spec(coeffs@.len() as int),
    {
        if coeffs[0] != 1 {
            proof {
                assert(vals_of(coeffs@)[0] != ext_one_spec(coeffs@.len() as int)[0]);
            }
            return false;
        }
        let mut i: usize = 1;
        while i < coeffs.len()
            invariant
                1 <= i <= coeffs@.len(),
                coeffs@[0] == 1u64,
                forall|j: int| 1 <= j < i ==> coeffs@[j] == 0u64,
            decreases coeffs@.len() - i,
        {
            if coeffs[i] != 0 {
                proof {
                    assert(vals_of(coeffs@)[i as int]
                        != ext_one_spec(coeffs@.len() as int)[i as int]);
                }
                return false;
            }
            i = i + 1;
        }
        proof {
            assert(vals_of(coeffs@) =~= ext_one_spec(coeffs@.len() as int));
        }
        true
    }

    /// Quotient `x / y` as the witness engine defines it: `x` times the
    /// inverse of `y`, and the all-zero (poisoned) vector when `y` has
    /// no checked inverse.  A poisoned quotient never satisfies the
    /// accompanying circuit constraint unless `x` is itself zero.
    pub fn div_element(&self, x: &ExtensionElement, y: &ExtensionElement) -> (r: ExtensionElement)
        requires
            self.wf(),
            x.wf(),
            y.wf(),
            x.w == self.w,
            y.w == self.w,
            x.coeffs@.len() == self.d,
            y.coeffs@.len() == self.d,
        ensures
            r.wf(),
            r.w == self.w,
            r.coeffs@.len() == self.d,
            r.vals() == ext_zero_spec(self.d as int) || exists|c: Seq<int>|
                ext_mul_spec(self.w as int, y.vals(), c) == ext_one_spec(self.d as int)
                    && r.vals() == ext_mul_spec(self.w as int, x.vals(), c),
            y.vals() == ext_zero_spec(self.d as int) ==> r.vals() == ext_zero_spec(
                self.d as int,
            ),
    {
        match self.try_inverse_element(y) {
            Option::Some(y_inv) => {
                let r = x.mul(&y_inv);
                proof {
                    let c = y_inv.vals();
                    assert(ext_mul_spec(self.w as int, y.vals(), c) == ext_one_spec(self.d as int)
                        && r.vals() == ext_mul_spec(self.w as int, x.vals(), c));
                }
                r
            },
            Option::None => self.zero_element(),
        }
    }
}

/// All convolution terms with an all-zero left operand vanish.
proof fn lemma_conv_zero_left(w: int, a: Seq<int>, b: Seq<int>, k: int, n: nat)
    requires
        forall|i: int| 0 <= i < a.len() ==> a[i] == 0,
        n <= a.len(),
        0 <= k,
    ensures
        conv_sum(w, a, b, k, n) == 0,
    decreases n,
{
    if n > 0 {
        let i = (n - 1) as int;
        lemma_conv_zero_left(w, a, b, k, (n - 1) as nat);
        assert(a[i] == 0);
        if i <= k {
            vstd::arithmetic::mul::lemma_mul_basics(b[k - i]);
        } else {
            vstd::arithmetic::mul::lemma_mul_basics(b[k + a.len() - i]);
            vstd::arithmetic::mul::lemma_mul_basics(w);
        }
        assert(conv_term(w, a, b, k, i) == 0);
    }
}

/// All convolution terms with an all-zero right operand vanish.
proof fn lemma_conv_zero_right(w: int, a: Seq<int>, b: Seq<int>, k: int, n: nat)
    requires
        forall|i: int| 0 <= i < b.len() ==> b[i] == 0,
        a.len() == b.len(),
        n <= a.len(),
        0 <= k < a.len(),
    ensures
        conv_sum(w, a, b, k, n) == 0,
    decreases n,
{
    if n > 0 {
        let i = (n - 1) as int;
        lemma_conv_zero_right(w, a, b, k, (n - 1) as nat);
        if i <= k {
            assert(b[k - i] == 0);
            vstd::arithmetic::mul::lemma_mul_basics(a[i]);
        } else {
            assert(b[k + a.len() - i] == 0);
            vstd::arithmetic::mul::lemma_mul_basics(a[i]);
            vstd::arithmetic::mul::lemma_mul_basics(w);
        }
        assert(conv_term(w, a, b, k, i) == 0);
    }
}

/// Multiplying the unit vector on the left only keeps the term `a[k]`.
proof fn lemma_conv_one_left(w: int, a: Seq<int>, k: int, n: nat)
    requires
        0 <= k < a.len(),
        n <= a.len(),
    ensures
        conv_sum(w, ext_one_spec(a.len() as int), a, k, n) == if n >= 1 { a[k] } else { 0 },
    decreases n,
{
    let one = ext_one_spec(a.len() as int);
    if n > 0 {
        let i = (n - 1) as int;
        lemma_conv_one_left(w, a, k, (n - 1) as nat);
        if i == 0 {
            vstd::arithmetic::mul::lemma_mul_basics(a[k]);
            assert(conv_term(w, one, a, k, i) == a[k]);
        } else if i <= k {
            assert(one[i] == 0);
            vstd::arithmetic::mul::lemma_mul_basics(a[k - i]);
            assert(conv_term(w, one, a, k, i) == 0);
        } else {
            assert(one[i] == 0);
            vstd::arithmetic::mul::lemma_mul_basics(a[k + a.len() - i]);
            vstd::arithmetic::mul::lemma_mul_basics(w);
            assert(conv_term(w, one, a, k, i) == 0);
        }
    }
}

/// Multiplying the unit vector on the right only keeps the term `a[k]`.
pub proof fn lemma_conv_one_right(w: int, a: Seq<int>, k: int, n: nat)
    requires
        0 <= k < a.len(),
        n <= a.len(),
    ensures
        conv_sum(w, a, ext_one_spec(a.len() as int), k, n)
            == if n > k { a[k] } else { 0 },
    decreases n,
{
    let one = ext_one_spec(a.len() as int);
    if n > 0 {
        let i = (n - 1) as int;
        lemma_conv_one_right(w, a, k, (n - 1) as nat);
        if i == k {
            assert(one[0] == 1);
            vstd::arithmetic::mul::lemma_mul_basics(a[k]);
            assert(conv_term(w, a, one, k, i) == a[k]);
        } else if i < k {
            assert(one[k - i] == 0);
            vstd::arithmetic::mul::lemma_mul_basics(a[i]);
            assert(conv_term(w, a, one, k, i) == 0);
        } else {
            assert(k + a.len() - i >= 1);
            assert(one[k + a.len() - i] == 0);
            vstd::arithmetic::mul::lemma_mul_basics(a[i]);
            vstd::arithmetic::mul::lemma_mul_basics(w);
            assert(conv_term(w, a, one, k, i) == 0);
        }
    }
}

/// The unit element is left-neutral for multiplication, up to the
/// reduction that every product entry carries.
pub proof fn lemma_ext_mul_one_left(w: int, a: Seq<int>)
    requires
        a.len() >= 1,
        seq_in_field(a),
    ensures
        ext_mul_spec(w, ext_one_spec(a.len() as int), a) == a,
{
    let d = a.len() as int;
    assert forall|k: int| 0 <= k < d implies ext_mul_spec(w, ext_one_spec(d), a)[k] == a[k] by {
        lemma_conv_one_left(w, a, k, a.len());
        vstd::arithmetic::div_mod::lemma_small_mod(a[k] as nat, FIELD_ORDER as nat);
    }
    assert(ext_mul_spec(w, ext_one_spec(d), a) =~= a);
}

/// The unit element is right-neutral for multiplication.
pub proof fn lemma_ext_mul_one_right(w: int, a: Seq<int>)
    requires
        a.len() >= 1,
        seq_in_field(a),
    ensures
        ext_mul_spec(w, a, ext_one_spec(a.len() as int)) == a,
{
    let d = a.len() as int;
    assert forall|k: int| 0 <= k < d implies ext_mul_spec(w, a, ext_one_spec(d))[k] == a[k] by {
        lemma_conv_one_right(w, a, k, a.len());
        vstd::arithmetic::div_mod::lemma_small_mod(a[k] as nat, FIELD_ORDER as nat);
    }
    assert(ext_mul_spec(w, a, ext_one_spec(d)) =~= a);
}

/// Multiplication by the zero element gives the zero element.
pub proof fn lemma_ext_mul_zero_left(w: int, a: Seq<int>)
    requires
        a.len() >= 1,
    ensures
        ext_mul_spec(w, ext_zero_spec(a.len() as int), a) == ext_zero_spec(a.len() as int),
{
    let d = a.len() as int;
    assert forall|k: int| 0 <= k < d implies ext_mul_spec(w, ext_zero_spec(d), a)[k] == 0 by {
        lemma_conv_zero_left(w, ext_zero_spec(d), a, k, a.len());
        vstd::arithmetic::div_mod::lemma_small_mod(0nat, FIELD_ORDER as nat);
    }
    assert(ext_mul_spec(w, ext_zero_spec(d), a) =~= ext_zero_spec(d));
}

/// Multiplication by the zero element on the right gives zero.
pub proof fn lemma_ext_mul_zero_right(w: int, a: Seq<int>)
    requires
        a.len() >= 1,
    ensures
        ext_mul_spec(w, a, ext_zero_spec(a.len() as int)) == ext_zero_spec(a.len() as int),
{
    let d = a.len() as int;
    assert forall|k: int| 0 <= k < d implies ext_mul_spec(w, a, ext_zero_spec(d))[k] == 0 by {
        lemma_conv_zero_right(w, a, ext_zero_spec(d), k, a.len());
        vstd::arithmetic::div_mod::lemma_small_mod(0nat, FIELD_ORDER as nat);
    }
    assert(ext_mul_spec(w, a, ext_zero_spec(d)) =~= ext_zero_spec(d));
}

/// Scaling by zero gives the zero element.
pub proof fn lemma_ext_scale_by_zero(a: Seq<int>)
    ensures
        ext_scale_spec(0, a) == ext_zero_spec(a.len() as int),
{
    assert forall|i: int| 0 <= i < a.len() implies ext_scale_spec(0, a)[i] == 0 by {
        vstd::arithmetic::mul::lemma_mul_basics(a[i]);
        vstd::arithmetic::div_mod::lemma_small_mod(0nat, FIELD_ORDER as nat);
    }
    assert(ext_scale_spec(0, a) =~= ext_zero_spec(a.len() as int));
}

/// Scaling the zero element gives the zero element.
pub proof fn lemma_ext_scale_zero_vec(c: int, d: int)
    requires
        d >= 0,
    ensures
        ext_scale_spec(c, ext_zero_spec(d)) == ext_zero_spec(d),
{
    assert forall|i: int| 0 <= i < d implies ext_scale_spec(c, ext_zero_spec(d))[i] == 0 by {
        vstd::arithmetic::mul::lemma_mul_basics(c);
        vstd::arithmetic::div_mod::lemma_small_mod(0nat, FIELD_ORDER as nat);
    }
    assert(ext_scale_spec(c, ext_zero_spec(d)) =~= ext_zero_spec(d));
}

/// Scaling a reduced vector by one changes nothing.
pub proof fn lemma_ext_scale_by_one(a: Seq<int>)
    requires
        seq_in_field(a),
    ensures
        ext_scale_spec(1, a) == a,
{
    assert forall|i: int| 0 <= i < a.len() implies ext_scale_spec(1, a)[i] == a[i] by {
        vstd::arithmetic::mul::lemma_mul_basics(a[i]);
        vstd::arithmetic::div_mod::lemma_small_mod(a[i] as nat, FIELD_ORDER as nat);
    }
    assert(ext_scale_spec(1, a) =~= a);
}

/// Adding the zero element on the left reduces to the other operand.
pub proof fn lemma_ext_add_zero_left(a: Seq<int>)
    requires
        seq_in_field(a),
    ensures
        ext_add_spec(ext_zero_spec(a.len() as int), a) == a,
{
    assert forall|i: int| 0 <= i < a.len() implies ext_add_spec(
        ext_zero_spec(a.len() as int),
        a,
    )[i] == a[i] by {
        vstd::arithmetic::div_mod::lemma_small_mod(a[i] as nat, FIELD_ORDER as nat);
    }
    assert(ext_add_spec(ext_zero_spec(a.len() as int), a) =~= a);
}

/// Adding the zero element on the right reduces to the other operand.
pub proof fn lemma_ext_add_zero_right(a: Seq<int>)
    requires
        seq_in_field(a),
    ensures
        ext_add_spec(a, ext_zero_spec(a.len() as int)) == a,
{
    assert forall|i: int| 0 <= i < a.len() implies ext_add_spec(
        a,
        ext_zero_spec(a.len() as int),
    )[i] == a[i] by {
        vstd::arithmetic::div_mod::lemma_small_mod(a[i] as nat, FIELD_ORDER as nat);
    }
    assert(ext_add_spec(a, ext_zero_spec(a.len() as int)) =~= a);
}

/// Addition of coefficient vectors is commutative.
pub proof fn lemma_ext_add_comm(a: Seq<int>, b: Seq<int>)
    requires
        a.len() == b.len(),
    ensures
        ext_add_spec(a, b) == ext_add_spec(b, a),
{
    assert(ext_add_spec(a, b) =~= ext_add_spec(b, a));
}

/// Addition of coefficient vectors is associative: both groupings
/// reduce every entry of the plain three-way sum.
pub proof fn lemma_ext_add_assoc(a: Seq<int>, b: Seq<int>, c: Seq<int>)
    requires
        a.len() == b.len(),
        b.len() == c.len(),
    ensures
        ext_add_spec(ext_add_spec(a, b), c) == ext_add_spec(a, ext_add_spec(b, c)),
{
    let p = fp();
    assert forall|i: int| 0 <= i < a.len() implies ext_add_spec(ext_add_spec(a, b), c)[i]
        == ext_add_spec(a, ext_add_spec(b, c))[i] by {
        vstd::arithmetic::div_mod::lemma_add_mod_noop_right(c[i], a[i] + b[i], p);
        vstd::arithmetic::div_mod::lemma_add_mod_noop_right(a[i], b[i] + c[i], p);
    }
    assert(ext_add_spec(ext_add_spec(a, b), c) =~= ext_add_spec(a, ext_add_spec(b, c)));
}

/// The zero element is neutral for addition of canonical vectors.
pub proof fn lemma_ext_add_zero(a: Seq<int>)
    requires
        seq_in_field(a),
    ensures
        ext_add_spec(a, ext_zero_spec(a.len() as int)) == a,
{
    lemma_ext_add_zero_right(a);
}

/// Scaling by the representative of minus one negates: adding the
/// scaled vector subtracts the original.
pub proof fn lemma_ext_add_scale_neg_one(a: Seq<int>, b: Seq<int>)
    requires
        a.len() == b.len(),
        seq_in_field(a),
        seq_in_field(b),
    ensures
        ext_add_spec(a, ext_scale_spec(fp() - 1, b)) == ext_sub_spec(a, b),
{
    let p = fp();
    assert forall|i: int| 0 <= i < a.len() implies ext_add_spec(
        a,
        ext_scale_spec(p - 1, b),
    )[i] == ext_sub_spec(a, b)[i] by {
        let bi = b[i];
        assert((p - 1) * bi == (bi - 1) * p + (p - bi)) by (nonlinear_arith);
        vstd::arithmetic::div_mod::lemma_mod_multiples_vanish(bi - 1, p - bi, p);
        assert(((p - 1) * bi) % p == (p - bi) % p);
        vstd::arithmetic::div_mod::lemma_add_mod_noop_right(a[i], p - bi, p);
        assert((a[i] + ((p - 1) * bi) % p) % p == (a[i] + (p - bi)) % p) by {
            vstd::arithmetic::div_mod::lemma_add_mod_noop_right(a[i], ((p - 1) * bi) % p, p);
            vstd::arithmetic::div_mod::lemma_mod_twice(((p - 1) * bi), p);
        }
    }
    assert(ext_add_spec(a, ext_scale_spec(p - 1, b)) =~= ext_sub_spec(a, b));
}

/// Every entry of a sum is a canonical representative.
pub proof fn lemma_ext_add_in_field(a: Seq<int>, b: Seq<int>)
    ensures
        seq_in_field(ext_add_spec(a, b)),
{
}

/// Every entry of a scaled vector is a canonical representative.
pub proof fn lemma_ext_scale_in_field(c: int, a: Seq<int>)
    ensures
        seq_in_field(ext_scale_spec(c, a)),
{
}

/// Every entry of a product is a canonical representative.
pub proof fn lemma_ext_mul_in_field(w: int, a: Seq<int>, b: Seq<int>)
    ensures
        seq_in_field(ext_mul_spec(w, a, b)),
{
}

/// A reduced scalar factor can be pulled out of a convolution sum,
/// modulo the field order.
proof fn lemma_conv_scale_left(w: int, c: int, a: Seq<int>, b: Seq<int>, k: int, n: nat)
    requires
        a.len() == b.len(),
        n <= a.len(),
        0 <= k < a.len(),
    ensures
        conv_sum(w, ext_scale_spec(c, a), b, k, n) % fp()
            == (c * conv_sum(w, a, b, k, n)) % fp(),
    decreases n,
{
    let p = fp();
    if n == 0 {
        assert((c * 0int) % p == 0int % p);
    } else {
        let m = (n - 1) as nat;
        lemma_conv_scale_left(w, c, a, b, k, m);
        let sa = conv_sum(w, ext_scale_spec(c, a), b, k, m);
        let s = conv_sum(w, a, b, k, m);
        let ta = conv_term(w, ext_scale_spec(c, a), b, k, m as int);
        let t = conv_term(w, a, b, k, m as int);
        // The scaled term equals c times the raw term, modulo p.
        assert(ta % p == (c * t) % p) by {
            let i = m as int;
            if i <= k {
                assert(ta == ((c * a[i]) % p) * b[k - i]);
                vstd::arithmetic::div_mod::lemma_mul_mod_noop_general(c * a[i], b[k - i], p);
                vstd::arithmetic::mul::lemma_mul_is_associative(c, a[i], b[k - i]);
            } else {
                let j = k + a.len() - i;
                assert(ta == w * (((c * a[i]) % p) * b[j]));
                vstd::arithmetic::div_mod::lemma_mul_mod_noop_general(
                    w, ((c * a[i]) % p) * b[j], p);
                vstd::arithmetic::div_mod::lemma_mul_mod_noop_general(c * a[i], b[j], p);
                vstd::arithmetic::div_mod::lemma_mul_mod_noop_general(w, (c * a[i]) * b[j], p);
                assert(ta % p == (w * ((c * a[i]) * b[j])) % p);
                assert(w * ((c * a[i]) * b[j]) == c * (w * (a[i] * b[j])))
                    by (nonlinear_arith);
            }
        }
        // Sums of congruent parts are congruent.
        vstd::arithmetic::div_mod::lemma_add_mod_noop(sa, ta, p);
        vstd::arithmetic::div_mod::lemma_add_mod_noop((c * s) % p, (c * t) % p, p);
        vstd::arithmetic::div_mod::lemma_add_mod_noop(c * s, c * t, p);
        assert(c * s + c * t == c * (s + t)) by (nonlinear_arith);
    }
}

/// A reduced scalar factor on the right operand can be pulled out of a
/// convolution sum, modulo the field order.
proof fn lemma_conv_scale_right(w: int, c: int, a: Seq<int>, b: Seq<int>, k: int, n: nat)
    requires
        a.len() == b.len(),
        n <= a.len(),
        0 <= k < a.len(),
    ensures
        conv_sum(w, a, ext_scale_spec(c, b), k, n) % fp()
            == (c * conv_sum(w, a, b, k, n)) % fp(),
    decreases n,
{
    let p = fp();
    if n == 0 {
        assert((c * 0int) % p == 0int % p);
    } else {
        let m = (n - 1) as nat;
        lemma_conv_scale_right(w, c, a, b, k, m);
        let sa = conv_sum(w, a, ext_scale_spec(c, b), k, m);
        let s = conv_sum(w, a, b, k, m);
        let ta = conv_term(w, a, ext_scale_spec(c, b), k, m as int);
        let t = conv_term(w, a, b, k, m as int);
        assert(ta % p == (c * t) % p) by {
            let i = m as int;
            if i <= k {
                assert(ta == a[i] * ((c * b[k - i]) % p));
                vstd::arithmetic::div_mod::lemma_mul_mod_noop_general(a[i], c * b[k - i], p);
                vstd::arithmetic::div_mod::lemma_mul_mod_noop_general(a[i], b[k - i], p);
                assert(a[i] * (c * b[k - i]) == c * (a[i] * b[k - i])) by (nonlinear_arith);
            } else {
                let j = k + a.len() - i;
                assert(ta == w * (a[i] * ((c * b[j]) % p)));
                vstd::arithmetic::div_mod::lemma_mul_mod_noop_general(
                    w, a[i] * ((c * b[j]) % p), p);
                vstd::arithmetic::div_mod::lemma_mul_mod_noop_general(a[i], c * b[j], p);
                vstd::arithmetic::div_mod::lemma_mul_mod_noop_general(w, a[i] * (c * b[j]), p);
                assert(ta % p == (w * (a[i] * (c * b[j]))) % p);
                assert(w * (a[i] * (c * b[j])) == c * (w * (a[i] * b[j])))
                    by (nonlinear_arith);
            }
        }
        vstd::arithmetic::div_mod::lemma_add_mod_noop(sa, ta, p);
        vstd::arithmetic::div_mod::lemma_add_mod_noop((c * s) % p, (c * t) % p, p);
        vstd::arithmetic::div_mod::lemma_add_mod_noop(c * s, c * t, p);
        assert(c * s + c * t == c * (s + t)) by (nonlinear_arith);
    }
}

/// Scaling the right factor scales the whole product.
pub proof fn lemma_ext_mul_scale_right(w: int, c: int, a: Seq<int>, b: Seq<int>)
    requires
        a.len() == b.len(),
        a.len() >= 1,
    ensures
        ext_mul_spec(w, a, ext_scale_spec(c, b)) == ext_scale_spec(c, ext_mul_spec(w, a, b)),
{
    let d = a.len() as int;
    let p = fp();
    assert forall|k: int| 0 <= k < d implies ext_mul_spec(w, a, ext_scale_spec(c, b))[k]
        == ext_scale_spec(c, ext_mul_spec(w, a, b))[k] by {
        lemma_conv_scale_right(w, c, a, b, k, a.len());
        vstd::arithmetic::div_mod::lemma_mul_mod_noop_general(
            c, conv_sum(w, a, b, k, a.len()), p);
    }
    assert(ext_mul_spec(w, a, ext_scale_spec(c, b))
        =~= ext_scale_spec(c, ext_mul_spec(w, a, b)));
}

/// Convolution against a reduced sum splits into the two convolutions,
/// modulo the field order.
proof fn lemma_conv_add_right(w: int, a: Seq<int>, b: Seq<int>, c: Seq<int>, k: int, n: nat)
    requires
        a.len() == b.len(),
        b.len() == c.len(),
        n <= a.len(),
        0 <= k < a.len(),
    ensures
        conv_sum(w, a, ext_add_spec(b, c), k, n) % fp()
            == (conv_sum(w, a, b, k, n) + conv_sum(w, a, c, k, n)) % fp(),
    decreases n,
{
    let p = fp();
    if n == 0 {
        assert((0int + 0int) % p == 0int % p);
    } else {
        let m = (n - 1) as nat;
        lemma_conv_add_right(w, a, b, c, k, m);
        let bc = ext_add_spec(b, c);
        let sa = conv_sum(w, a, bc, k, m);
        let sb = conv_sum(w, a, b, k, m);
        let sc = conv_sum(w, a, c, k, m);
        let ta = conv_term(w, a, bc, k, m as int);
        let tb = conv_term(w, a, b, k, m as int);
        let tc = conv_term(w, a, c, k, m as int);
        // The combined term is congruent to the sum of the two terms.
        assert(ta % p == (tb + tc) % p) by {
            let i = m as int;
            if i <= k {
                let j = k - i;
                assert(ta == a[i] * ((b[j] + c[j]) % p));
                vstd::arithmetic::div_mod::lemma_mul_mod_noop_general(a[i], b[j] + c[j], p);
                assert(a[i] * (b[j] + c[j]) == a[i] * b[j] + a[i] * c[j]) by (nonlinear_arith);
                vstd::arithmetic::div_mod::lemma_add_mod_noop(a[i] * b[j], a[i] * c[j], p);
                vstd::arithmetic::div_mod::lemma_mod_twice(a[i] * b[j], p);
                vstd::arithmetic::div_mod::lemma_mod_twice(a[i] * c[j], p);
                vstd::arithmetic::div_mod::lemma_add_mod_noop(
                    (a[i] * b[j]) % p, (a[i] * c[j]) % p, p);
            } else {
                let j = k + a.len() - i;
                assert(ta == w * (a[i] * ((b[j] + c[j]) % p)));
                vstd::arithmetic::div_mod::lemma_mul_mod_noop_general(
                    w, a[i] * ((b[j] + c[j]) % p), p);
                vstd::arithmetic::div_mod::lemma_mul_mod_noop_general(a[i], b[j] + c[j], p);
                vstd::arithmetic::div_mod::lemma_mul_mod_noop_general(w, a[i] * (b[j] + c[j]), p);
                assert(ta % p == (w * (a[i] * (b[j] + c[j]))) % p);
                assert(w * (a[i] * (b[j] + c[j])) == w * (a[i] * b[j]) + w * (a[i] * c[j]))
                    by (nonlinear_arith);
                vstd::arithmetic::div_mod::lemma_add_mod_noop(
                    w * (a[i] * b[j]), w * (a[i] * c[j]), p);
                vstd::arithmetic::div_mod::lemma_mod_twice(w * (a[i] * b[j]), p);
                vstd::arithmetic::div_mod::lemma_mod_twice(w * (a[i] * c[j]), p);
                vstd::arithmetic::div_mod::lemma_add_mod_noop(
                    (w * (a[i] * b[j])) % p, (w * (a[i] * c[j])) % p, p);
            }
        }
        vstd::arithmetic::div_mod::lemma_add_mod_noop(sa, ta, p);
        vstd::arithmetic::div_mod::lemma_add_mod_noop(sb + sc, tb + tc, p);
        vstd::arithmetic::div_mod::lemma_mod_twice(sb + sc, p);
        vstd::arithmetic::div_mod::lemma_mod_twice(tb + tc, p);
        vstd::arithmetic::div_mod::lemma_add_mod_noop((sb + sc) % p, (tb + tc) % p, p);
    }
}

/// k-fold application of the single Frobenius map.
pub open spec fn ext_frobenius_iter(root: int, a: Seq<int>, k: nat) -> Seq<int>
    decreases k,
{
    if k == 0 {
        a
    } else {
        ext_frobenius_spec(root, ext_frobenius_iter(root, a, (k - 1) as nat), 1)
    }
}

/// For exponents below the degree, the k-fold Frobenius image equals
/// the single Frobenius map applied k times: repeated application
/// corresponds to repeated exponentiation of the scaling root.
/// Exponents of D and beyond additionally rest on the root's order
/// dividing D, an offline fact about the tower constants that nothing
/// here assumes.
pub proof fn lemma_frobenius_iterates(root: int, a: Seq<int>, k: nat)
    requires
        a.len() >= 1,
        seq_in_field(a),
        k < a.len(),
    ensures
        ext_frobenius_spec(root, a, k) == ext_frobenius_iter(root, a, k),
    decreases k,
{
    let d = a.len() as int;
    let p = fp();
    if k == 0 {
        assert forall|i: int| 0 <= i < d implies ext_frobenius_spec(root, a, 0)[i] == a[i] by {
            vstd::arithmetic::power::lemma_pow0(root);
            vstd::arithmetic::div_mod::lemma_small_mod(1nat, FIELD_ORDER as nat);
            assert((0nat % a.len()) == 0nat) by {
                vstd::arithmetic::div_mod::lemma_small_mod(0nat, a.len());
            }
            assert((0nat % a.len()) * i == 0);
            assert(pow_f(root, 0nat) == 1);
            vstd::arithmetic::div_mod::lemma_small_mod(a[i] as nat, FIELD_ORDER as nat);
        }
        assert(ext_frobenius_spec(root, a, 0) =~= a);
    } else {
        lemma_frobenius_iterates(root, a, (k - 1) as nat);
        let prev = ext_frobenius_spec(root, a, (k - 1) as nat);
        assert(seq_in_field(prev)) by {
            assert forall|i: int| 0 <= i < prev.len() implies 0 <= #[trigger] prev[i] < p by {}
        }
        let cur = ext_frobenius_spec(root, prev, 1);
        assert forall|i: int| 0 <= i < d implies cur[i] == ext_frobenius_spec(root, a, k)[i] by {
            let rk1 = vstd::arithmetic::power::pow(root, ((k - 1) * i) as nat);
            let r1 = vstd::arithmetic::power::pow(root, i as nat);
            let rk = vstd::arithmetic::power::pow(root, (k * i) as nat);
            assert(((k - 1) as nat % a.len()) == (k - 1) as nat) by {
                vstd::arithmetic::div_mod::lemma_small_mod((k - 1) as nat, a.len());
            }
            assert((k % a.len()) == k) by {
                vstd::arithmetic::div_mod::lemma_small_mod(k, a.len());
            }
            if d == 1 {
                assert(i == 0 && k < 1);
            } else {
                assert((1nat % a.len()) == 1nat) by {
                    vstd::arithmetic::div_mod::lemma_small_mod(1nat, a.len());
                }
                assert(cur[i] == mul_f(prev[i], pow_f(root, i as nat)));
                assert(prev[i] == mul_f(a[i], pow_f(root, ((k - 1) * i) as nat)));
                // Collapse the two scalings into one power of the root.
                vstd::arithmetic::power::lemma_pow_adds(
                    root, ((k - 1) * i) as nat, i as nat);
                assert((k - 1) * i + i == k * i) by (nonlinear_arith);
                calc! {
                    (==)
                    ((a[i] * (rk1 % p)) % p * (r1 % p)) % p; {
                        vstd::arithmetic::div_mod::lemma_mul_mod_noop_general(
                            (a[i] * (rk1 % p)) % p, r1, p);
                        vstd::arithmetic::div_mod::lemma_mul_mod_noop_general(
                            a[i] * (rk1 % p), r1, p);
                    }
                    ((a[i] * (rk1 % p)) * r1) % p; {
                        vstd::arithmetic::div_mod::lemma_mul_mod_noop_general(
                            a[i] * rk1, r1, p);
                        vstd::arithmetic::div_mod::lemma_mul_mod_noop_general(
                            a[i] * (rk1 % p), r1, p);
                        assert((a[i] * (rk1 % p)) % p == (a[i] * rk1) % p) by {
                            vstd::arithmetic::div_mod::lemma_mul_mod_noop_general(
                                a[i], rk1, p);
                        }
                    }
                    ((a[i] * rk1) * r1) % p; {
                        vstd::arithmetic::mul::lemma_mul_is_associative(a[i], rk1, r1);
                    }
                    (a[i] * (rk1 * r1)) % p; {}
                    (a[i] * rk) % p; {
                        vstd::arithmetic::div_mod::lemma_mul_mod_noop_general(
                            a[i], rk, p);
                    }
                    (a[i] * (rk % p)) % p;
                }
            }
        }
        assert(ext_frobenius_spec(root, a, k) =~= cur);
    }
}

/// Sum of the first `n` values of an integer-valued function.
pub open spec fn sum_n(f: spec_fn(int) -> int, n: int) -> int
    decreases n,
{
    if n <= 0 {
        0
    } else {
        sum_n(f, n - 1) + f(n - 1)
    }
}

/// Peeling the first value off a sum.
proof fn lemma_sum_head(f: spec_fn(int) -> int, g: spec_fn(int) -> int, n: int)
    requires
        n >= 1,
        forall|i: int| 0 <= i < n - 1 ==> #[trigger] g(i) == f(i + 1),
    ensures
        sum_n(f, n) == f(0) + sum_n(g, n - 1),
    decreases n,
{
    if n == 1 {
        assert(sum_n(f, 1) == sum_n(f, 0) + f(0));
    } else {
        lemma_sum_head(f, g, n - 1);
        assert(g(n - 2) == f(n - 1));
        assert(sum_n(f, n) == sum_n(f, n - 1) + f(n - 1));
        assert(sum_n(g, n - 1) == sum_n(g, n - 2) + g(n - 2));
    }
}

/// A sum is unchanged by reversing the order of its values.
proof fn lemma_sum_reverse(f: spec_fn(int) -> int, g: spec_fn(int) -> int, n: int)
    requires
        forall|i: int| 0 <= i < n ==> #[trigger] g(i) == f(n - 1 - i),
    ensures
        sum_n(f, n) == sum_n(g, n),
    decreases n,
{
    if n >= 1 {
        let g1 = |i: int| g(i + 1);
        lemma_sum_head(g, g1, n);
        assert forall|i: int| 0 <= i < n - 1 implies #[trigger] g1(i) == f((n - 1) - 1 - i) by {
            assert(g(i + 1) == f(n - 1 - (i + 1)));
        }
        lemma_sum_reverse(f, g1, n - 1);
        assert(g(0) == f(n - 1));
    }
}

/// Splitting a sum at position `m`.
proof fn lemma_sum_split(f: spec_fn(int) -> int, g: spec_fn(int) -> int, m: int, n: int)
    requires
        0 <= m <= n,
        forall|i: int| 0 <= i < n - m ==> #[trigger] g(i) == f(m + i),
    ensures
        sum_n(f, n) == sum_n(f, m) + sum_n(g, n - m),
    decreases n - m,
{
    if n > m {
        lemma_sum_split(f, g, m, n - 1);
        assert(g(n - 1 - m) == f(n - 1));
    }
}

/// The convolution sum is the generic sum of its terms.
proof fn lemma_conv_sum_as_sum(w: int, a: Seq<int>, b: Seq<int>, k: int, n: nat)
    ensures
        conv_sum(w, a, b, k, n) == sum_n(|i: int| conv_term(w, a, b, k, i), n as int),
    decreases n,
{
    if n > 0 {
        lemma_conv_sum_as_sum(w, a, b, k, (n - 1) as nat);
    }
}

/// Multiplication is commutative: the direct products pair off under
/// the reindexing `i -> k - i`, the wrapped products under
/// `i -> k + D - i`.
pub proof fn lemma_ext_mul_comm(w: int, a: Seq<int>, b: Seq<int>)
    requires
        a.len() == b.len(),
        a.len() >= 1,
    ensures
        ext_mul_spec(w, a, b) == ext_mul_spec(w, b, a),
{
    let d = a.len() as int;
    assert forall|k: int| 0 <= k < d implies ext_mul_spec(w, a, b)[k] == ext_mul_spec(
        w,
        b,
        a,
    )[k] by {
        let fab = |i: int| conv_term(w, a, b, k, i);
        let fba = |i: int| conv_term(w, b, a, k, i);
        lemma_conv_sum_as_sum(w, a, b, k, a.len());
        lemma_conv_sum_as_sum(w, b, a, k, a.len());
        // Split both sums at the wrap boundary.
        let gab = |i: int| fab(k + 1 + i);
        let gba = |i: int| fba(k + 1 + i);
        lemma_sum_split(fab, gab, k + 1, d);
        lemma_sum_split(fba, gba, k + 1, d);
        // Direct segment: reversal within [0, k].
        assert forall|i: int| 0 <= i < k + 1 implies #[trigger] fba(i) == fab(k - i) by {
            assert(fba(i) == b[i] * a[k - i]);
            assert(fab(k - i) == a[k - i] * b[i]);
        }
        lemma_sum_reverse(fab, fba, k + 1);
        // Wrapped segment: reversal within [k + 1, d - 1].
        assert forall|i: int| 0 <= i < d - (k + 1) implies #[trigger] gba(i) == gab(
            d - (k + 1) - 1 - i,
        ) by {
            let ii = k + 1 + i;
            let jj = d - 1 - i;
            assert(jj > k);
            assert(k + d - jj == ii);
            assert(k + d - ii == jj);
            assert(gba(i) == fba(ii));
            assert(fba(ii) == w * (b[ii] * a[jj]));
            assert(gab(d - (k + 1) - 1 - i) == fab(jj));
            assert(fab(jj) == w * (a[jj] * b[ii]));
            vstd::arithmetic::mul::lemma_mul_is_commutative(a[jj], b[ii]);
        }
        lemma_sum_reverse(gab, gba, d - (k + 1));
        assert(conv_sum(w, a, b, k, a.len()) == conv_sum(w, b, a, k, a.len()));
    }
    assert(ext_mul_spec(w, a, b) =~= ext_mul_spec(w, b, a));
}

/// Multiplication distributes over addition:
/// `a * (b + c) == a * b + a * c`.
pub proof fn lemma_ext_mul_distributes(w: int, a: Seq<int>, b: Seq<int>, c: Seq<int>)
    requires
        a.len() == b.len(),
        b.len() == c.len(),
        a.len() >= 1,
    ensures
        ext_mul_spec(w, a, ext_add_spec(b, c)) == ext_add_spec(
            ext_mul_spec(w, a, b),
            ext_mul_spec(w, a, c),
        ),
{
    let p = fp();
    let d = a.len() as int;
    assert forall|k: int| 0 <= k < d implies ext_mul_spec(w, a, ext_add_spec(b, c))[k]
        == ext_add_spec(ext_mul_spec(w, a, b), ext_mul_spec(w, a, c))[k] by {
        lemma_conv_add_right(w, a, b, c, k, a.len());
        let sb = conv_sum(w, a, b, k, a.len());
        let sc = conv_sum(w, a, c, k, a.len());
        vstd::arithmetic::div_mod::lemma_add_mod_noop(sb, sc, p);
    }
    assert(ext_mul_spec(w, a, ext_add_spec(b, c)) =~= ext_add_spec(
        ext_mul_spec(w, a, b),
        ext_mul_spec(w, a, c),
    ));
}

/// Scaling one factor scales the whole product:
/// `(c · a) * b == c · (a * b)` once both sides are reduced.
pub proof fn lemma_ext_mul_scale_left(w: int, c: int, a: Seq<int>, b: Seq<int>)
    requires
        a.len() == b.len(),
        a.len() >= 1,
    ensures
        ext_mul_spec(w, ext_scale_spec(c, a), b) == ext_scale_spec(c, ext_mul_spec(w, a, b)),
{
    let d = a.len() as int;
    let p = fp();
    assert forall|k: int| 0 <= k < d implies ext_mul_spec(w, ext_scale_spec(c, a), b)[k]
        == ext_scale_spec(c, ext_mul_spec(w, a, b))[k] by {
        lemma_conv_scale_left(w, c, a, b, k, a.len());
        vstd::arithmetic::div_mod::lemma_mul_mod_noop_general(
            c, conv_sum(w, a, b, k, a.len()), p);
    }
    assert(ext_mul_spec(w, ext_scale_spec(c, a), b)
        =~= ext_scale_spec(c, ext_mul_spec(w, a, b)));
}

} // verus!
