//! The gadget layer: the public extension-field arithmetic API over the
//! circuit builder.
//!
//! Every operation either short-circuits algebraically or lays down
//! arithmetic-extension gate rows, wiring its operands by copy
//! constraints.  Each gadget's contract states, for every assignment
//! satisfying the builder's constraints, how the values of the returned
//! targets relate to the values of the operand targets.

use vstd::prelude::*;

use crate::builder::{
    ext_vals, extends, gate_holds, group_vals, has_const, has_const_ext, is_one_ext, is_zero_ext,
    lemma_const_ext_value, lemma_const_unique_by_target, lemma_const_unique_by_value,
    lemma_const_value, lemma_extends_trans, lemma_has_const_ext_extends, lemma_has_const_extends,
    lemma_has_const_in_field,
    lemma_one_ext_vals, lemma_satisfies_extends, lemma_zero_ext_vals, prefix_of, satisfies,
    wire_at, CircuitBuilder, CopyConstraint, GateInstance, QuotientGenerator, GROUP_FIRST_ADDEND,
    GROUP_FIRST_MULTIPLICAND_0, GROUP_FIRST_MULTIPLICAND_1, GROUP_FIRST_OUTPUT,
    GROUP_SECOND_ADDEND, GROUP_SECOND_MULTIPLICAND_0, GROUP_SECOND_MULTIPLICAND_1,
    GROUP_SECOND_OUTPUT,
};
use crate::extension::{
    ext_add_spec, ext_madd_spec, ext_mul_spec, ext_one_spec, ext_scale_spec, ext_zero_spec,
    lemma_ext_add_zero_left, lemma_ext_add_zero_right, lemma_ext_mul_one_left,
    lemma_ext_mul_one_right, lemma_ext_mul_scale_left, lemma_ext_mul_scale_right,
    lemma_ext_mul_zero_left, lemma_ext_mul_zero_right, lemma_ext_scale_by_one,
    lemma_ext_scale_by_zero, lemma_ext_scale_in_field, lemma_ext_scale_zero_vec, vals_of,
    ExtensionElement, TowerParams,
};
use crate::field::{fp, in_field, seq_in_field};
use crate::target::{ext_targets_equal, ExtensionAlgebraTarget, ExtensionTarget, Target};

verus! {

/// The first fused term is structurally zero: its constant is the
/// zero scalar, or one of its multiplicands is the canonical zero
/// constant target.
pub open spec fn first_term_vanishes(
    b: CircuitBuilder,
    const_0: u64,
    m0: ExtensionTarget,
    m1: ExtensionTarget,
) -> bool {
    const_0 == 0 || is_zero_ext(b, m0) || is_zero_ext(b, m1)
}

/// Two targets whose wires are all pinned to zero share the same
/// wires: the constant table holds one wire per value.
proof fn lemma_zero_target_canonical(b: CircuitBuilder, t: ExtensionTarget, z: ExtensionTarget)
    requires
        b.wf(),
        is_zero_ext(b, t),
        is_zero_ext(b, z),
    ensures
        t.limbs@ == z.limbs@,
{
    assert forall|j: int| 0 <= j < t.limbs@.len() implies t.limbs@[j] == z.limbs@[j] by {
        lemma_const_unique_by_value(b, t.limbs@[j], z.limbs@[j], 0u64);
    }
    assert(t.limbs@ =~= z.limbs@);
}

/// A zero-pinned target stays zero-pinned as the builder grows.
proof fn lemma_is_zero_ext_extends(pre: CircuitBuilder, post: CircuitBuilder, t: ExtensionTarget)
    requires
        extends(pre, post),
        is_zero_ext(pre, t),
    ensures
        is_zero_ext(post, t),
{
    assert forall|j: int| 0 <= j < t.limbs@.len() implies has_const(
        post,
        t.limbs@[j],
        0u64,
    ) by {
        lemma_has_const_extends(pre, post, t.limbs@[j], 0u64);
    }
}

/// The canonical representatives of a constant coefficient vector
/// scaled by `c`.
pub open spec fn scaled_const_vec(c: int, vs: Seq<u64>) -> Seq<u64> {
    Seq::new(vs.len(), |j: int| crate::field::mul_f(c, vs[j] as int) as u64)
}

/// The scaled constant vector spells out the scaling of the values.
pub proof fn lemma_scaled_const_vec(c: int, vs: Seq<u64>)
    ensures
        vals_of(scaled_const_vec(c, vs)) == ext_scale_spec(c, vals_of(vs)),
{
    assert forall|j: int| 0 <= j < vs.len() implies vals_of(scaled_const_vec(c, vs))[j]
        == ext_scale_spec(c, vals_of(vs))[j] by {
        assert(0 <= crate::field::mul_f(c, vs[j] as int) < fp());
    }
    assert(vals_of(scaled_const_vec(c, vs)) =~= ext_scale_spec(c, vals_of(vs)));
}

impl CircuitBuilder {
    /// Lay down one gate row computing two independent fused operations
    /// `const_0 * m0 * m1 + const_1 * addend`, wiring all six operands
    /// by copy constraints and returning the two output groups.
    pub fn double_arithmetic_extension(
        &mut self,
        const_0: u64,
        const_1: u64,
        first_multiplicand_0: &ExtensionTarget,
        first_multiplicand_1: &ExtensionTarget,
        first_addend: &ExtensionTarget,
        second_multiplicand_0: &ExtensionTarget,
        second_multiplicand_1: &ExtensionTarget,
        second_addend: &ExtensionTarget,
    ) -> (r: (ExtensionTarget, ExtensionTarget))
        requires
            old(self).wf(),
            in_field(const_0),
            in_field(const_1),
            first_multiplicand_0.wf(old(self).spec_d()),
            first_multiplicand_1.wf(old(self).spec_d()),
            first_addend.wf(old(self).spec_d()),
            second_multiplicand_0.wf(old(self).spec_d()),
            second_multiplicand_1.wf(old(self).spec_d()),
            second_addend.wf(old(self).spec_d()),
        ensures
            final(self).wf(),
            extends(*old(self), *final(self)),
            final(self).gates@ == old(self).gates@.push(GateInstance { const_0, const_1 }),
            final(self).constants@ == old(self).constants@,
            final(self).generators@ == old(self).generators@,
            final(self).num_virtual == old(self).num_virtual,
            r.0.wf(final(self).spec_d()),
            r.1.wf(final(self).spec_d()),
            forall|j: int|
                0 <= j < final(self).spec_d() ==> r.0.limbs@[j] == wire_at(
                    old(self).gates@.len() as int,
                    GROUP_FIRST_OUTPUT as int,
                    final(self).spec_d(),
                    j,
                ),
            forall|j: int|
                0 <= j < final(self).spec_d() ==> r.1.limbs@[j] == wire_at(
                    old(self).gates@.len() as int,
                    GROUP_SECOND_OUTPUT as int,
                    final(self).spec_d(),
                    j,
                ),
            forall|m: Map<Target, int>|
                #[trigger] satisfies(*final(self), m) ==> ext_vals(m, r.0) == ext_madd_spec(
                    final(self).params.w as int,
                    const_0 as int,
                    ext_vals(m, *first_multiplicand_0),
                    ext_vals(m, *first_multiplicand_1),
                    const_1 as int,
                    ext_vals(m, *first_addend),
                ) && ext_vals(m, r.1) == ext_madd_spec(
                    final(self).params.w as int,
                    const_0 as int,
                    ext_vals(m, *second_multiplicand_0),
                    ext_vals(m, *second_multiplicand_1),
                    const_1 as int,
                    ext_vals(m, *second_addend),
                ),
    {
        let ghost pre = *self;
        let gate = self.gates.len();
        self.gates.push(GateInstance { const_0, const_1 });
        let ghost b0 = *self;

        let wire_first_multiplicand_0 = self.wire_range_target(gate, GROUP_FIRST_MULTIPLICAND_0);
        let wire_first_multiplicand_1 = self.wire_range_target(gate, GROUP_FIRST_MULTIPLICAND_1);
        let wire_first_addend = self.wire_range_target(gate, GROUP_FIRST_ADDEND);
        let wire_second_multiplicand_0 = self.wire_range_target(gate, GROUP_SECOND_MULTIPLICAND_0);
        let wire_second_multiplicand_1 = self.wire_range_target(gate, GROUP_SECOND_MULTIPLICAND_1);
        let wire_second_addend = self.wire_range_target(gate, GROUP_SECOND_ADDEND);
        let wire_first_output = self.wire_range_target(gate, GROUP_FIRST_OUTPUT);
        let wire_second_output = self.wire_range_target(gate, GROUP_SECOND_OUTPUT);

        self.route_extension(first_multiplicand_0, &wire_first_multiplicand_0);
        let ghost b1 = *self;
        self.route_extension(first_multiplicand_1, &wire_first_multiplicand_1);
        let ghost b2 = *self;
        self.route_extension(first_addend, &wire_first_addend);
        let ghost b3 = *self;
        self.route_extension(second_multiplicand_0, &wire_second_multiplicand_0);
        let ghost b4 = *self;
        self.route_extension(second_multiplicand_1, &wire_second_multiplicand_1);
        let ghost b5 = *self;
        self.route_extension(second_addend, &wire_second_addend);

        proof {
            let post = *self;
            let d = post.params.d as int;
            let w = post.params.w as int;
            let gi = GateInstance { const_0, const_1 };
            assert(post.gates@ =~= pre.gates@.push(gi));
            assert forall|m: Map<Target, int>| #[trigger] satisfies(post, m) implies ext_vals(
                m,
                wire_first_output,
            ) == ext_madd_spec(
                w,
                const_0 as int,
                ext_vals(m, *first_multiplicand_0),
                ext_vals(m, *first_multiplicand_1),
                const_1 as int,
                ext_vals(m, *first_addend),
            ) && ext_vals(m, wire_second_output) == ext_madd_spec(
                w,
                const_0 as int,
                ext_vals(m, *second_multiplicand_0),
                ext_vals(m, *second_multiplicand_1),
                const_1 as int,
                ext_vals(m, *second_addend),
            ) by {
                lemma_satisfies_extends(b5, post, m);
                lemma_satisfies_extends(b4, b5, m);
                lemma_satisfies_extends(b3, b4, m);
                lemma_satisfies_extends(b2, b3, m);
                lemma_satisfies_extends(b1, b2, m);
                // The freshly pushed gate's identities hold of m.
                assert(post.gates@[gate as int] == gi);
                assert(gate_holds(m, gate as int, gi, d, w));
                // Each routed operand carries the same values as its
                // wire group.
                assert(ext_vals(m, *first_multiplicand_0) == ext_vals(
                    m,
                    wire_first_multiplicand_0,
                ));
                assert(ext_vals(m, *first_multiplicand_1) == ext_vals(
                    m,
                    wire_first_multiplicand_1,
                ));
                assert(ext_vals(m, *first_addend) == ext_vals(m, wire_first_addend));
                assert(ext_vals(m, *second_multiplicand_0) == ext_vals(
                    m,
                    wire_second_multiplicand_0,
                ));
                assert(ext_vals(m, *second_multiplicand_1) == ext_vals(
                    m,
                    wire_second_multiplicand_1,
                ));
                assert(ext_vals(m, *second_addend) == ext_vals(m, wire_second_addend));
                // The wire groups are exactly this row's operand values.
                assert(ext_vals(m, wire_first_multiplicand_0) =~= group_vals(
                    m, gate as int, GROUP_FIRST_MULTIPLICAND_0 as int, d));
                assert(ext_vals(m, wire_first_multiplicand_1) =~= group_vals(
                    m, gate as int, GROUP_FIRST_MULTIPLICAND_1 as int, d));
                assert(ext_vals(m, wire_first_addend) =~= group_vals(
                    m, gate as int, GROUP_FIRST_ADDEND as int, d));
                assert(ext_vals(m, wire_second_multiplicand_0) =~= group_vals(
                    m, gate as int, GROUP_SECOND_MULTIPLICAND_0 as int, d));
                assert(ext_vals(m, wire_second_multiplicand_1) =~= group_vals(
                    m, gate as int, GROUP_SECOND_MULTIPLICAND_1 as int, d));
                assert(ext_vals(m, wire_second_addend) =~= group_vals(
                    m, gate as int, GROUP_SECOND_ADDEND as int, d));
                assert(ext_vals(m, wire_first_output) =~= group_vals(
                    m, gate as int, GROUP_FIRST_OUTPUT as int, d));
                assert(ext_vals(m, wire_second_output) =~= group_vals(
                    m, gate as int, GROUP_SECOND_OUTPUT as int, d));
            }
        }
        (wire_first_output, wire_second_output)
    }

    /// The constant the first fused term `const_0 * m0 * m1` reduces
    /// to, when that is already determined: because it vanishes, or
    /// because both multiplicands are materialized constants.
    fn first_term_as_constant(
        &self,
        const_0: u64,
        multiplicand_0: &ExtensionTarget,
        multiplicand_1: &ExtensionTarget,
        zero: &ExtensionTarget,
    ) -> (r: Option<ExtensionElement>)
        requires
            self.wf(),
            in_field(const_0),
            multiplicand_0.wf(self.spec_d()),
            multiplicand_1.wf(self.spec_d()),
            zero.wf(self.spec_d()),
            is_zero_ext(*self, *zero),
        ensures
            r is Some ==> r->Some_0.wf() && r->Some_0.coeffs@.len() == self.params.d
                && r->Some_0.w == self.params.w && forall|m: Map<Target, int>|
                #[trigger] satisfies(*self, m) ==> r->Some_0.vals() == ext_scale_spec(
                    const_0 as int,
                    ext_mul_spec(
                        self.params.w as int,
                        ext_vals(m, *multiplicand_0),
                        ext_vals(m, *multiplicand_1),
                    ),
                ),
            (const_0 == 0 || multiplicand_0.limbs@ == zero.limbs@ || multiplicand_1.limbs@
                == zero.limbs@) ==> r is Some && r->Some_0.vals() == ext_zero_spec(
                self.spec_d(),
            ),
    {
        let ghost d = self.params.d as int;
        let ghost w = self.params.w as int;
        let first_term_zero = const_0 == 0 || ext_targets_equal(multiplicand_0, zero)
            || ext_targets_equal(multiplicand_1, zero);
        if first_term_zero {
            let z = self.params.zero_element();
            proof {
                assert forall|m: Map<Target, int>| #[trigger] satisfies(*self, m) implies
                    z.vals() == ext_scale_spec(
                    const_0 as int,
                    ext_mul_spec(
                        w,
                        ext_vals(m, *multiplicand_0),
                        ext_vals(m, *multiplicand_1),
                    ),
                ) by {
                    let xm = ext_vals(m, *multiplicand_0);
                    let ym = ext_vals(m, *multiplicand_1);
                    if const_0 == 0 {
                        lemma_ext_scale_by_zero(ext_mul_spec(w, xm, ym));
                    } else if multiplicand_0.limbs@ == zero.limbs@ {
                        lemma_zero_ext_vals(*self, m, *zero);
                        assert(xm =~= ext_vals(m, *zero));
                        lemma_ext_mul_zero_left(w, ym);
                        lemma_ext_scale_zero_vec(const_0 as int, d);
                    } else {
                        lemma_zero_ext_vals(*self, m, *zero);
                        assert(ym =~= ext_vals(m, *zero));
                        lemma_ext_mul_zero_right(w, xm);
                        lemma_ext_scale_zero_vec(const_0 as int, d);
                    }
                }
            }
            return Some(z);
        }
        match (
            self.target_as_constant_ext(multiplicand_0),
            self.target_as_constant_ext(multiplicand_1),
        ) {
            (Some(x), Some(y)) => {
                let ghost xs = x@;
                let ghost ys = y@;
                let xe = self.params.element(x);
                let ye = self.params.element(y);
                let f = xe.mul(&ye).scale(const_0);
                proof {
                    assert forall|m: Map<Target, int>| #[trigger] satisfies(*self, m) implies
                        f.vals() == ext_scale_spec(
                        const_0 as int,
                        ext_mul_spec(
                            w,
                            ext_vals(m, *multiplicand_0),
                            ext_vals(m, *multiplicand_1),
                        ),
                    ) by {
                        lemma_const_ext_value(*self, m, *multiplicand_0, xs);
                        lemma_const_ext_value(*self, m, *multiplicand_1, ys);
                    }
                }
                Some(f)
            },
            _ => None,
        }
    }

    /// The constant the second fused term `const_1 * addend` reduces
    /// to, when that is already determined.
    fn second_term_as_constant(
        &self,
        const_1: u64,
        addend: &ExtensionTarget,
        zero: &ExtensionTarget,
    ) -> (r: Option<ExtensionElement>)
        requires
            self.wf(),
            in_field(const_1),
            addend.wf(self.spec_d()),
            zero.wf(self.spec_d()),
            is_zero_ext(*self, *zero),
        ensures
            r is Some ==> r->Some_0.wf() && r->Some_0.coeffs@.len() == self.params.d
                && r->Some_0.w == self.params.w && forall|m: Map<Target, int>|
                #[trigger] satisfies(*self, m) ==> r->Some_0.vals() == ext_scale_spec(
                    const_1 as int,
                    ext_vals(m, *addend),
                ),
            (const_1 == 0 || addend.limbs@ == zero.limbs@) ==> r is Some && r->Some_0.vals()
                == ext_zero_spec(self.spec_d()),
            forall|vs: Seq<u64>|
                #[trigger] has_const_ext(*self, *addend, vs) ==> r is Some && r->Some_0.vals()
                    == ext_scale_spec(const_1 as int, vals_of(vs)),
            r is Some ==> const_1 == 0 || addend.limbs@ == zero.limbs@ || exists|vs: Seq<u64>|
                #[trigger] has_const_ext(*self, *addend, vs),
    {
        let ghost d = self.params.d as int;
        let second_term_zero = const_1 == 0 || ext_targets_equal(addend, zero);
        if second_term_zero {
            let z = self.params.zero_element();
            proof {
                assert forall|m: Map<Target, int>| #[trigger] satisfies(*self, m) implies
                    z.vals() == ext_scale_spec(const_1 as int, ext_vals(m, *addend)) by {
                    if const_1 == 0 {
                        lemma_ext_scale_by_zero(ext_vals(m, *addend));
                        assert(ext_vals(m, *addend).len() == d);
                    } else {
                        lemma_zero_ext_vals(*self, m, *zero);
                        assert(ext_vals(m, *addend) =~= ext_vals(m, *zero));
                        lemma_ext_scale_zero_vec(const_1 as int, d);
                    }
                }
                assert forall|vs: Seq<u64>| #[trigger] has_const_ext(*self, *addend, vs)
                    implies z.vals() == ext_scale_spec(const_1 as int, vals_of(vs)) by {
                    if const_1 == 0 {
                        lemma_ext_scale_by_zero(vals_of(vs));
                        assert(vals_of(vs).len() == d);
                    } else {
                        // The addend is the canonical zero target, so
                        // any constants recorded for it are zero.
                        assert forall|j: int| 0 <= j < vs.len() implies vals_of(vs)[j] == 0 by {
                            assert(has_const(*self, addend.limbs@[j], vs[j]));
                            assert(has_const(*self, zero.limbs@[j], 0u64));
                            lemma_const_unique_by_target(*self, addend.limbs@[j], vs[j], 0u64);
                        }
                        assert(vals_of(vs) =~= ext_zero_spec(d));
                        lemma_ext_scale_zero_vec(const_1 as int, d);
                    }
                }
            }
            return Some(z);
        }
        match self.target_as_constant_ext(addend) {
            Some(a) => {
                let ghost as_ = a@;
                let s = self.params.element(a).scale(const_1);
                proof {
                    assert forall|m: Map<Target, int>| #[trigger] satisfies(*self, m) implies
                        s.vals() == ext_scale_spec(const_1 as int, ext_vals(m, *addend)) by {
                        lemma_const_ext_value(*self, m, *addend, as_);
                    }
                    assert forall|vs: Seq<u64>| #[trigger] has_const_ext(*self, *addend, vs)
                        implies s.vals() == ext_scale_spec(const_1 as int, vals_of(vs)) by {
                        assert forall|j: int| 0 <= j < vs.len() implies vals_of(vs)[j]
                            == vals_of(as_)[j] by {
                            assert(has_const(*self, addend.limbs@[j], vs[j]));
                            assert(has_const(*self, addend.limbs@[j], as_[j]));
                            lemma_const_unique_by_target(*self, addend.limbs@[j], vs[j], as_[j]);
                        }
                        assert(vals_of(vs) =~= vals_of(as_));
                    }
                }
                Some(s)
            },
            None => {
                proof {
                    assert forall|vs: Seq<u64>| !has_const_ext(*self, *addend, vs) by {}
                }
                None
            },
        }
    }

    /// Checks for special cases where the value of
    /// `const_0 * multiplicand_0 * multiplicand_1 + const_1 * addend`
    /// can be determined without laying down a gate row, following the
    /// priority order: constant folding first, then addend
    /// pass-through, then identity elimination of either multiplicand.
    fn arithmetic_extension_special_cases(
        &mut self,
        const_0: u64,
        const_1: u64,
        multiplicand_0: &ExtensionTarget,
        multiplicand_1: &ExtensionTarget,
        addend: &ExtensionTarget,
    ) -> (r: Option<ExtensionTarget>)
        requires
            old(self).wf(),
            in_field(const_0),
            in_field(const_1),
            multiplicand_0.wf(old(self).spec_d()),
            multiplicand_1.wf(old(self).spec_d()),
            addend.wf(old(self).spec_d()),
            old(self).num_virtual + 2 * old(self).params.d <= usize::MAX,
        ensures
            final(self).wf(),
            extends(*old(self), *final(self)),
            final(self).gates@ == old(self).gates@,
            final(self).copies@ == old(self).copies@,
            final(self).generators@ == old(self).generators@,
            final(self).num_virtual <= old(self).num_virtual + 2 * old(self).params.d,
            r is Some ==> r->Some_0.wf(old(self).spec_d()) && forall|m: Map<Target, int>|
                #[trigger] satisfies(*final(self), m) ==> ext_vals(m, r->Some_0)
                    == ext_madd_spec(
                    old(self).params.w as int,
                    const_0 as int,
                    ext_vals(m, *multiplicand_0),
                    ext_vals(m, *multiplicand_1),
                    const_1 as int,
                    ext_vals(m, *addend),
                ),
            (first_term_vanishes(*old(self), const_0, *multiplicand_0, *multiplicand_1)
                && const_1 == 1) ==> r is Some && r->Some_0.limbs@ == addend.limbs@,
            forall|vs: Seq<u64>|
                (const_0 == 0 && #[trigger] has_const_ext(*old(self), *addend, vs)) ==> r is Some
                    && has_const_ext(
                    *final(self),
                    r->Some_0,
                    scaled_const_vec(const_1 as int, vs),
                ),
    {
        let ghost pre = *old(self);
        let ghost d = pre.params.d as int;
        let ghost w = pre.params.w as int;

        let zero = self.zero_extension();
        let ghost bz = *self;

        let first_term_zero = const_0 == 0 || ext_targets_equal(multiplicand_0, &zero)
            || ext_targets_equal(multiplicand_1, &zero);
        let second_term_zero = const_1 == 0 || ext_targets_equal(addend, &zero);
        proof {
            // A multiplicand that was zero-pinned before the call
            // compares equal to the canonical zero target, so the
            // structural test above detects it.
            if first_term_vanishes(pre, const_0, *multiplicand_0, *multiplicand_1) {
                if is_zero_ext(pre, *multiplicand_0) {
                    lemma_is_zero_ext_extends(pre, bz, *multiplicand_0);
                    lemma_zero_target_canonical(bz, *multiplicand_0, zero);
                }
                if is_zero_ext(pre, *multiplicand_1) {
                    lemma_is_zero_ext_extends(pre, bz, *multiplicand_1);
                    lemma_zero_target_canonical(bz, *multiplicand_1, zero);
                }
                assert(first_term_zero);
            }
        }

        let first_term_const = self.first_term_as_constant(
            const_0,
            multiplicand_0,
            multiplicand_1,
            &zero,
        );
        let second_term_const = self.second_term_as_constant(const_1, addend, &zero);

        // If both terms are constant, return their (constant) sum.
        if first_term_const.is_some() && second_term_const.is_some() {
            let x = first_term_const.unwrap();
            let y = second_term_const.unwrap();
            let sum = x.add(&y);
            let res = self.constant_extension(&sum.coeffs);
            let ghost bf = *self;
            proof {
                // Meaning: under any satisfying assignment the
                // materialized constant is the fused result.
                assert forall|m: Map<Target, int>| #[trigger] satisfies(bf, m) implies
                    ext_vals(m, res) == ext_madd_spec(
                    w,
                    const_0 as int,
                    ext_vals(m, *multiplicand_0),
                    ext_vals(m, *multiplicand_1),
                    const_1 as int,
                    ext_vals(m, *addend),
                ) by {
                    lemma_satisfies_extends(bz, bf, m);
                    lemma_const_ext_value(bf, m, res, sum.coeffs@);
                }
                // The addend passes through whenever the first
                // term vanishes and `const_1` is one.
                if first_term_vanishes(pre, const_0, *multiplicand_0, *multiplicand_1)
                    && const_1 == 1 {
                    if is_zero_ext(pre, *multiplicand_0) {
                        lemma_is_zero_ext_extends(pre, bz, *multiplicand_0);
                        lemma_zero_target_canonical(bz, *multiplicand_0, zero);
                    }
                    if is_zero_ext(pre, *multiplicand_1) {
                        lemma_is_zero_ext_extends(pre, bz, *multiplicand_1);
                        lemma_zero_target_canonical(bz, *multiplicand_1, zero);
                    }
                    assert(x.vals() == ext_zero_spec(d));
                    lemma_fold_returns_addend(
                        pre, bz, bf, *addend, zero, res, x, y, sum, const_1);
                }
                // Constant folding of `const_1 * addend` when the
                // first term vanishes.
                assert forall|vs: Seq<u64>|
                    (const_0 == 0 && #[trigger] has_const_ext(*old(self), *addend, vs))
                    implies has_const_ext(
                    bf,
                    res,
                    scaled_const_vec(const_1 as int, vs),
                ) by {
                    lemma_has_const_ext_extends(pre, bz, *addend, vs);
                    assert(y.vals() == ext_scale_spec(const_1 as int, vals_of(vs)));
                    assert(x.vals() == ext_zero_spec(d));
                    lemma_ext_scale_in_field(const_1 as int, vals_of(vs));
                    lemma_ext_add_zero_left(ext_scale_spec(const_1 as int, vals_of(vs)));
                    assert(sum.vals() == ext_scale_spec(const_1 as int, vals_of(vs)));
                    lemma_scaled_const_vec(const_1 as int, vs);
                    assert forall|j: int| 0 <= j < sum.coeffs@.len() implies sum.coeffs@[j]
                        == scaled_const_vec(const_1 as int, vs)[j] by {
                        assert(vals_of(sum.coeffs@)[j] == vals_of(
                            scaled_const_vec(const_1 as int, vs),
                        )[j]);
                    }
                    assert(sum.coeffs@ =~= scaled_const_vec(const_1 as int, vs));
                    assert(has_const_ext(bf, res, sum.coeffs@));
                }
            }
            return Some(res);
        }
        proof {
            // Neither promised short-circuit can land here: a
            // vanishing first term is always a constant, and a
            // constant addend makes the second term constant.
            if const_0 == 0 {
                assert(first_term_const is Some);
                assert forall|vs: Seq<u64>| !#[trigger] has_const_ext(
                    pre,
                    *addend,
                    vs,
                ) by {
                    if has_const_ext(pre, *addend, vs) {
                        lemma_has_const_ext_extends(pre, bz, *addend, vs);
                    }
                }
            }
        }
        if first_term_zero && const_1 == 1 {
            let r = addend.clone();
            proof {
                assert forall|m: Map<Target, int>| #[trigger] satisfies(bz, m) implies
                    ext_vals(m, r) == ext_madd_spec(
                    w,
                    const_0 as int,
                    ext_vals(m, *multiplicand_0),
                    ext_vals(m, *multiplicand_1),
                    const_1 as int,
                    ext_vals(m, *addend),
                ) by {
                    let am = ext_vals(m, *addend);
                    assert(first_term_const is Some
                        && first_term_const->Some_0.vals() == ext_zero_spec(d));
                    assert(first_term_const->Some_0.vals() == ext_scale_spec(
                        const_0 as int,
                        ext_mul_spec(
                            w,
                            ext_vals(m, *multiplicand_0),
                            ext_vals(m, *multiplicand_1),
                        ),
                    ));
                    lemma_ext_vals_in_field(m, *addend);
                    lemma_ext_scale_by_one(am);
                    lemma_ext_add_zero_left(am);
                    assert(ext_vals(m, r) =~= am);
                }
            }
            return Some(r);
        }
        if second_term_zero {
            proof {
                assert(second_term_const is Some
                    && second_term_const->Some_0.vals() == ext_zero_spec(d));
            }
            match self.target_as_constant_ext(multiplicand_0) {
                Some(x) => {
                    let ghost xs = x@;
                    let scaled = self.params.element(x).scale(const_0);
                    if TowerParams::is_one_vector(&scaled.coeffs) {
                        let r = multiplicand_1.clone();
                        proof {
                            assert forall|m: Map<Target, int>|
                                #[trigger] satisfies(bz, m) implies ext_vals(m, r)
                                == ext_madd_spec(
                                w,
                                const_0 as int,
                                ext_vals(m, *multiplicand_0),
                                ext_vals(m, *multiplicand_1),
                                const_1 as int,
                                ext_vals(m, *addend),
                            ) by {
                                let xm = ext_vals(m, *multiplicand_0);
                                let ym = ext_vals(m, *multiplicand_1);
                                lemma_const_ext_value(bz, m, *multiplicand_0, xs);
                                lemma_ext_mul_scale_left(w, const_0 as int, xm, ym);
                                lemma_ext_vals_in_field(m, *multiplicand_1);
                                lemma_ext_mul_one_left(w, ym);
                                assert(ext_scale_spec(const_0 as int, xm)
                                    == ext_one_spec(d));
                                lemma_ext_add_zero_right(ym);
                                assert(ext_vals(m, r) =~= ym);
                            }
                        }
                        return Some(r);
                    }
                },
                None => {},
            }
            match self.target_as_constant_ext(multiplicand_1) {
                Some(y) => {
                    let ghost ys = y@;
                    let scaled = self.params.element(y).scale(const_0);
                    if TowerParams::is_one_vector(&scaled.coeffs) {
                        let r = multiplicand_0.clone();
                        proof {
                            assert forall|m: Map<Target, int>|
                                #[trigger] satisfies(bz, m) implies ext_vals(m, r)
                                == ext_madd_spec(
                                w,
                                const_0 as int,
                                ext_vals(m, *multiplicand_0),
                                ext_vals(m, *multiplicand_1),
                                const_1 as int,
                                ext_vals(m, *addend),
                            ) by {
                                let xm = ext_vals(m, *multiplicand_0);
                                let ym = ext_vals(m, *multiplicand_1);
                                lemma_const_ext_value(bz, m, *multiplicand_1, ys);
                                lemma_ext_mul_scale_right(w, const_0 as int, xm, ym);
                                lemma_ext_vals_in_field(m, *multiplicand_0);
                                lemma_ext_mul_one_right(w, xm);
                                assert(ext_scale_spec(const_0 as int, ym)
                                    == ext_one_spec(d));
                                lemma_ext_add_zero_right(xm);
                                assert(ext_vals(m, r) =~= xm);
                            }
                        }
                        return Some(r);
                    }
                },
                None => {},
            }
        }
        None
    }

    /// Compute `const_0 * multiplicand_0 * multiplicand_1 + const_1 *
    /// addend` in-circuit, short-circuiting algebraically where the
    /// result is already determined and otherwise laying down exactly
    /// one gate row with the unused second slot padded by zeros.
    pub fn arithmetic_extension(
        &mut self,
        const_0: u64,
        const_1: u64,
        multiplicand_0: &ExtensionTarget,
        multiplicand_1: &ExtensionTarget,
        addend: &ExtensionTarget,
    ) -> (r: ExtensionTarget)
        requires
            old(self).wf(),
            in_field(const_0),
            in_field(const_1),
            multiplicand_0.wf(old(self).spec_d()),
            multiplicand_1.wf(old(self).spec_d()),
            addend.wf(old(self).spec_d()),
            old(self).num_virtual + 3 * old(self).params.d <= usize::MAX,
        ensures
            final(self).wf(),
            extends(*old(self), *final(self)),
            final(self).gates@.len() <= old(self).gates@.len() + 1,
            final(self).generators@ == old(self).generators@,
            final(self).num_virtual <= old(self).num_virtual + 3 * old(self).params.d,
            r.wf(final(self).spec_d()),
            forall|m: Map<Target, int>|
                #[trigger] satisfies(*final(self), m) ==> ext_vals(m, r) == ext_madd_spec(
                    final(self).params.w as int,
                    const_0 as int,
                    ext_vals(m, *multiplicand_0),
                    ext_vals(m, *multiplicand_1),
                    const_1 as int,
                    ext_vals(m, *addend),
                ),
            (first_term_vanishes(*old(self), const_0, *multiplicand_0, *multiplicand_1)
                && const_1 == 1) ==> final(self).gates@ == old(self).gates@ && r.limbs@
                == addend.limbs@,
            forall|vs: Seq<u64>|
                (const_0 == 0 && #[trigger] has_const_ext(*old(self), *addend, vs))
                    ==> final(self).gates@ == old(self).gates@ && has_const_ext(
                    *final(self),
                    r,
                    scaled_const_vec(const_1 as int, vs),
                ),
    {
        // See if we can determine the result without laying down a gate.
        match self.arithmetic_extension_special_cases(
            const_0,
            const_1,
            multiplicand_0,
            multiplicand_1,
            addend,
        ) {
            Some(result) => {
                return result;
            },
            None => {},
        }

        let ghost bs = *self;
        let zero = self.zero_extension();
        let ghost bz = *self;
        let rr = self.double_arithmetic_extension(
            const_0,
            const_1,
            multiplicand_0,
            multiplicand_1,
            addend,
            &zero,
            &zero,
            &zero,
        );
        proof {
            lemma_extends_trans(*old(self), bs, bz);
            lemma_extends_trans(*old(self), bz, *self);
            assert(self.gates@.len() == old(self).gates@.len() + 1);
        }
        rr.0
    }

    /// In-circuit addition: `a + b`.
    pub fn add_extension(&mut self, a: &ExtensionTarget, b: &ExtensionTarget) -> (r:
        ExtensionTarget)
        requires
            old(self).wf(),
            a.wf(old(self).spec_d()),
            b.wf(old(self).spec_d()),
            old(self).num_virtual + 4 * old(self).params.d <= usize::MAX,
        ensures
            final(self).wf(),
            extends(*old(self), *final(self)),
            final(self).gates@.len() <= old(self).gates@.len() + 1,
            final(self).generators@ == old(self).generators@,
            final(self).num_virtual <= old(self).num_virtual + 4 * old(self).params.d,
            r.wf(final(self).spec_d()),
            forall|m: Map<Target, int>|
                #[trigger] satisfies(*final(self), m) ==> ext_vals(m, r) == ext_add_spec(
                    ext_vals(m, *a),
                    ext_vals(m, *b),
                ),
    {
        let one = self.one_extension();
        let ghost snap = *self;
        let r = self.arithmetic_extension(1, 1, &one, a, b);
        proof {
            lemma_extends_trans(*old(self), snap, *self);
            assert forall|m: Map<Target, int>| #[trigger] satisfies(*self, m) implies ext_vals(
                m,
                r,
            ) == ext_add_spec(ext_vals(m, *a), ext_vals(m, *b)) by {
                lemma_satisfies_extends(snap, *self, m);
                lemma_one_ext_vals(snap, m, one);
                lemma_ext_vals_in_field(m, *a);
                lemma_ext_vals_in_field(m, *b);
                lemma_madd_unit_add(
                    self.params.w as int, ext_vals(m, *a), ext_vals(m, *b));
            }
        }
        r
    }

    /// Two independent additions through one gate row:
    /// returns `(a0 + b0, a1 + b1)`.
    pub fn add_two_extension(
        &mut self,
        a0: &ExtensionTarget,
        b0: &ExtensionTarget,
        a1: &ExtensionTarget,
        b1: &ExtensionTarget,
    ) -> (r: (ExtensionTarget, ExtensionTarget))
        requires
            old(self).wf(),
            a0.wf(old(self).spec_d()),
            b0.wf(old(self).spec_d()),
            a1.wf(old(self).spec_d()),
            b1.wf(old(self).spec_d()),
            old(self).num_virtual + old(self).params.d <= usize::MAX,
        ensures
            final(self).wf(),
            extends(*old(self), *final(self)),
            final(self).gates@.len() == old(self).gates@.len() + 1,
            final(self).generators@ == old(self).generators@,
            final(self).num_virtual <= old(self).num_virtual + old(self).params.d,
            r.0.wf(final(self).spec_d()),
            r.1.wf(final(self).spec_d()),
            forall|m: Map<Target, int>|
                #[trigger] satisfies(*final(self), m) ==> ext_vals(m, r.0) == ext_add_spec(
                    ext_vals(m, *a0),
                    ext_vals(m, *b0),
                ) && ext_vals(m, r.1) == ext_add_spec(ext_vals(m, *a1), ext_vals(m, *b1)),
    {
        let one = self.one_extension();
        let ghost snap = *self;
        let rr = self.double_arithmetic_extension(1, 1, &one, a0, b0, &one, a1, b1);
        proof {
            lemma_extends_trans(*old(self), snap, *self);
            assert forall|m: Map<Target, int>| #[trigger] satisfies(*self, m) implies ext_vals(
                m,
                rr.0,
            ) == ext_add_spec(ext_vals(m, *a0), ext_vals(m, *b0)) && ext_vals(m, rr.1)
                == ext_add_spec(ext_vals(m, *a1), ext_vals(m, *b1)) by {
                lemma_satisfies_extends(snap, *self, m);
                lemma_one_ext_vals(snap, m, one);
                lemma_ext_vals_in_field(m, *a0);
                lemma_ext_vals_in_field(m, *b0);
                lemma_ext_vals_in_field(m, *a1);
                lemma_ext_vals_in_field(m, *b1);
                lemma_madd_unit_add(
                    self.params.w as int, ext_vals(m, *a0), ext_vals(m, *b0));
                lemma_madd_unit_add(
                    self.params.w as int, ext_vals(m, *a1), ext_vals(m, *b1));
            }
        }
        rr
    }

    /// In-circuit subtraction: `a - b`.
    pub fn sub_extension(&mut self, a: &ExtensionTarget, b: &ExtensionTarget) -> (r:
        ExtensionTarget)
        requires
            old(self).wf(),
            a.wf(old(self).spec_d()),
            b.wf(old(self).spec_d()),
            old(self).num_virtual + 4 * old(self).params.d <= usize::MAX,
        ensures
            final(self).wf(),
            extends(*old(self), *final(self)),
            final(self).gates@.len() <= old(self).gates@.len() + 1,
            final(self).generators@ == old(self).generators@,
            final(self).num_virtual <= old(self).num_virtual + 4 * old(self).params.d,
            r.wf(final(self).spec_d()),
            forall|m: Map<Target, int>|
                #[trigger] satisfies(*final(self), m) ==> ext_vals(m, r)
                    == crate::extension::ext_sub_spec(ext_vals(m, *a), ext_vals(m, *b)),
    {
        let one = self.one_extension();
        let ghost snap = *self;
        let neg_one = crate::field::f_neg_one();
        proof {
            vstd::arithmetic::div_mod::lemma_small_mod(
                (crate::field::FIELD_ORDER - 1) as nat,
                crate::field::FIELD_ORDER as nat,
            );
        }
        let r = self.arithmetic_extension(1, neg_one, &one, a, b);
        proof {
            lemma_extends_trans(*old(self), snap, *self);
            assert forall|m: Map<Target, int>| #[trigger] satisfies(*self, m) implies ext_vals(
                m,
                r,
            ) == crate::extension::ext_sub_spec(ext_vals(m, *a), ext_vals(m, *b)) by {
                lemma_satisfies_extends(snap, *self, m);
                lemma_one_ext_vals(snap, m, one);
                lemma_ext_vals_in_field(m, *a);
                lemma_ext_vals_in_field(m, *b);
                lemma_madd_unit_sub(
                    self.params.w as int, ext_vals(m, *a), ext_vals(m, *b));
            }
        }
        r
    }

    /// Two independent subtractions through one gate row:
    /// returns `(a0 - b0, a1 - b1)`.
    pub fn sub_two_extension(
        &mut self,
        a0: &ExtensionTarget,
        b0: &ExtensionTarget,
        a1: &ExtensionTarget,
        b1: &ExtensionTarget,
    ) -> (r: (ExtensionTarget, ExtensionTarget))
        requires
            old(self).wf(),
            a0.wf(old(self).spec_d()),
            b0.wf(old(self).spec_d()),
            a1.wf(old(self).spec_d()),
            b1.wf(old(self).spec_d()),
            old(self).num_virtual + old(self).params.d <= usize::MAX,
        ensures
            final(self).wf(),
            extends(*old(self), *final(self)),
            final(self).gates@.len() == old(self).gates@.len() + 1,
            final(self).generators@ == old(self).generators@,
            final(self).num_virtual <= old(self).num_virtual + old(self).params.d,
            r.0.wf(final(self).spec_d()),
            r.1.wf(final(self).spec_d()),
            forall|m: Map<Target, int>|
                #[trigger] satisfies(*final(self), m) ==> ext_vals(m, r.0)
                    == crate::extension::ext_sub_spec(ext_vals(m, *a0), ext_vals(m, *b0))
                    && ext_vals(m, r.1) == crate::extension::ext_sub_spec(
                    ext_vals(m, *a1),
                    ext_vals(m, *b1),
                ),
    {
        let one = self.one_extension();
        let ghost snap = *self;
        let neg_one = crate::field::f_neg_one();
        proof {
            vstd::arithmetic::div_mod::lemma_small_mod(
                (crate::field::FIELD_ORDER - 1) as nat,
                crate::field::FIELD_ORDER as nat,
            );
        }
        let rr = self.double_arithmetic_extension(1, neg_one, &one, a0, b0, &one, a1, b1);
        proof {
            lemma_extends_trans(*old(self), snap, *self);
            assert forall|m: Map<Target, int>| #[trigger] satisfies(*self, m) implies ext_vals(
                m,
                rr.0,
            ) == crate::extension::ext_sub_spec(ext_vals(m, *a0), ext_vals(m, *b0)) && ext_vals(
                m,
                rr.1,
            ) == crate::extension::ext_sub_spec(ext_vals(m, *a1), ext_vals(m, *b1)) by {
                lemma_satisfies_extends(snap, *self, m);
                lemma_one_ext_vals(snap, m, one);
                lemma_ext_vals_in_field(m, *a0);
                lemma_ext_vals_in_field(m, *b0);
                lemma_ext_vals_in_field(m, *a1);
                lemma_ext_vals_in_field(m, *b1);
                lemma_madd_unit_sub(
                    self.params.w as int, ext_vals(m, *a0), ext_vals(m, *b0));
                lemma_madd_unit_sub(
                    self.params.w as int, ext_vals(m, *a1), ext_vals(m, *b1));
            }
        }
        rr
    }

    /// In-circuit scaled product: `const_0 * (a * b)`.  Deliberately
    /// always lays a fresh gate row, bypassing the elimination table,
    /// so every multiplication's cost in gate rows is predictable.
    pub fn mul_extension_with_const(
        &mut self,
        const_0: u64,
        multiplicand_0: &ExtensionTarget,
        multiplicand_1: &ExtensionTarget,
    ) -> (r: ExtensionTarget)
        requires
            old(self).wf(),
            in_field(const_0),
            multiplicand_0.wf(old(self).spec_d()),
            multiplicand_1.wf(old(self).spec_d()),
            old(self).num_virtual + old(self).params.d <= usize::MAX,
        ensures
            final(self).wf(),
            extends(*old(self), *final(self)),
            final(self).gates@.len() == old(self).gates@.len() + 1,
            final(self).generators@ == old(self).generators@,
            final(self).num_virtual <= old(self).num_virtual + old(self).params.d,
            r.wf(final(self).spec_d()),
            forall|m: Map<Target, int>|
                #[trigger] satisfies(*final(self), m) ==> ext_vals(m, r) == ext_scale_spec(
                    const_0 as int,
                    ext_mul_spec(
                        final(self).params.w as int,
                        ext_vals(m, *multiplicand_0),
                        ext_vals(m, *multiplicand_1),
                    ),
                ),
    {
        let zero = self.zero_extension();
        let ghost snap = *self;
        let rr = self.double_arithmetic_extension(
            const_0,
            0,
            multiplicand_0,
            multiplicand_1,
            &zero,
            &zero,
            &zero,
            &zero,
        );
        proof {
            lemma_extends_trans(*old(self), snap, *self);
            assert forall|m: Map<Target, int>| #[trigger] satisfies(*self, m) implies ext_vals(
                m,
                rr.0,
            ) == ext_scale_spec(
                const_0 as int,
                ext_mul_spec(
                    self.params.w as int,
                    ext_vals(m, *multiplicand_0),
                    ext_vals(m, *multiplicand_1),
                ),
            ) by {
                lemma_madd_scaled_mul(
                    self.params.w as int,
                    const_0 as int,
                    ext_vals(m, *multiplicand_0),
                    ext_vals(m, *multiplicand_1),
                    ext_vals(m, zero),
                );
            }
        }
        rr.0
    }

    /// In-circuit multiplication: `a * b`.
    pub fn mul_extension(
        &mut self,
        multiplicand_0: &ExtensionTarget,
        multiplicand_1: &ExtensionTarget,
    ) -> (r: ExtensionTarget)
        requires
            old(self).wf(),
            multiplicand_0.wf(old(self).spec_d()),
            multiplicand_1.wf(old(self).spec_d()),
            old(self).num_virtual + old(self).params.d <= usize::MAX,
        ensures
            final(self).wf(),
            extends(*old(self), *final(self)),
            final(self).gates@.len() == old(self).gates@.len() + 1,
            final(self).generators@ == old(self).generators@,
            final(self).num_virtual <= old(self).num_virtual + old(self).params.d,
            r.wf(final(self).spec_d()),
            forall|m: Map<Target, int>|
                #[trigger] satisfies(*final(self), m) ==> ext_vals(m, r) == ext_mul_spec(
                    final(self).params.w as int,
                    ext_vals(m, *multiplicand_0),
                    ext_vals(m, *multiplicand_1),
                ),
    {
        let r = self.mul_extension_with_const(1, multiplicand_0, multiplicand_1);
        proof {
            assert forall|m: Map<Target, int>| #[trigger] satisfies(*self, m) implies ext_vals(
                m,
                r,
            ) == ext_mul_spec(
                self.params.w as int,
                ext_vals(m, *multiplicand_0),
                ext_vals(m, *multiplicand_1),
            ) by {
                let prod = ext_mul_spec(
                    self.params.w as int,
                    ext_vals(m, *multiplicand_0),
                    ext_vals(m, *multiplicand_1),
                );
                crate::extension::lemma_ext_mul_in_field(
                    self.params.w as int,
                    ext_vals(m, *multiplicand_0),
                    ext_vals(m, *multiplicand_1),
                );
                lemma_ext_scale_by_one(prod);
            }
        }
        r
    }

    /// Two independent products through one gate row:
    /// returns `(a0 * b0, a1 * b1)`.
    pub fn mul_two_extension(
        &mut self,
        a0: &ExtensionTarget,
        b0: &ExtensionTarget,
        a1: &ExtensionTarget,
        b1: &ExtensionTarget,
    ) -> (r: (ExtensionTarget, ExtensionTarget))
        requires
            old(self).wf(),
            a0.wf(old(self).spec_d()),
            b0.wf(old(self).spec_d()),
            a1.wf(old(self).spec_d()),
            b1.wf(old(self).spec_d()),
            old(self).num_virtual + old(self).params.d <= usize::MAX,
        ensures
            final(self).wf(),
            extends(*old(self), *final(self)),
            final(self).gates@.len() == old(self).gates@.len() + 1,
            final(self).generators@ == old(self).generators@,
            final(self).num_virtual <= old(self).num_virtual + old(self).params.d,
            r.0.wf(final(self).spec_d()),
            r.1.wf(final(self).spec_d()),
            forall|m: Map<Target, int>|
                #[trigger] satisfies(*final(self), m) ==> ext_vals(m, r.0) == ext_mul_spec(
                    final(self).params.w as int,
                    ext_vals(m, *a0),
                    ext_vals(m, *b0),
                ) && ext_vals(m, r.1) == ext_mul_spec(
                    final(self).params.w as int,
                    ext_vals(m, *a1),
                    ext_vals(m, *b1),
                ),
    {
        let zero = self.zero_extension();
        let ghost snap = *self;
        let rr = self.double_arithmetic_extension(1, 0, a0, b0, &zero, a1, b1, &zero);
        proof {
            lemma_extends_trans(*old(self), snap, *self);
            assert forall|m: Map<Target, int>| #[trigger] satisfies(*self, m) implies ext_vals(
                m,
                rr.0,
            ) == ext_mul_spec(self.params.w as int, ext_vals(m, *a0), ext_vals(m, *b0))
                && ext_vals(m, rr.1) == ext_mul_spec(
                self.params.w as int,
                ext_vals(m, *a1),
                ext_vals(m, *b1),
            ) by {
                lemma_madd_mul(
                    self.params.w as int,
                    ext_vals(m, *a0),
                    ext_vals(m, *b0),
                    ext_vals(m, zero),
                );
                lemma_madd_mul(
                    self.params.w as int,
                    ext_vals(m, *a1),
                    ext_vals(m, *b1),
                    ext_vals(m, zero),
                );
            }
        }
        rr
    }

    /// Computes `x^2`.
    pub fn square_extension(&mut self, x: &ExtensionTarget) -> (r: ExtensionTarget)
        requires
            old(self).wf(),
            x.wf(old(self).spec_d()),
            old(self).num_virtual + old(self).params.d <= usize::MAX,
        ensures
            final(self).wf(),
            extends(*old(self), *final(self)),
            final(self).gates@.len() == old(self).gates@.len() + 1,
            final(self).generators@ == old(self).generators@,
            final(self).num_virtual <= old(self).num_virtual + old(self).params.d,
            r.wf(final(self).spec_d()),
            forall|m: Map<Target, int>|
                #[trigger] satisfies(*final(self), m) ==> ext_vals(m, r) == ext_mul_spec(
                    final(self).params.w as int,
                    ext_vals(m, *x),
                    ext_vals(m, *x),
                ),
    {
        self.mul_extension(x, x)
    }

    /// Multiply three extension targets with one gate row, bracketed
    /// as `c * (a * b)`.
    pub fn mul_three_extension(
        &mut self,
        a: &ExtensionTarget,
        b: &ExtensionTarget,
        c: &ExtensionTarget,
    ) -> (r: ExtensionTarget)
        requires
            old(self).wf(),
            a.wf(old(self).spec_d()),
            b.wf(old(self).spec_d()),
            c.wf(old(self).spec_d()),
            old(self).num_virtual + old(self).params.d <= usize::MAX,
        ensures
            final(self).wf(),
            extends(*old(self), *final(self)),
            final(self).gates@.len() == old(self).gates@.len() + 1,
            final(self).generators@ == old(self).generators@,
            final(self).num_virtual <= old(self).num_virtual + old(self).params.d,
            r.wf(final(self).spec_d()),
            forall|m: Map<Target, int>|
                #[trigger] satisfies(*final(self), m) ==> ext_vals(m, r) == ext_mul_spec(
                    final(self).params.w as int,
                    ext_vals(m, *c),
                    ext_mul_spec(
                        final(self).params.w as int,
                        ext_vals(m, *a),
                        ext_vals(m, *b),
                    ),
                ),
    {
        let zero = self.zero_extension();
        let ghost snap = *self;
        let gate = self.num_gates();
        let first_out = self.wire_range_target(gate, GROUP_FIRST_OUTPUT);
        let rr = self.double_arithmetic_extension(1, 0, a, b, &zero, c, &first_out, &zero);
        proof {
            lemma_extends_trans(*old(self), snap, *self);
            assert forall|m: Map<Target, int>| #[trigger] satisfies(*self, m) implies ext_vals(
                m,
                rr.1,
            ) == ext_mul_spec(
                self.params.w as int,
                ext_vals(m, *c),
                ext_mul_spec(self.params.w as int, ext_vals(m, *a), ext_vals(m, *b)),
            ) by {
                assert(first_out.limbs@ =~= rr.0.limbs@);
                assert(ext_vals(m, first_out) == ext_vals(m, rr.0));
                lemma_madd_mul(
                    self.params.w as int,
                    ext_vals(m, *a),
                    ext_vals(m, *b),
                    ext_vals(m, zero),
                );
                lemma_madd_mul(
                    self.params.w as int,
                    ext_vals(m, *c),
                    ext_vals(m, first_out),
                    ext_vals(m, zero),
                );
            }
        }
        rr.1
    }

    /// Computes `x^3`.
    pub fn cube_extension(&mut self, x: &ExtensionTarget) -> (r: ExtensionTarget)
        requires
            old(self).wf(),
            x.wf(old(self).spec_d()),
            old(self).num_virtual + old(self).params.d <= usize::MAX,
        ensures
            final(self).wf(),
            extends(*old(self), *final(self)),
            final(self).gates@.len() == old(self).gates@.len() + 1,
            final(self).generators@ == old(self).generators@,
            final(self).num_virtual <= old(self).num_virtual + old(self).params.d,
            r.wf(final(self).spec_d()),
            forall|m: Map<Target, int>|
                #[trigger] satisfies(*final(self), m) ==> ext_vals(m, r) == ext_mul_spec(
                    final(self).params.w as int,
                    ext_vals(m, *x),
                    ext_mul_spec(
                        final(self).params.w as int,
                        ext_vals(m, *x),
                        ext_vals(m, *x),
                    ),
                ),
    {
        self.mul_three_extension(x, x, x)
    }

    /// Add three extension targets with one gate row, bracketed as
    /// `(a + b) + c`.
    pub fn add_three_extension(
        &mut self,
        a: &ExtensionTarget,
        b: &ExtensionTarget,
        c: &ExtensionTarget,
    ) -> (r: ExtensionTarget)
        requires
            old(self).wf(),
            a.wf(old(self).spec_d()),
            b.wf(old(self).spec_d()),
            c.wf(old(self).spec_d()),
            old(self).num_virtual + old(self).params.d <= usize::MAX,
        ensures
            final(self).wf(),
            extends(*old(self), *final(self)),
            final(self).gates@.len() == old(self).gates@.len() + 1,
            final(self).generators@ == old(self).generators@,
            final(self).num_virtual <= old(self).num_virtual + old(self).params.d,
            r.wf(final(self).spec_d()),
            forall|m: Map<Target, int>|
                #[trigger] satisfies(*final(self), m) ==> ext_vals(m, r) == ext_add_spec(
                    ext_add_spec(ext_vals(m, *a), ext_vals(m, *b)),
                    ext_vals(m, *c),
                ),
    {
        let one = self.one_extension();
        let ghost snap = *self;
        let gate = self.num_gates();
        let first_out = self.wire_range_target(gate, GROUP_FIRST_OUTPUT);
        let rr = self.double_arithmetic_extension(1, 1, &one, a, b, &one, c, &first_out);
        proof {
            lemma_extends_trans(*old(self), snap, *self);
            assert forall|m: Map<Target, int>| #[trigger] satisfies(*self, m) implies ext_vals(
                m,
                rr.1,
            ) == ext_add_spec(
                ext_add_spec(ext_vals(m, *a), ext_vals(m, *b)),
                ext_vals(m, *c),
            ) by {
                lemma_satisfies_extends(snap, *self, m);
                lemma_one_ext_vals(snap, m, one);
                assert(first_out.limbs@ =~= rr.0.limbs@);
                assert(ext_vals(m, first_out) == ext_vals(m, rr.0));
                let av = ext_vals(m, *a);
                let bv = ext_vals(m, *b);
                let cv = ext_vals(m, *c);
                lemma_ext_vals_in_field(m, *a);
                lemma_ext_vals_in_field(m, *b);
                lemma_ext_vals_in_field(m, *c);
                lemma_madd_unit_add(self.params.w as int, av, bv);
                crate::extension::lemma_ext_add_in_field(av, bv);
                lemma_madd_unit_add(self.params.w as int, cv, ext_add_spec(av, bv));
                crate::extension::lemma_ext_add_comm(cv, ext_add_spec(av, bv));
            }
        }
        rr.1
    }
}

/// A single base-field value spread into a degree-`d` coefficient
/// vector: the value at coefficient zero, zeros above.
pub open spec fn base_embed(x: int, d: int) -> Seq<int> {
    Seq::new(d as nat, |i: int| if i == 0 { x } else { 0int })
}

/// The result of an in-circuit division is the dividend times some
/// checked inverse of the divisor.
pub open spec fn div_result_ok(w: int, d: int, x: Seq<int>, y: Seq<int>, r: Seq<int>) -> bool {
    exists|iv: Seq<int>|
        #[trigger] ext_mul_spec(w, y, iv) == ext_one_spec(d) && r == ext_mul_spec(w, x, iv)
}

/// A fused operation with unit constants and a unit first multiplicand
/// is an addition.
proof fn lemma_madd_unit_add(w: int, a: Seq<int>, b: Seq<int>)
    requires
        a.len() == b.len(),
        a.len() >= 1,
        seq_in_field(a),
        seq_in_field(b),
    ensures
        ext_madd_spec(w, 1, ext_one_spec(a.len() as int), a, 1, b) == ext_add_spec(a, b),
{
    lemma_ext_mul_one_left(w, a);
    lemma_ext_scale_by_one(a);
    lemma_ext_scale_by_one(b);
}

/// A fused operation with a negated second constant is a subtraction.
proof fn lemma_madd_unit_sub(w: int, a: Seq<int>, b: Seq<int>)
    requires
        a.len() == b.len(),
        a.len() >= 1,
        seq_in_field(a),
        seq_in_field(b),
    ensures
        ext_madd_spec(w, 1, ext_one_spec(a.len() as int), a, fp() - 1, b)
            == crate::extension::ext_sub_spec(a, b),
{
    lemma_ext_mul_one_left(w, a);
    lemma_ext_scale_by_one(a);
    crate::extension::lemma_ext_add_scale_neg_one(a, b);
}

/// A fused operation with a vanishing second term is a scaled product.
proof fn lemma_madd_scaled_mul(w: int, c0: int, a: Seq<int>, b: Seq<int>, s: Seq<int>)
    requires
        a.len() == b.len(),
        a.len() == s.len(),
        a.len() >= 1,
    ensures
        ext_madd_spec(w, c0, a, b, 0, s) == ext_scale_spec(c0, ext_mul_spec(w, a, b)),
{
    lemma_ext_scale_by_zero(s);
    crate::extension::lemma_ext_scale_in_field(c0, ext_mul_spec(w, a, b));
    lemma_ext_add_zero_right(ext_scale_spec(c0, ext_mul_spec(w, a, b)));
}

/// A fused operation with unit scale and vanishing second term is a
/// plain product.
proof fn lemma_madd_mul(w: int, a: Seq<int>, b: Seq<int>, s: Seq<int>)
    requires
        a.len() == b.len(),
        a.len() == s.len(),
        a.len() >= 1,
    ensures
        ext_madd_spec(w, 1, a, b, 0, s) == ext_mul_spec(w, a, b),
{
    lemma_madd_scaled_mul(w, 1, a, b, s);
    crate::extension::lemma_ext_mul_in_field(w, a, b);
    lemma_ext_scale_by_one(ext_mul_spec(w, a, b));
}

/// A fused operation with unit constants is a multiply-add.
proof fn lemma_madd_mul_add(w: int, a: Seq<int>, b: Seq<int>, s: Seq<int>)
    requires
        a.len() == b.len(),
        a.len() == s.len(),
        a.len() >= 1,
        seq_in_field(s),
    ensures
        ext_madd_spec(w, 1, a, b, 1, s) == ext_add_spec(ext_mul_spec(w, a, b), s),
{
    crate::extension::lemma_ext_mul_in_field(w, a, b);
    lemma_ext_scale_by_one(ext_mul_spec(w, a, b));
    lemma_ext_scale_by_one(s);
}

/// A fused operation with a negated second constant is a
/// multiply-subtract.
proof fn lemma_madd_mul_sub(w: int, a: Seq<int>, b: Seq<int>, s: Seq<int>)
    requires
        a.len() == b.len(),
        a.len() == s.len(),
        a.len() >= 1,
        seq_in_field(s),
    ensures
        ext_madd_spec(w, 1, a, b, fp() - 1, s) == crate::extension::ext_sub_spec(
            ext_mul_spec(w, a, b),
            s,
        ),
{
    crate::extension::lemma_ext_mul_in_field(w, a, b);
    lemma_ext_scale_by_one(ext_mul_spec(w, a, b));
    crate::extension::lemma_ext_add_scale_neg_one(ext_mul_spec(w, a, b), s);
}

/// The values an assignment gives to a target are canonical field
/// representatives.
proof fn lemma_ext_vals_in_field(m: Map<Target, int>, t: ExtensionTarget)
    requires
        crate::builder::reduced(m),
    ensures
        seq_in_field(ext_vals(m, t)),
{
    assert forall|j: int| 0 <= j < ext_vals(m, t).len() implies 0 <= #[trigger] ext_vals(m, t)[j]
        < fp() by {
        assert(0 <= m[t.limbs@[j]] < fp());
    }
}

/// When both fused terms fold to constants under a vanishing first
/// term and a unit `const_1`, the materialized sum reuses exactly the
/// addend's canonical constant wires.
proof fn lemma_fold_returns_addend(
    pre: CircuitBuilder,
    bz: CircuitBuilder,
    bf: CircuitBuilder,
    addend: ExtensionTarget,
    zero: ExtensionTarget,
    res: ExtensionTarget,
    x: ExtensionElement,
    y: ExtensionElement,
    sum: ExtensionElement,
    const_1: u64,
)
    requires
        bz.wf(),
        bf.wf(),
        extends(bz, bf),
        addend.limbs@.len() == bz.params.d,
        zero.wf(bz.params.d as int),
        is_zero_ext(bz, zero),
        const_1 == 1,
        x.vals() == ext_zero_spec(bz.params.d as int),
        x.wf(),
        y.wf(),
        x.coeffs@.len() == bz.params.d,
        y.coeffs@.len() == bz.params.d,
        sum.vals() == crate::extension::ext_add_spec(x.vals(), y.vals()),
        sum.coeffs@.len() == bz.params.d,
        has_const_ext(bf, res, sum.coeffs@),
        res.limbs@.len() == bz.params.d,
        // Provenance of the second term under a unit constant.
        addend.limbs@ == zero.limbs@ || exists|vs: Seq<u64>|
            #[trigger] has_const_ext(bz, addend, vs),
        forall|vs: Seq<u64>|
            #[trigger] has_const_ext(bz, addend, vs) ==> y.vals() == ext_scale_spec(
                1,
                vals_of(vs),
            ),
        addend.limbs@ == zero.limbs@ ==> y.vals() == ext_zero_spec(bz.params.d as int),
    ensures
        res.limbs@ == addend.limbs@,
{
    let d = bz.params.d as int;
    // Obtain the constant vector recorded for the addend.
    let vs: Seq<u64> = if addend.limbs@ == zero.limbs@ {
        Seq::new(d as nat, |j: int| 0u64)
    } else {
        choose|vs: Seq<u64>| #[trigger] has_const_ext(bz, addend, vs)
    };
    if addend.limbs@ == zero.limbs@ {
        assert forall|j: int| 0 <= j < d implies has_const(bz, addend.limbs@[j], vs[j]) by {
            assert(has_const(bz, zero.limbs@[j], 0u64));
        }
        assert(has_const_ext(bz, addend, vs));
    }
    assert(has_const_ext(bz, addend, vs));
    assert(y.vals() == ext_scale_spec(1, vals_of(vs)));
    assert forall|j: int| 0 <= j < d implies 0 <= #[trigger] vals_of(vs)[j] < fp() by {
        lemma_has_const_in_field(bz, addend.limbs@[j], vs[j]);
    }
    lemma_ext_scale_by_one(vals_of(vs));
    lemma_ext_add_zero_left(vals_of(vs));
    assert(sum.vals() == vals_of(vs));
    assert forall|j: int| 0 <= j < d implies sum.coeffs@[j] == vs[j] by {
        assert(vals_of(sum.coeffs@)[j] == vals_of(vs)[j]);
    }
    assert(sum.coeffs@ =~= vs);
    assert forall|j: int| 0 <= j < d implies res.limbs@[j] == addend.limbs@[j] by {
        assert(has_const(bf, res.limbs@[j], sum.coeffs@[j]));
        lemma_has_const_extends(bz, bf, addend.limbs@[j], vs[j]);
        lemma_const_unique_by_value(bf, res.limbs@[j], addend.limbs@[j], vs[j]);
    }
    assert(res.limbs@ =~= addend.limbs@);
}

impl CircuitBuilder {
    /// Fused multiply-add: `a * b + c`.
    pub fn mul_add_extension(
        &mut self,
        a: &ExtensionTarget,
        b: &ExtensionTarget,
        c: &ExtensionTarget,
    ) -> (r: ExtensionTarget)
        requires
            old(self).wf(),
            a.wf(old(self).spec_d()),
            b.wf(old(self).spec_d()),
            c.wf(old(self).spec_d()),
            old(self).num_virtual + 3 * old(self).params.d <= usize::MAX,
        ensures
            final(self).wf(),
            extends(*old(self), *final(self)),
            final(self).gates@.len() <= old(self).gates@.len() + 1,
            final(self).generators@ == old(self).generators@,
            final(self).num_virtual <= old(self).num_virtual + 3 * old(self).params.d,
            r.wf(final(self).spec_d()),
            forall|m: Map<Target, int>|
                #[trigger] satisfies(*final(self), m) ==> ext_vals(m, r) == ext_add_spec(
                    ext_mul_spec(final(self).params.w as int, ext_vals(m, *a), ext_vals(m, *b)),
                    ext_vals(m, *c),
                ),
    {
        let r = self.arithmetic_extension(1, 1, a, b, c);
        proof {
            assert forall|m: Map<Target, int>| #[trigger] satisfies(*self, m) implies ext_vals(
                m,
                r,
            ) == ext_add_spec(
                ext_mul_spec(self.params.w as int, ext_vals(m, *a), ext_vals(m, *b)),
                ext_vals(m, *c),
            ) by {
                lemma_ext_vals_in_field(m, *c);
                lemma_madd_mul_add(
                    self.params.w as int,
                    ext_vals(m, *a),
                    ext_vals(m, *b),
                    ext_vals(m, *c),
                );
            }
        }
        r
    }

    /// Fused multiply-subtract: `a * b - c`.
    pub fn mul_sub_extension(
        &mut self,
        a: &ExtensionTarget,
        b: &ExtensionTarget,
        c: &ExtensionTarget,
    ) -> (r: ExtensionTarget)
        requires
            old(self).wf(),
            a.wf(old(self).spec_d()),
            b.wf(old(self).spec_d()),
            c.wf(old(self).spec_d()),
            old(self).num_virtual + 3 * old(self).params.d <= usize::MAX,
        ensures
            final(self).wf(),
            extends(*old(self), *final(self)),
            final(self).gates@.len() <= old(self).gates@.len() + 1,
            final(self).generators@ == old(self).generators@,
            final(self).num_virtual <= old(self).num_virtual + 3 * old(self).params.d,
            r.wf(final(self).spec_d()),
            forall|m: Map<Target, int>|
                #[trigger] satisfies(*final(self), m) ==> ext_vals(m, r)
                    == crate::extension::ext_sub_spec(
                    ext_mul_spec(final(self).params.w as int, ext_vals(m, *a), ext_vals(m, *b)),
                    ext_vals(m, *c),
                ),
    {
        let neg_one = crate::field::f_neg_one();
        proof {
            vstd::arithmetic::div_mod::lemma_small_mod(
                (crate::field::FIELD_ORDER - 1) as nat,
                crate::field::FIELD_ORDER as nat,
            );
        }
        let r = self.arithmetic_extension(1, neg_one, a, b, c);
        proof {
            assert forall|m: Map<Target, int>| #[trigger] satisfies(*self, m) implies ext_vals(
                m,
                r,
            ) == crate::extension::ext_sub_spec(
                ext_mul_spec(self.params.w as int, ext_vals(m, *a), ext_vals(m, *b)),
                ext_vals(m, *c),
            ) by {
                lemma_ext_vals_in_field(m, *c);
                lemma_madd_mul_sub(
                    self.params.w as int,
                    ext_vals(m, *a),
                    ext_vals(m, *b),
                    ext_vals(m, *c),
                );
            }
        }
        r
    }

    /// Fused multiply-add with a base-field first factor:
    /// `a * b + c` where `a` is a single wire.
    pub fn scalar_mul_add_extension(
        &mut self,
        a: Target,
        b: &ExtensionTarget,
        c: &ExtensionTarget,
    ) -> (r: ExtensionTarget)
        requires
            old(self).wf(),
            b.wf(old(self).spec_d()),
            c.wf(old(self).spec_d()),
            old(self).num_virtual + 4 * old(self).params.d <= usize::MAX,
        ensures
            final(self).wf(),
            extends(*old(self), *final(self)),
            final(self).gates@.len() <= old(self).gates@.len() + 1,
            final(self).generators@ == old(self).generators@,
            final(self).num_virtual <= old(self).num_virtual + 4 * old(self).params.d,
            r.wf(final(self).spec_d()),
            forall|m: Map<Target, int>|
                #[trigger] satisfies(*final(self), m) ==> ext_vals(m, r) == ext_add_spec(
                    ext_mul_spec(
                        final(self).params.w as int,
                        base_embed(m[a], final(self).spec_d()),
                        ext_vals(m, *b),
                    ),
                    ext_vals(m, *c),
                ),
    {
        let a_ext = self.convert_to_ext(a);
        let ghost snap = *self;
        let r = self.mul_add_extension(&a_ext, b, c);
        proof {
            lemma_extends_trans(*old(self), snap, *self);
            assert forall|m: Map<Target, int>| #[trigger] satisfies(*self, m) implies ext_vals(
                m,
                r,
            ) == ext_add_spec(
                ext_mul_spec(
                    self.params.w as int,
                    base_embed(m[a], self.spec_d()),
                    ext_vals(m, *b),
                ),
                ext_vals(m, *c),
            ) by {
                lemma_satisfies_extends(snap, *self, m);
                lemma_convert_vals(snap, m, a, a_ext);
            }
        }
        r
    }

    /// Fused multiply-subtract with a base-field first factor:
    /// `a * b - c` where `a` is a single wire.
    pub fn scalar_mul_sub_extension(
        &mut self,
        a: Target,
        b: &ExtensionTarget,
        c: &ExtensionTarget,
    ) -> (r: ExtensionTarget)
        requires
            old(self).wf(),
            b.wf(old(self).spec_d()),
            c.wf(old(self).spec_d()),
            old(self).num_virtual + 4 * old(self).params.d <= usize::MAX,
        ensures
            final(self).wf(),
            extends(*old(self), *final(self)),
            final(self).gates@.len() <= old(self).gates@.len() + 1,
            final(self).generators@ == old(self).generators@,
            final(self).num_virtual <= old(self).num_virtual + 4 * old(self).params.d,
            r.wf(final(self).spec_d()),
            forall|m: Map<Target, int>|
                #[trigger] satisfies(*final(self), m) ==> ext_vals(m, r)
                    == crate::extension::ext_sub_spec(
                    ext_mul_spec(
                        final(self).params.w as int,
                        base_embed(m[a], final(self).spec_d()),
                        ext_vals(m, *b),
                    ),
                    ext_vals(m, *c),
                ),
    {
        let a_ext = self.convert_to_ext(a);
        let ghost snap = *self;
        let r = self.mul_sub_extension(&a_ext, b, c);
        proof {
            lemma_extends_trans(*old(self), snap, *self);
            assert forall|m: Map<Target, int>| #[trigger] satisfies(*self, m) implies ext_vals(
                m,
                r,
            ) == crate::extension::ext_sub_spec(
                ext_mul_spec(
                    self.params.w as int,
                    base_embed(m[a], self.spec_d()),
                    ext_vals(m, *b),
                ),
                ext_vals(m, *c),
            ) by {
                lemma_satisfies_extends(snap, *self, m);
                lemma_convert_vals(snap, m, a, a_ext);
            }
        }
        r
    }

    /// Returns `a * b`, where `b` is in the extension field and `a` is
    /// a single base-field wire.
    pub fn scalar_mul_ext(&mut self, a: Target, b: &ExtensionTarget) -> (r: ExtensionTarget)
        requires
            old(self).wf(),
            b.wf(old(self).spec_d()),
            old(self).num_virtual + 2 * old(self).params.d <= usize::MAX,
        ensures
            final(self).wf(),
            extends(*old(self), *final(self)),
            final(self).gates@.len() == old(self).gates@.len() + 1,
            final(self).generators@ == old(self).generators@,
            final(self).num_virtual <= old(self).num_virtual + 2 * old(self).params.d,
            r.wf(final(self).spec_d()),
            forall|m: Map<Target, int>|
                #[trigger] satisfies(*final(self), m) ==> ext_vals(m, r) == ext_mul_spec(
                    final(self).params.w as int,
                    base_embed(m[a], final(self).spec_d()),
                    ext_vals(m, *b),
                ),
    {
        let a_ext = self.convert_to_ext(a);
        let ghost snap = *self;
        let r = self.mul_extension(&a_ext, b);
        proof {
            lemma_extends_trans(*old(self), snap, *self);
            assert forall|m: Map<Target, int>| #[trigger] satisfies(*self, m) implies ext_vals(
                m,
                r,
            ) == ext_mul_spec(
                self.params.w as int,
                base_embed(m[a], self.spec_d()),
                ext_vals(m, *b),
            ) by {
                lemma_satisfies_extends(snap, *self, m);
                lemma_convert_vals(snap, m, a, a_ext);
            }
        }
        r
    }

    /// Computes `q = x / y` by witnessing `q` out-of-band and
    /// enforcing `q * y = x` in-circuit.  This can be unsafe in some
    /// cases, as it allows `0 / 0` to be any value.
    pub fn div_unsafe_extension(
        &mut self,
        x: &ExtensionTarget,
        y: &ExtensionTarget,
    ) -> (r: ExtensionTarget)
        requires
            old(self).wf(),
            x.wf(old(self).spec_d()),
            y.wf(old(self).spec_d()),
            old(self).num_virtual + 2 * old(self).params.d <= usize::MAX,
        ensures
            final(self).wf(),
            extends(*old(self), *final(self)),
            final(self).gates@.len() == old(self).gates@.len() + 1,
            final(self).generators@.len() == old(self).generators@.len() + 1,
            final(self).num_virtual <= old(self).num_virtual + 2 * old(self).params.d,
            r.wf(final(self).spec_d()),
            final(self).generators@.last().numerator.limbs@ == x.limbs@,
            final(self).generators@.last().denominator.limbs@ == y.limbs@,
            final(self).generators@.last().quotient.limbs@ == r.limbs@,
            forall|m: Map<Target, int>|
                #[trigger] satisfies(*final(self), m) ==> ext_mul_spec(
                    final(self).params.w as int,
                    ext_vals(m, r),
                    ext_vals(m, *y),
                ) == ext_vals(m, *x),
    {
        let quotient = self.add_virtual_extension_target();
        self.add_generator(
            QuotientGenerator {
                numerator: x.clone(),
                denominator: y.clone(),
                quotient: quotient.clone(),
            },
        );
        let ghost snap = *self;

        // Enforce that q y = x.
        let q_y = self.mul_extension(&quotient, y);
        let ghost bm = *self;
        self.assert_equal_extension(&q_y, x);

        proof {
            lemma_extends_trans(*old(self), snap, bm);
            lemma_extends_trans(*old(self), bm, *self);
            assert forall|m: Map<Target, int>| #[trigger] satisfies(*self, m) implies
                ext_mul_spec(
                self.params.w as int,
                ext_vals(m, quotient),
                ext_vals(m, *y),
            ) == ext_vals(m, *x) by {
                lemma_satisfies_extends(bm, *self, m);
            }
        }
        quotient
    }

    /// Computes `1 / x`: the purported inverse is witnessed out-of-band
    /// and `x * inv = 1` is enforced in-circuit, so a zero `x` leaves
    /// the instance unsatisfiable.
    pub fn inverse_extension(&mut self, x: &ExtensionTarget) -> (r: ExtensionTarget)
        requires
            old(self).wf(),
            x.wf(old(self).spec_d()),
            old(self).num_virtual + 3 * old(self).params.d <= usize::MAX,
        ensures
            final(self).wf(),
            extends(*old(self), *final(self)),
            final(self).gates@.len() == old(self).gates@.len() + 1,
            final(self).generators@.len() == old(self).generators@.len() + 1,
            final(self).num_virtual <= old(self).num_virtual + 3 * old(self).params.d,
            r.wf(final(self).spec_d()),
            forall|m: Map<Target, int>|
                #[trigger] satisfies(*final(self), m) ==> ext_mul_spec(
                    final(self).params.w as int,
                    ext_vals(m, *x),
                    ext_vals(m, r),
                ) == ext_one_spec(final(self).spec_d()),
    {
        let inv = self.add_virtual_extension_target();
        let one = self.one_extension();
        self.add_generator(
            QuotientGenerator {
                numerator: one.clone(),
                denominator: x.clone(),
                quotient: inv.clone(),
            },
        );
        let ghost snap = *self;

        // Enforce that x times its purported inverse equals 1.
        let x_inv = self.mul_extension(x, &inv);
        let ghost bm = *self;
        self.assert_equal_extension(&x_inv, &one);

        proof {
            lemma_extends_trans(*old(self), snap, bm);
            lemma_extends_trans(*old(self), bm, *self);
            assert forall|m: Map<Target, int>| #[trigger] satisfies(*self, m) implies
                ext_mul_spec(
                self.params.w as int,
                ext_vals(m, *x),
                ext_vals(m, inv),
            ) == ext_one_spec(self.spec_d()) by {
                lemma_satisfies_extends(bm, *self, m);
                lemma_satisfies_extends(snap, bm, m);
                lemma_one_ext_vals(snap, m, one);
            }
        }
        inv
    }

    /// Computes `x / y` as `x` times the witnessed inverse of `y`.
    /// Any satisfying assignment certifies a genuine inverse, so a
    /// zero `y` leaves the instance unsatisfiable.
    pub fn div_extension(
        &mut self,
        x: &ExtensionTarget,
        y: &ExtensionTarget,
    ) -> (r: ExtensionTarget)
        requires
            old(self).wf(),
            x.wf(old(self).spec_d()),
            y.wf(old(self).spec_d()),
            old(self).num_virtual + 4 * old(self).params.d <= usize::MAX,
        ensures
            final(self).wf(),
            extends(*old(self), *final(self)),
            final(self).gates@.len() == old(self).gates@.len() + 2,
            final(self).generators@.len() == old(self).generators@.len() + 1,
            final(self).num_virtual <= old(self).num_virtual + 4 * old(self).params.d,
            r.wf(final(self).spec_d()),
            forall|m: Map<Target, int>|
                #[trigger] satisfies(*final(self), m) ==> div_result_ok(
                    final(self).params.w as int,
                    final(self).spec_d(),
                    ext_vals(m, *x),
                    ext_vals(m, *y),
                    ext_vals(m, r),
                ) && ext_vals(m, *y) != ext_zero_spec(final(self).spec_d()),
    {
        let y_inv = self.inverse_extension(y);
        let ghost snap = *self;
        let r = self.mul_extension(x, &y_inv);
        proof {
            lemma_extends_trans(*old(self), snap, *self);
            let w = self.params.w as int;
            let d = self.spec_d();
            assert forall|m: Map<Target, int>| #[trigger] satisfies(*self, m) implies
                div_result_ok(
                w,
                d,
                ext_vals(m, *x),
                ext_vals(m, *y),
                ext_vals(m, r),
            ) && ext_vals(m, *y) != ext_zero_spec(d) by {
                lemma_satisfies_extends(snap, *self, m);
                let iv = ext_vals(m, y_inv);
                assert(ext_mul_spec(w, ext_vals(m, *y), iv) == ext_one_spec(d));
                assert(ext_vals(m, r) == ext_mul_spec(w, ext_vals(m, *x), iv));
                if ext_vals(m, *y) == ext_zero_spec(d) {
                    lemma_ext_mul_zero_left(w, iv);
                    assert(ext_one_spec(d)[0] == 1 && ext_zero_spec(d)[0] == 0);
                }
            }
        }
        r
    }
}

/// `k`-fold in-circuit squaring of `x`.
pub open spec fn ext_square_iter(w: int, x: Seq<int>, k: nat) -> Seq<int>
    decreases k,
{
    if k == 0 {
        x
    } else {
        let y = ext_square_iter(w, x, (k - 1) as nat);
        ext_mul_spec(w, y, y)
    }
}

/// Square-and-multiply over the bits of `e`, least significant first,
/// accumulating into `acc`: the exact product tree the binary
/// exponentiation gadget builds.
pub open spec fn ext_exp_bits(w: int, x: Seq<int>, e: nat, acc: Seq<int>) -> Seq<int>
    decreases e,
{
    if e == 0 {
        acc
    } else {
        let acc2 = if e % 2 == 1 {
            ext_mul_spec(w, acc, x)
        } else {
            acc
        };
        ext_exp_bits(w, ext_mul_spec(w, x, x), e / 2, acc2)
    }
}

impl CircuitBuilder {
    /// Exponentiate `base` to the power of `2^power_log` by repeated
    /// squaring.
    pub fn exp_power_of_2_extension(
        &mut self,
        base: &ExtensionTarget,
        power_log: usize,
    ) -> (r: ExtensionTarget)
        requires
            old(self).wf(),
            base.wf(old(self).spec_d()),
            old(self).num_virtual + (power_log + 1) * old(self).params.d <= usize::MAX,
        ensures
            final(self).wf(),
            extends(*old(self), *final(self)),
            final(self).gates@.len() == old(self).gates@.len() + power_log,
            final(self).generators@ == old(self).generators@,
            r.wf(final(self).spec_d()),
            forall|m: Map<Target, int>|
                #[trigger] satisfies(*final(self), m) ==> ext_vals(m, r) == ext_square_iter(
                    final(self).params.w as int,
                    ext_vals(m, *base),
                    power_log as nat,
                ),
    {
        let ghost w = self.params.w as int;
        let ghost d_int = self.params.d as int;
        let mut current = base.clone();
        let mut i: usize = 0;
        while i < power_log
            invariant
                i <= power_log,
                self.wf(),
                self.params == old(self).params,
                w == self.params.w as int,
                d_int == self.params.d as int,
                extends(*old(self), *self),
                self.gates@.len() == old(self).gates@.len() + i,
                self.generators@ == old(self).generators@,
                self.num_virtual + (power_log + 1 - i) * d_int <= usize::MAX,
                current.wf(d_int),
                base.wf(d_int),
                forall|m: Map<Target, int>|
                    #[trigger] satisfies(*self, m) ==> ext_vals(m, current) == ext_square_iter(
                        w,
                        ext_vals(m, *base),
                        i as nat,
                    ),
            decreases power_log - i,
        {
            let ghost snap = *self;
            let ghost old_cur = current;
            proof {
                assert((power_log + 1 - i) * d_int >= 2 * d_int) by (nonlinear_arith)
                    requires power_log + 1 - i >= 2, d_int >= 1;
                assert((power_log + 1 - i) * d_int == d_int + (power_log + 1 - (i + 1)) * d_int)
                    by (nonlinear_arith);
            }
            current = self.square_extension(&current);
            proof {
                lemma_extends_trans(*old(self), snap, *self);
                assert forall|m: Map<Target, int>| #[trigger] satisfies(*self, m) implies
                    ext_vals(m, current) == ext_square_iter(
                    w,
                    ext_vals(m, *base),
                    (i + 1) as nat,
                ) by {
                    lemma_satisfies_extends(snap, *self, m);
                }
            }
            i = i + 1;
        }
        current
    }

    /// Exponentiate `base` to a known `exponent` by binary
    /// square-and-multiply, with fast paths for small exponents.
    pub fn exp_u64_extension(&mut self, base: &ExtensionTarget, exponent: u64) -> (r:
        ExtensionTarget)
        requires
            old(self).wf(),
            base.wf(old(self).spec_d()),
            old(self).num_virtual + 132 * old(self).params.d <= usize::MAX,
        ensures
            final(self).wf(),
            extends(*old(self), *final(self)),
            final(self).generators@ == old(self).generators@,
            r.wf(final(self).spec_d()),
            forall|m: Map<Target, int>|
                #[trigger] satisfies(*final(self), m) ==> ext_vals(m, r) == ext_exp_bits(
                    final(self).params.w as int,
                    ext_vals(m, *base),
                    exponent as nat,
                    ext_one_spec(final(self).spec_d()),
                ),
    {
        let ghost w = self.params.w as int;
        let ghost d_int = self.params.d as int;
        if exponent == 0 {
            let r = self.one_extension();
            proof {
                assert forall|m: Map<Target, int>| #[trigger] satisfies(*self, m) implies
                    ext_vals(m, r) == ext_exp_bits(
                    w,
                    ext_vals(m, *base),
                    0nat,
                    ext_one_spec(d_int),
                ) by {
                    lemma_one_ext_vals(*self, m, r);
                }
            }
            return r;
        }
        if exponent == 1 {
            let r = base.clone();
            proof {
                assert forall|m: Map<Target, int>| #[trigger] satisfies(*self, m) implies
                    ext_vals(m, r) == ext_exp_bits(
                    w,
                    ext_vals(m, *base),
                    1nat,
                    ext_one_spec(d_int),
                ) by {
                    let x = ext_vals(m, *base);
                    let one = ext_one_spec(d_int);
                    assert(ext_exp_bits(w, x, 1nat, one) == ext_exp_bits(
                        w,
                        ext_mul_spec(w, x, x),
                        0nat,
                        ext_mul_spec(w, one, x),
                    ));
                    lemma_ext_vals_in_field(m, *base);
                    lemma_ext_mul_one_left(w, x);
                    assert(ext_vals(m, r) =~= x);
                }
            }
            return r;
        }
        if exponent == 2 {
            let r = self.square_extension(base);
            proof {
                assert forall|m: Map<Target, int>| #[trigger] satisfies(*self, m) implies
                    ext_vals(m, r) == ext_exp_bits(
                    w,
                    ext_vals(m, *base),
                    2nat,
                    ext_one_spec(d_int),
                ) by {
                    let x = ext_vals(m, *base);
                    let xx = ext_mul_spec(w, x, x);
                    let one = ext_one_spec(d_int);
                    assert(ext_exp_bits(w, x, 2nat, one) == ext_exp_bits(w, xx, 1nat, one));
                    assert(ext_exp_bits(w, xx, 1nat, one) == ext_exp_bits(
                        w, ext_mul_spec(w, xx, xx), 0nat, ext_mul_spec(w, one, xx)));
                    crate::extension::lemma_ext_mul_in_field(w, x, x);
                    lemma_ext_mul_one_left(w, xx);
                }
            }
            return r;
        }
        if exponent == 3 {
            let r = self.mul_three_extension(base, base, base);
            proof {
                assert forall|m: Map<Target, int>| #[trigger] satisfies(*self, m) implies
                    ext_vals(m, r) == ext_exp_bits(
                    w,
                    ext_vals(m, *base),
                    3nat,
                    ext_one_spec(d_int),
                ) by {
                    let x = ext_vals(m, *base);
                    let xx = ext_mul_spec(w, x, x);
                    let one = ext_one_spec(d_int);
                    lemma_ext_vals_in_field(m, *base);
                    assert(ext_exp_bits(w, x, 3nat, one) == ext_exp_bits(
                        w, xx, 1nat, ext_mul_spec(w, one, x)));
                    assert(ext_exp_bits(w, xx, 1nat, ext_mul_spec(w, one, x)) == ext_exp_bits(
                        w,
                        ext_mul_spec(w, xx, xx),
                        0nat,
                        ext_mul_spec(w, ext_mul_spec(w, one, x), xx),
                    ));
                    lemma_ext_mul_one_left(w, x);
                }
            }
            return r;
        }

        let one_start = self.one_extension();
        let ghost b_one = *self;
        let mut current = base.clone();
        let mut product = one_start;
        let mut exp: u64 = exponent;
        let ghost mut fuel: int = 64;
        proof {
            vstd::arithmetic::power2::lemma2_to64();
            assert(exp < vstd::arithmetic::power2::pow2(64));
            assert forall|m: Map<Target, int>| #[trigger] satisfies(*self, m) implies
                ext_exp_bits(w, ext_vals(m, current), exp as nat, ext_vals(m, product))
                    == ext_exp_bits(
                    w,
                    ext_vals(m, *base),
                    exponent as nat,
                    ext_one_spec(d_int),
                ) by {
                lemma_one_ext_vals(*self, m, product);
                assert(ext_vals(m, current) =~= ext_vals(m, *base));
            }
        }
        while exp > 0
            invariant
                self.wf(),
                self.params == old(self).params,
                w == self.params.w as int,
                d_int == self.params.d as int,
                extends(*old(self), *self),
                self.generators@ == old(self).generators@,
                0 <= fuel <= 64,
                (exp as int) < vstd::arithmetic::power2::pow2(fuel as nat),
                self.num_virtual + (2 * fuel + 2) * d_int <= usize::MAX,
                current.wf(d_int),
                product.wf(d_int),
                base.wf(d_int),
                forall|m: Map<Target, int>|
                    #[trigger] satisfies(*self, m) ==> ext_exp_bits(
                        w,
                        ext_vals(m, current),
                        exp as nat,
                        ext_vals(m, product),
                    ) == ext_exp_bits(
                        w,
                        ext_vals(m, *base),
                        exponent as nat,
                        ext_one_spec(d_int),
                    ),
            decreases exp,
        {
            proof {
                if fuel <= 0 {
                    assert(vstd::arithmetic::power2::pow2(0) == 1) by {
                        vstd::arithmetic::power2::lemma2_to64();
                    }
                }
                assert(fuel >= 1);
                assert((2 * fuel + 2) * d_int >= 4 * d_int) by (nonlinear_arith)
                    requires fuel >= 1, d_int >= 1;
                assert((2 * fuel + 2) * d_int == 2 * d_int + (2 * (fuel - 1) + 2) * d_int)
                    by (nonlinear_arith);
            }
            let ghost exp0 = exp as nat;
            let ghost snap0 = *self;
            if exp % 2 == 1 {
                product = self.mul_extension(&product, &current);
            }
            let ghost snap1 = *self;
            current = self.square_extension(&current);
            exp = exp / 2;
            proof {
                lemma_extends_trans(*old(self), snap0, snap1);
                lemma_extends_trans(*old(self), snap1, *self);
                // Halving the exponent spends one bit of fuel.
                vstd::arithmetic::power2::lemma_pow2_unfold(fuel as nat);
                fuel = fuel - 1;
                assert((exp as int) < vstd::arithmetic::power2::pow2(fuel as nat));
                assert forall|m: Map<Target, int>| #[trigger] satisfies(*self, m) implies
                    ext_exp_bits(w, ext_vals(m, current), exp as nat, ext_vals(m, product))
                        == ext_exp_bits(
                        w,
                        ext_vals(m, *base),
                        exponent as nat,
                        ext_one_spec(d_int),
                    ) by {
                    lemma_satisfies_extends(snap1, *self, m);
                    lemma_satisfies_extends(snap0, snap1, m);
                }
            }
        }
        proof {
            assert forall|m: Map<Target, int>| #[trigger] satisfies(*self, m) implies ext_vals(
                m,
                product,
            ) == ext_exp_bits(w, ext_vals(m, *base), exponent as nat, ext_one_spec(d_int)) by {
                assert(ext_exp_bits(w, ext_vals(m, current), 0nat, ext_vals(m, product))
                    == ext_vals(m, product));
            }
        }
        product
    }

    /// Batch many fused operations `const_0 * m0 * m1 + const_1 * a`,
    /// two per gate row, with a lone leftover operand going through the
    /// single-operation path.
    pub fn arithmetic_many_extension(
        &mut self,
        const_0: u64,
        const_1: u64,
        operands: &Vec<(ExtensionTarget, ExtensionTarget, ExtensionTarget)>,
    ) -> (r: Vec<ExtensionTarget>)
        requires
            old(self).wf(),
            in_field(const_0),
            in_field(const_1),
            forall|i: int|
                0 <= i < operands@.len() ==> (#[trigger] operands@[i]).0.wf(old(self).spec_d())
                    && operands@[i].1.wf(old(self).spec_d()) && operands@[i].2.wf(
                    old(self).spec_d(),
                ),
            old(self).num_virtual + 3 * old(self).params.d <= usize::MAX,
        ensures
            final(self).wf(),
            extends(*old(self), *final(self)),
            final(self).gates@.len() <= old(self).gates@.len() + (operands@.len() + 1) / 2,
            final(self).gates@.len() >= old(self).gates@.len() + operands@.len() as int / 2,
            final(self).generators@ == old(self).generators@,
            final(self).num_virtual <= old(self).num_virtual + 3 * old(self).params.d,
            r@.len() == operands@.len(),
            forall|i: int| 0 <= i < r@.len() ==> (#[trigger] r@[i]).wf(final(self).spec_d()),
            forall|i: int, m: Map<Target, int>|
                0 <= i < r@.len() && #[trigger] satisfies(*final(self), m) ==> ext_vals(
                    m,
                    #[trigger] r@[i],
                ) == ext_madd_spec(
                    final(self).params.w as int,
                    const_0 as int,
                    ext_vals(m, operands@[i].0),
                    ext_vals(m, operands@[i].1),
                    const_1 as int,
                    ext_vals(m, operands@[i].2),
                ),
    {
        let ghost w = self.params.w as int;
        let ghost d_int = self.params.d as int;
        let n = operands.len();
        let mut res: Vec<ExtensionTarget> = Vec::new();
        let mut i: usize = 0;
        while i + 1 < n
            invariant
                i <= n,
                i % 2 == 0,
                n == operands@.len(),
                in_field(const_0),
                in_field(const_1),
                self.wf(),
                self.params == old(self).params,
                w == self.params.w as int,
                d_int == self.params.d as int,
                extends(*old(self), *self),
                self.gates@.len() == old(self).gates@.len() + i / 2,
                self.generators@ == old(self).generators@,
                self.num_virtual == old(self).num_virtual,
                forall|k: int|
                    0 <= k < operands@.len() ==> (#[trigger] operands@[k]).0.wf(d_int)
                        && operands@[k].1.wf(d_int) && operands@[k].2.wf(d_int),
                res@.len() == i,
                forall|k: int| 0 <= k < i ==> (#[trigger] res@[k]).wf(d_int),
                forall|k: int, m: Map<Target, int>|
                    0 <= k < res@.len() && #[trigger] satisfies(*self, m) ==> ext_vals(
                        m,
                        #[trigger] res@[k],
                    ) == ext_madd_spec(
                        w,
                        const_0 as int,
                        ext_vals(m, operands@[k].0),
                        ext_vals(m, operands@[k].1),
                        const_1 as int,
                        ext_vals(m, operands@[k].2),
                    ),
            decreases n - i,
        {
            let ghost snap = *self;
            let (fm0, fm1, fa) = (&operands[i].0, &operands[i].1, &operands[i].2);
            let (sm0, sm1, sa) = (&operands[i + 1].0, &operands[i + 1].1, &operands[i + 1].2);
            let arithm = self.double_arithmetic_extension(
                const_0, const_1, fm0, fm1, fa, sm0, sm1, sa,
            );
            res.push(arithm.0);
            res.push(arithm.1);
            proof {
                lemma_extends_trans(*old(self), snap, *self);
                assert forall|k: int, m: Map<Target, int>|
                    0 <= k < res@.len() && #[trigger] satisfies(*self, m) implies ext_vals(
                    m,
                    #[trigger] res@[k],
                ) == ext_madd_spec(
                    w,
                    const_0 as int,
                    ext_vals(m, operands@[k].0),
                    ext_vals(m, operands@[k].1),
                    const_1 as int,
                    ext_vals(m, operands@[k].2),
                ) by {
                    lemma_satisfies_extends(snap, *self, m);
                }
            }
            i = i + 2;
        }
        if i < n {
            let ghost snap = *self;
            let last = self.arithmetic_extension(
                const_0,
                const_1,
                &operands[i].0,
                &operands[i].1,
                &operands[i].2,
            );
            res.push(last);
            proof {
                lemma_extends_trans(*old(self), snap, *self);
                assert forall|k: int, m: Map<Target, int>|
                    0 <= k < res@.len() && #[trigger] satisfies(*self, m) implies ext_vals(
                    m,
                    #[trigger] res@[k],
                ) == ext_madd_spec(
                    w,
                    const_0 as int,
                    ext_vals(m, operands@[k].0),
                    ext_vals(m, operands@[k].1),
                    const_1 as int,
                    ext_vals(m, operands@[k].2),
                ) by {
                    lemma_satisfies_extends(snap, *self, m);
                }
            }
        }
        res
    }
}

impl CircuitBuilder {
    /// Lane-wise addition of two second-tower elements, two lanes per
    /// gate row, with a lone odd lane through the single path.
    pub fn add_ext_algebra(
        &mut self,
        a: &ExtensionAlgebraTarget,
        b: &ExtensionAlgebraTarget,
    ) -> (r: ExtensionAlgebraTarget)
        requires
            old(self).wf(),
            a.wf(old(self).spec_d()),
            b.wf(old(self).spec_d()),
            old(self).num_virtual + (old(self).params.d + 6) * old(self).params.d <= usize::MAX,
        ensures
            final(self).wf(),
            extends(*old(self), *final(self)),
            final(self).generators@ == old(self).generators@,
            final(self).num_virtual <= old(self).num_virtual + (old(self).params.d + 6) * old(
                self,
            ).params.d,
            r.wf(final(self).spec_d()),
            forall|i: int, m: Map<Target, int>|
                0 <= i < final(self).spec_d() && #[trigger] satisfies(*final(self), m)
                    ==> ext_vals(m, #[trigger] r.components@[i]) == ext_add_spec(
                    ext_vals(m, a.components@[i]),
                    ext_vals(m, b.components@[i]),
                ),
    {
        let ghost w = self.params.w as int;
        let ghost d_int = self.params.d as int;
        let d = self.params.d;
        proof {
            assert(d_int <= (d_int + 6) * d_int) by (nonlinear_arith)
                requires d_int >= 1;
        }
        let one = self.one_extension();
        let ghost b_one = *self;
        let d_even = d - d % 2;
        let mut res: Vec<ExtensionTarget> = Vec::new();
        let mut i: usize = 0;
        proof {
            assert((d_int + 4) * d_int + d_int <= (d_int + 6) * d_int) by (nonlinear_arith)
                requires d_int >= 1;
            assert(d_int <= 2 * d_int) by (nonlinear_arith)
                requires d_int >= 0;
        }
        while i + 1 < d
            invariant
                i % 2 == 0,
                i <= d_even,
                d == self.params.d,
                d_even == d - d % 2,
                self.wf(),
                self.params == old(self).params,
                w == self.params.w as int,
                d_int == self.params.d as int,
                a.wf(d_int),
                b.wf(d_int),
                extends(*old(self), *self),
                extends(b_one, *self),
                is_one_ext(b_one, one),
                one.wf(d_int),
                self.generators@ == old(self).generators@,
                self.num_virtual + ((d_int - i) + 4) * d_int <= usize::MAX,
                self.num_virtual <= old(self).num_virtual + (i + 2) * d_int,
                res@.len() == i,
                forall|k: int, m: Map<Target, int>|
                    0 <= k < res@.len() && #[trigger] satisfies(*self, m) ==> ext_vals(
                        m,
                        #[trigger] res@[k],
                    ) == ext_add_spec(
                        ext_vals(m, a.components@[k]),
                        ext_vals(m, b.components@[k]),
                    ),
                forall|k: int| 0 <= k < res@.len() ==> (#[trigger] res@[k]).wf(d_int),
            decreases d - i,
        {
            let ghost snap = *self;
            proof {
                assert(((d_int - i) + 4) * d_int >= d_int) by (nonlinear_arith)
                    requires (d_int - i) + 4 >= 1, d_int >= 1;
                assert(((d_int - (i + 2)) + 4) * d_int + d_int <= ((d_int - i) + 4) * d_int)
                    by (nonlinear_arith)
                    requires d_int >= 1;
                assert((i + 2) * d_int + d_int <= ((i + 2) + 2) * d_int) by (nonlinear_arith)
                    requires d_int >= 1;
            }
            let (o0, o1) = self.add_two_extension(
                &a.components[i],
                &b.components[i],
                &a.components[i + 1],
                &b.components[i + 1],
            );
            res.push(o0);
            res.push(o1);
            proof {
                lemma_extends_trans(*old(self), snap, *self);
                lemma_extends_trans(b_one, snap, *self);
                assert forall|k: int, m: Map<Target, int>|
                    0 <= k < res@.len() && #[trigger] satisfies(*self, m) implies ext_vals(
                    m,
                    #[trigger] res@[k],
                ) == ext_add_spec(
                    ext_vals(m, a.components@[k]),
                    ext_vals(m, b.components@[k]),
                ) by {
                    lemma_satisfies_extends(snap, *self, m);
                }
            }
            i = i + 2;
        }
        if i < d {
            let ghost snap = *self;
            proof {
                assert(4 * d_int <= ((d_int - i) + 4) * d_int) by (nonlinear_arith)
                    requires d_int - i >= 1, d_int >= 1;
                assert((i + 2) * d_int + 4 * d_int <= (d_int + 6) * d_int) by (nonlinear_arith)
                    requires i <= d_int, d_int >= 1;
            }
            let o = self.add_extension(&a.components[i], &b.components[i]);
            res.push(o);
            proof {
                lemma_extends_trans(*old(self), snap, *self);
                assert forall|k: int, m: Map<Target, int>|
                    0 <= k < res@.len() && #[trigger] satisfies(*self, m) implies ext_vals(
                    m,
                    #[trigger] res@[k],
                ) == ext_add_spec(
                    ext_vals(m, a.components@[k]),
                    ext_vals(m, b.components@[k]),
                ) by {
                    lemma_satisfies_extends(snap, *self, m);
                }
            }
        }
        proof {
            assert((i + 2) * d_int <= (d_int + 6) * d_int) by (nonlinear_arith)
                requires i <= d_int + 1, d_int >= 1;
        }
        ExtensionAlgebraTarget { components: res }
    }

    /// Lane-wise subtraction of two second-tower elements.
    pub fn sub_ext_algebra(
        &mut self,
        a: &ExtensionAlgebraTarget,
        b: &ExtensionAlgebraTarget,
    ) -> (r: ExtensionAlgebraTarget)
        requires
            old(self).wf(),
            a.wf(old(self).spec_d()),
            b.wf(old(self).spec_d()),
            old(self).num_virtual + (old(self).params.d + 6) * old(self).params.d <= usize::MAX,
        ensures
            final(self).wf(),
            extends(*old(self), *final(self)),
            final(self).generators@ == old(self).generators@,
            final(self).num_virtual <= old(self).num_virtual + (old(self).params.d + 6) * old(
                self,
            ).params.d,
            r.wf(final(self).spec_d()),
            forall|i: int, m: Map<Target, int>|
                0 <= i < final(self).spec_d() && #[trigger] satisfies(*final(self), m)
                    ==> ext_vals(m, #[trigger] r.components@[i])
                    == crate::extension::ext_sub_spec(
                    ext_vals(m, a.components@[i]),
                    ext_vals(m, b.components@[i]),
                ),
    {
        let ghost w = self.params.w as int;
        let ghost d_int = self.params.d as int;
        let d = self.params.d;
        let d_even = d - d % 2;
        let mut res: Vec<ExtensionTarget> = Vec::new();
        let mut i: usize = 0;
        proof {
            assert((d_int + 4) * d_int + d_int <= (d_int + 6) * d_int) by (nonlinear_arith)
                requires d_int >= 1;
            assert(d_int <= 2 * d_int) by (nonlinear_arith)
                requires d_int >= 0;
        }
        while i + 1 < d
            invariant
                i % 2 == 0,
                i <= d_even,
                d == self.params.d,
                d_even == d - d % 2,
                self.wf(),
                self.params == old(self).params,
                w == self.params.w as int,
                d_int == self.params.d as int,
                a.wf(d_int),
                b.wf(d_int),
                extends(*old(self), *self),
                self.generators@ == old(self).generators@,
                self.num_virtual + ((d_int - i) + 4) * d_int <= usize::MAX,
                self.num_virtual <= old(self).num_virtual + (i + 2) * d_int,
                res@.len() == i,
                forall|k: int, m: Map<Target, int>|
                    0 <= k < res@.len() && #[trigger] satisfies(*self, m) ==> ext_vals(
                        m,
                        #[trigger] res@[k],
                    ) == crate::extension::ext_sub_spec(
                        ext_vals(m, a.components@[k]),
                        ext_vals(m, b.components@[k]),
                    ),
                forall|k: int| 0 <= k < res@.len() ==> (#[trigger] res@[k]).wf(d_int),
            decreases d - i,
        {
            let ghost snap = *self;
            proof {
                assert(((d_int - i) + 4) * d_int >= d_int) by (nonlinear_arith)
                    requires (d_int - i) + 4 >= 1, d_int >= 1;
                assert(((d_int - (i + 2)) + 4) * d_int + d_int <= ((d_int - i) + 4) * d_int)
                    by (nonlinear_arith)
                    requires d_int >= 1;
                assert((i + 2) * d_int + d_int <= ((i + 2) + 2) * d_int) by (nonlinear_arith)
                    requires d_int >= 1;
            }
            let (o0, o1) = self.sub_two_extension(
                &a.components[i],
                &b.components[i],
                &a.components[i + 1],
                &b.components[i + 1],
            );
            res.push(o0);
            res.push(o1);
            proof {
                lemma_extends_trans(*old(self), snap, *self);
                assert forall|k: int, m: Map<Target, int>|
                    0 <= k < res@.len() && #[trigger] satisfies(*self, m) implies ext_vals(
                    m,
                    #[trigger] res@[k],
                ) == crate::extension::ext_sub_spec(
                    ext_vals(m, a.components@[k]),
                    ext_vals(m, b.components@[k]),
                ) by {
                    lemma_satisfies_extends(snap, *self, m);
                }
            }
            i = i + 2;
        }
        if i < d {
            let ghost snap = *self;
            proof {
                assert(4 * d_int <= ((d_int - i) + 4) * d_int) by (nonlinear_arith)
                    requires d_int - i >= 1, d_int >= 1;
                assert((i + 2) * d_int + 4 * d_int <= (d_int + 6) * d_int) by (nonlinear_arith)
                    requires i <= d_int, d_int >= 1;
            }
            let o = self.sub_extension(&a.components[i], &b.components[i]);
            res.push(o);
            proof {
                lemma_extends_trans(*old(self), snap, *self);
                assert forall|k: int, m: Map<Target, int>|
                    0 <= k < res@.len() && #[trigger] satisfies(*self, m) implies ext_vals(
                    m,
                    #[trigger] res@[k],
                ) == crate::extension::ext_sub_spec(
                    ext_vals(m, a.components@[k]),
                    ext_vals(m, b.components@[k]),
                ) by {
                    lemma_satisfies_extends(snap, *self, m);
                }
            }
        }
        proof {
            assert((i + 2) * d_int <= (d_int + 6) * d_int) by (nonlinear_arith)
                requires i <= d_int + 1, d_int >= 1;
        }
        ExtensionAlgebraTarget { components: res }
    }

    /// Returns `a * b`, where `b` is in the extension of the extension
    /// field and `a` is in the extension field: every lane of `b` is
    /// multiplied by `a`.
    pub fn scalar_mul_ext_algebra(
        &mut self,
        a: &ExtensionTarget,
        b: &ExtensionAlgebraTarget,
    ) -> (r: ExtensionAlgebraTarget)
        requires
            old(self).wf(),
            a.wf(old(self).spec_d()),
            b.wf(old(self).spec_d()),
            old(self).num_virtual + (old(self).params.d + 6) * old(self).params.d <= usize::MAX,
        ensures
            final(self).wf(),
            extends(*old(self), *final(self)),
            final(self).generators@ == old(self).generators@,
            final(self).num_virtual <= old(self).num_virtual + (old(self).params.d + 6) * old(
                self,
            ).params.d,
            r.wf(final(self).spec_d()),
            forall|i: int, m: Map<Target, int>|
                0 <= i < final(self).spec_d() && #[trigger] satisfies(*final(self), m)
                    ==> ext_vals(m, #[trigger] r.components@[i]) == ext_mul_spec(
                    final(self).params.w as int,
                    ext_vals(m, *a),
                    ext_vals(m, b.components@[i]),
                ),
    {
        let ghost w = self.params.w as int;
        let ghost d_int = self.params.d as int;
        let d = self.params.d;
        let mut res: Vec<ExtensionTarget> = Vec::new();
        let mut i: usize = 0;
        proof {
            assert((d_int + 4) * d_int + d_int <= (d_int + 6) * d_int) by (nonlinear_arith)
                requires d_int >= 1;
            assert(d_int <= 2 * d_int) by (nonlinear_arith)
                requires d_int >= 0;
        }
        while i < d
            invariant
                i <= d,
                d == self.params.d,
                self.wf(),
                self.params == old(self).params,
                w == self.params.w as int,
                d_int == self.params.d as int,
                a.wf(d_int),
                b.wf(d_int),
                extends(*old(self), *self),
                self.generators@ == old(self).generators@,
                self.num_virtual + ((d_int - i) + 4) * d_int <= usize::MAX,
                self.num_virtual <= old(self).num_virtual + (i + 2) * d_int,
                res@.len() == i,
                forall|k: int, m: Map<Target, int>|
                    0 <= k < res@.len() && #[trigger] satisfies(*self, m) ==> ext_vals(
                        m,
                        #[trigger] res@[k],
                    ) == ext_mul_spec(w, ext_vals(m, *a), ext_vals(m, b.components@[k])),
                forall|k: int| 0 <= k < res@.len() ==> (#[trigger] res@[k]).wf(d_int),
            decreases d - i,
        {
            let ghost snap = *self;
            proof {
                assert(((d_int - i) + 4) * d_int >= d_int) by (nonlinear_arith)
                    requires (d_int - i) + 4 >= 1, d_int >= 1;
                assert(((d_int - (i + 2)) + 4) * d_int + d_int <= ((d_int - i) + 4) * d_int)
                    by (nonlinear_arith)
                    requires d_int >= 1;
                assert((i + 2) * d_int + d_int <= ((i + 2) + 2) * d_int) by (nonlinear_arith)
                    requires d_int >= 1;
                assert(((d_int - (i + 1)) + 4) * d_int + d_int <= ((d_int - i) + 4) * d_int)
                    by (nonlinear_arith)
                    requires d_int >= 1;
                assert((i + 2) * d_int + d_int <= ((i + 1) + 2) * d_int) by (nonlinear_arith)
                    requires d_int >= 1;
            }
            let o = self.mul_extension(a, &b.components[i]);
            res.push(o);
            proof {
                lemma_extends_trans(*old(self), snap, *self);
                assert forall|k: int, m: Map<Target, int>|
                    0 <= k < res@.len() && #[trigger] satisfies(*self, m) implies ext_vals(
                    m,
                    #[trigger] res@[k],
                ) == ext_mul_spec(w, ext_vals(m, *a), ext_vals(m, b.components@[k])) by {
                    lemma_satisfies_extends(snap, *self, m);
                }
            }
            i = i + 1;
        }
        proof {
            assert((i + 2) * d_int <= (d_int + 6) * d_int) by (nonlinear_arith)
                requires i <= d_int + 1, d_int >= 1;
        }
        ExtensionAlgebraTarget { components: res }
    }
}

/// The values of a sequence of extension targets under one assignment.
pub open spec fn vals_seq(m: Map<Target, int>, s: Seq<ExtensionTarget>) -> Seq<Seq<int>> {
    s.map_values(|t: ExtensionTarget| ext_vals(m, t))
}

/// The operand list as the batching loop sees it: padded with the
/// neutral element up to three entries, and to odd length above that,
/// so the loop always consumes a leading triple and then full pairs.
pub open spec fn padded_terms(xs: Seq<Seq<int>>, unit: Seq<int>) -> Seq<Seq<int>> {
    if xs.len() < 3 {
        xs + Seq::new((3 - xs.len()) as nat, |i: int| unit)
    } else if xs.len() % 2 == 0 {
        xs.push(unit)
    } else {
        xs
    }
}

/// Left fold of the pairwise addition chain from index `i`:
/// each step folds two more operands into the accumulator.
pub open spec fn add_chain_from(acc: Seq<int>, xs: Seq<Seq<int>>, i: int) -> Seq<int>
    decreases xs.len() - i,
{
    if i < 0 || i + 1 >= xs.len() {
        acc
    } else {
        add_chain_from(ext_add_spec(ext_add_spec(acc, xs[i]), xs[i + 1]), xs, i + 2)
    }
}

/// What the n-term addition gadget computes, as a function of the
/// operand values: zero for no operands, else the pairwise fold of the
/// padded list seeded with its leading triple.
pub open spec fn add_many_spec(d: int, xs: Seq<Seq<int>>) -> Seq<int> {
    if xs.len() == 0 {
        ext_zero_spec(d)
    } else {
        let ys = padded_terms(xs, ext_zero_spec(d));
        add_chain_from(ext_add_spec(ext_add_spec(ys[0], ys[1]), ys[2]), ys, 3)
    }
}

/// Left fold of the pairwise multiplication chain from index `i`,
/// bracketed exactly as the packed gate computes it.
pub open spec fn mul_chain_from(w: int, acc: Seq<int>, xs: Seq<Seq<int>>, i: int) -> Seq<int>
    decreases xs.len() - i,
{
    if i < 0 || i + 1 >= xs.len() {
        acc
    } else {
        mul_chain_from(
            w,
            ext_mul_spec(w, xs[i + 1], ext_mul_spec(w, acc, xs[i])),
            xs,
            i + 2,
        )
    }
}

/// What the n-term multiplication gadget computes, as a function of
/// the operand values.  All bracketings agree in the field, but only
/// this one is the gadget's own; the equalities with other bracketings
/// are checked dynamically by the test suite.
pub open spec fn mul_many_spec(w: int, d: int, xs: Seq<Seq<int>>) -> Seq<int> {
    if xs.len() == 0 {
        ext_one_spec(d)
    } else {
        let ys = padded_terms(xs, ext_one_spec(d));
        mul_chain_from(w, ext_mul_spec(w, ys[2], ext_mul_spec(w, ys[0], ys[1])), ys, 3)
    }
}

impl CircuitBuilder {
    /// Add `n` extension targets, two at a time, through roughly `n/2`
    /// gate rows.
    pub fn add_many_extension(&mut self, terms: &Vec<ExtensionTarget>) -> (r: ExtensionTarget)
        requires
            old(self).wf(),
            forall|i: int| 0 <= i < terms@.len() ==> (#[trigger] terms@[i]).wf(old(self).spec_d()),
            old(self).num_virtual + (terms@.len() + 8) * old(self).params.d <= usize::MAX,
            terms@.len() <= usize::MAX - 8,
        ensures
            final(self).wf(),
            extends(*old(self), *final(self)),
            final(self).generators@ == old(self).generators@,
            final(self).num_virtual <= old(self).num_virtual + (terms@.len() + 8) * old(
                self,
            ).params.d,
            final(self).gates@.len() == old(self).gates@.len() + (if terms@.len() == 0 {
                0int
            } else if terms@.len() <= 2 {
                1int
            } else {
                terms@.len() as int / 2
            }),
            terms@.len() == 0 ==> is_zero_ext(*final(self), r),
            r.wf(final(self).spec_d()),
            forall|m: Map<Target, int>|
                #[trigger] satisfies(*final(self), m) ==> ext_vals(m, r) == add_many_spec(
                    final(self).spec_d(),
                    vals_seq(m, terms@),
                ),
    {
        let ghost d_int = self.params.d as int;
        let ghost w = self.params.w as int;
        let ghost n_terms = terms@.len() as int;
        proof {
            assert(d_int <= (n_terms + 8) * d_int) by (nonlinear_arith)
                requires d_int >= 1, n_terms >= 0;
        }
        let zero = self.zero_extension();
        let ghost bz = *self;
        if terms.len() == 0 {
            proof {
                assert forall|m: Map<Target, int>| #[trigger] satisfies(*self, m) implies
                    ext_vals(m, zero) == add_many_spec(d_int, vals_seq(m, terms@)) by {
                    lemma_zero_ext_vals(*self, m, zero);
                    assert(vals_seq(m, terms@).len() == 0);
                }
            }
            return zero;
        }
        let mut ts: Vec<ExtensionTarget> = Vec::new();
        let mut j: usize = 0;
        while j < terms.len()
            invariant
                j <= terms@.len(),
                ts@.len() == j,
                forall|k: int| 0 <= k < j ==> (#[trigger] ts@[k]).limbs@ == terms@[k].limbs@,
            decreases terms@.len() - j,
        {
            ts.push(terms[j].clone());
            j = j + 1;
        }
        while ts.len() < 3
            invariant
                terms@.len() >= 1,
                ts@.len() >= terms@.len(),
                ts@.len() <= 3 || ts@.len() == terms@.len(),
                forall|k: int|
                    0 <= k < terms@.len() ==> (#[trigger] ts@[k]).limbs@ == terms@[k].limbs@,
                forall|k: int|
                    terms@.len() <= k < ts@.len() ==> (#[trigger] ts@[k]).limbs@ == zero.limbs@,
            decreases 3 - ts@.len(),
        {
            ts.push(zero.clone());
        }
        if ts.len() % 2 == 0 {
            ts.push(zero.clone());
        }
        proof {
            assert forall|m: Map<Target, int>| #[trigger] satisfies(bz, m) implies vals_seq(
                m,
                ts@,
            ) == padded_terms(vals_seq(m, terms@), ext_zero_spec(d_int)) by {
                lemma_zero_ext_vals(bz, m, zero);
                let xs = vals_seq(m, terms@);
                let ys = padded_terms(xs, ext_zero_spec(d_int));
                assert forall|k: int| 0 <= k < ts@.len() implies vals_seq(m, ts@)[k] == ys[k] by {
                    if k < terms@.len() {
                        assert(ext_vals(m, ts@[k]) =~= ext_vals(m, terms@[k]));
                    } else {
                        assert(ext_vals(m, ts@[k]) =~= ext_vals(m, zero));
                    }
                }
                assert(vals_seq(m, ts@) =~= ys);
            }
        }
        let ghost ts_view = ts@;
        proof {
            assert(ts_view.len() <= n_terms + 4);
            assert(2 * d_int <= (n_terms + 8) * d_int) by (nonlinear_arith)
                requires d_int >= 1, n_terms >= 0;
        }
        let mut acc = self.add_three_extension(&ts[0], &ts[1], &ts[2]);
        let mut i: usize = 3;
        proof {
            lemma_extends_trans(*old(self), bz, *self);
            assert(((ts_view.len() as int - 3) + 4) * d_int + 2 * d_int <= (n_terms + 8)
                * d_int) by (nonlinear_arith)
                requires ts_view.len() <= n_terms + 4, ts_view.len() >= 3, d_int >= 1,
                    n_terms >= 1;
            assert(2 * d_int <= (3 + 4) * d_int) by (nonlinear_arith)
                requires d_int >= 1;
            assert forall|m: Map<Target, int>| #[trigger] satisfies(*self, m) implies
                add_chain_from(ext_vals(m, acc), vals_seq(m, ts_view), 3)
                    == add_many_spec(d_int, vals_seq(m, terms@)) by {
                lemma_satisfies_extends(bz, *self, m);
            }
        }
        while i + 1 < ts.len()
            invariant
                3 <= i <= ts_view.len(),
                i % 2 == 1,
                ts_view.len() % 2 == 1,
                ts_view.len() <= n_terms + 4,
                n_terms <= usize::MAX - 8,
                ts@ == ts_view,
                self.wf(),
                self.params == old(self).params,
                w == self.params.w as int,
                d_int == self.params.d as int,
                extends(*old(self), *self),
                self.generators@ == old(self).generators@,
                self.num_virtual + ((ts_view.len() - i) + 4) * d_int <= usize::MAX,
                self.num_virtual <= old(self).num_virtual + (i + 4) * d_int,
                self.gates@.len() == old(self).gates@.len() + 1 + (i - 3) / 2,
                acc.wf(d_int),
                forall|k: int| 0 <= k < ts_view.len() ==> (#[trigger] ts_view[k]).wf(d_int),
                forall|m: Map<Target, int>|
                    #[trigger] satisfies(*self, m) ==> add_chain_from(
                        ext_vals(m, acc),
                        vals_seq(m, ts_view),
                        i as int,
                    ) == add_many_spec(d_int, vals_seq(m, terms@)),
            decreases ts_view.len() - i,
        {
            let ghost snap = *self;
            proof {
                assert(((ts_view.len() - i) + 4) * d_int >= d_int) by (nonlinear_arith)
                    requires ts_view.len() - i >= 0, d_int >= 1;
                assert(((ts_view.len() - (i + 2)) + 4) * d_int + d_int <= ((ts_view.len() - i)
                    + 4) * d_int) by (nonlinear_arith)
                    requires d_int >= 1;
                assert((i + 4) * d_int + d_int <= ((i + 2) + 4) * d_int) by (nonlinear_arith)
                    requires d_int >= 1;
                assert(((i + 2) as int - 3) / 2 == (i as int - 3) / 2 + 1) by (nonlinear_arith)
                    requires i >= 3;
            }
            let t0 = ts[i].clone();
            let t1 = ts[i + 1].clone();
            acc = self.add_three_extension(&acc, &t0, &t1);
            proof {
                lemma_extends_trans(*old(self), snap, *self);
                assert forall|m: Map<Target, int>| #[trigger] satisfies(*self, m) implies
                    add_chain_from(ext_vals(m, acc), vals_seq(m, ts_view), (i + 2) as int)
                        == add_many_spec(d_int, vals_seq(m, terms@)) by {
                    lemma_satisfies_extends(snap, *self, m);
                    let msq = vals_seq(m, ts_view);
                    assert(msq[i as int] == ext_vals(m, ts_view[i as int]));
                    assert(msq[i + 1] == ext_vals(m, ts_view[i + 1]));
                    assert(ext_vals(m, t0) =~= ext_vals(m, ts_view[i as int]));
                    assert(ext_vals(m, t1) =~= ext_vals(m, ts_view[i + 1]));
                }
            }
            i = i + 2;
        }
        proof {
            assert forall|m: Map<Target, int>| #[trigger] satisfies(*self, m) implies ext_vals(
                m,
                acc,
            ) == add_many_spec(d_int, vals_seq(m, terms@)) by {
                assert(add_chain_from(ext_vals(m, acc), vals_seq(m, ts_view), i as int)
                    == ext_vals(m, acc));
            }
            assert((i + 4) * d_int <= (n_terms + 8) * d_int) by (nonlinear_arith)
                requires i <= n_terms + 4, d_int >= 1;
            assert(i == ts_view.len());
            if n_terms <= 2 {
                assert(ts_view.len() == 3);
            } else if n_terms % 2 == 1 {
                assert(ts_view.len() == n_terms);
                assert(1 + (n_terms - 3) / 2 == n_terms / 2) by (nonlinear_arith)
                    requires n_terms >= 3, n_terms % 2 == 1;
            } else {
                assert(ts_view.len() == n_terms + 1);
                assert(1 + (n_terms + 1 - 3) / 2 == n_terms / 2) by (nonlinear_arith)
                    requires n_terms >= 3, n_terms % 2 == 0;
            }
        }
        acc
    }

    /// Multiply `n` extension targets, two at a time, through roughly
    /// `n/2` gate rows.
    pub fn mul_many_extension(&mut self, terms: &Vec<ExtensionTarget>) -> (r: ExtensionTarget)
        requires
            old(self).wf(),
            forall|i: int| 0 <= i < terms@.len() ==> (#[trigger] terms@[i]).wf(old(self).spec_d()),
            old(self).num_virtual + (terms@.len() + 8) * old(self).params.d <= usize::MAX,
            terms@.len() <= usize::MAX - 8,
        ensures
            final(self).wf(),
            extends(*old(self), *final(self)),
            final(self).generators@ == old(self).generators@,
            final(self).num_virtual <= old(self).num_virtual + (terms@.len() + 8) * old(
                self,
            ).params.d,
            final(self).gates@.len() == old(self).gates@.len() + (if terms@.len() == 0 {
                0int
            } else if terms@.len() <= 2 {
                1int
            } else {
                terms@.len() as int / 2
            }),
            terms@.len() == 0 ==> is_one_ext(*final(self), r),
            r.wf(final(self).spec_d()),
            forall|m: Map<Target, int>|
                #[trigger] satisfies(*final(self), m) ==> ext_vals(m, r) == mul_many_spec(
                    final(self).params.w as int,
                    final(self).spec_d(),
                    vals_seq(m, terms@),
                ),
    {
        let ghost d_int = self.params.d as int;
        let ghost w = self.params.w as int;
        let ghost n_terms = terms@.len() as int;
        proof {
            assert(d_int <= (n_terms + 8) * d_int) by (nonlinear_arith)
                requires d_int >= 1, n_terms >= 0;
        }
        let one = self.one_extension();
        let ghost bz = *self;
        if terms.len() == 0 {
            proof {
                assert forall|m: Map<Target, int>| #[trigger] satisfies(*self, m) implies
                    ext_vals(m, one) == mul_many_spec(w, d_int, vals_seq(m, terms@)) by {
                    lemma_one_ext_vals(*self, m, one);
                    assert(vals_seq(m, terms@).len() == 0);
                }
            }
            return one;
        }
        let mut ts: Vec<ExtensionTarget> = Vec::new();
        let mut j: usize = 0;
        while j < terms.len()
            invariant
                j <= terms@.len(),
                ts@.len() == j,
                forall|k: int| 0 <= k < j ==> (#[trigger] ts@[k]).limbs@ == terms@[k].limbs@,
            decreases terms@.len() - j,
        {
            ts.push(terms[j].clone());
            j = j + 1;
        }
        while ts.len() < 3
            invariant
                terms@.len() >= 1,
                ts@.len() >= terms@.len(),
                ts@.len() <= 3 || ts@.len() == terms@.len(),
                forall|k: int|
                    0 <= k < terms@.len() ==> (#[trigger] ts@[k]).limbs@ == terms@[k].limbs@,
                forall|k: int|
                    terms@.len() <= k < ts@.len() ==> (#[trigger] ts@[k]).limbs@ == one.limbs@,
            decreases 3 - ts@.len(),
        {
            ts.push(one.clone());
        }
        if ts.len() % 2 == 0 {
            ts.push(one.clone());
        }
        proof {
            assert forall|m: Map<Target, int>| #[trigger] satisfies(bz, m) implies vals_seq(
                m,
                ts@,
            ) == padded_terms(vals_seq(m, terms@), ext_one_spec(d_int)) by {
                lemma_one_ext_vals(bz, m, one);
                let xs = vals_seq(m, terms@);
                let ys = padded_terms(xs, ext_one_spec(d_int));
                assert forall|k: int| 0 <= k < ts@.len() implies vals_seq(m, ts@)[k] == ys[k] by {
                    if k < terms@.len() {
                        assert(ext_vals(m, ts@[k]) =~= ext_vals(m, terms@[k]));
                    } else {
                        assert(ext_vals(m, ts@[k]) =~= ext_vals(m, one));
                    }
                }
                assert(vals_seq(m, ts@) =~= ys);
            }
        }
        let ghost ts_view = ts@;
        proof {
            assert(ts_view.len() <= n_terms + 4);
            assert(2 * d_int <= (n_terms + 8) * d_int) by (nonlinear_arith)
                requires d_int >= 1, n_terms >= 0;
        }
        let mut acc = self.mul_three_extension(&ts[0], &ts[1], &ts[2]);
        let mut i: usize = 3;
        proof {
            lemma_extends_trans(*old(self), bz, *self);
            assert(((ts_view.len() as int - 3) + 4) * d_int + 2 * d_int <= (n_terms + 8)
                * d_int) by (nonlinear_arith)
                requires ts_view.len() <= n_terms + 4, ts_view.len() >= 3, d_int >= 1,
                    n_terms >= 1;
            assert(2 * d_int <= (3 + 4) * d_int) by (nonlinear_arith)
                requires d_int >= 1;
            assert forall|m: Map<Target, int>| #[trigger] satisfies(*self, m) implies
                mul_chain_from(w, ext_vals(m, acc), vals_seq(m, ts_view), 3)
                    == mul_many_spec(w, d_int, vals_seq(m, terms@)) by {
                lemma_satisfies_extends(bz, *self, m);
            }
        }
        while i + 1 < ts.len()
            invariant
                3 <= i <= ts_view.len(),
                i % 2 == 1,
                ts_view.len() % 2 == 1,
                ts_view.len() <= n_terms + 4,
                n_terms <= usize::MAX - 8,
                ts@ == ts_view,
                self.wf(),
                self.params == old(self).params,
                w == self.params.w as int,
                d_int == self.params.d as int,
                extends(*old(self), *self),
                self.generators@ == old(self).generators@,
                self.num_virtual + ((ts_view.len() - i) + 4) * d_int <= usize::MAX,
                self.num_virtual <= old(self).num_virtual + (i + 4) * d_int,
                self.gates@.len() == old(self).gates@.len() + 1 + (i - 3) / 2,
                acc.wf(d_int),
                forall|k: int| 0 <= k < ts_view.len() ==> (#[trigger] ts_view[k]).wf(d_int),
                forall|m: Map<Target, int>|
                    #[trigger] satisfies(*self, m) ==> mul_chain_from(
                        w,
                        ext_vals(m, acc),
                        vals_seq(m, ts_view),
                        i as int,
                    ) == mul_many_spec(w, d_int, vals_seq(m, terms@)),
            decreases ts_view.len() - i,
        {
            let ghost snap = *self;
            proof {
                assert(((ts_view.len() - i) + 4) * d_int >= d_int) by (nonlinear_arith)
                    requires ts_view.len() - i >= 0, d_int >= 1;
                assert(((ts_view.len() - (i + 2)) + 4) * d_int + d_int <= ((ts_view.len() - i)
                    + 4) * d_int) by (nonlinear_arith)
                    requires d_int >= 1;
                assert((i + 4) * d_int + d_int <= ((i + 2) + 4) * d_int) by (nonlinear_arith)
                    requires d_int >= 1;
                assert(((i + 2) as int - 3) / 2 == (i as int - 3) / 2 + 1) by (nonlinear_arith)
                    requires i >= 3;
            }
            let t0 = ts[i].clone();
            let t1 = ts[i + 1].clone();
            acc = self.mul_three_extension(&acc, &t0, &t1);
            proof {
                lemma_extends_trans(*old(self), snap, *self);
                assert forall|m: Map<Target, int>| #[trigger] satisfies(*self, m) implies
                    mul_chain_from(w, ext_vals(m, acc), vals_seq(m, ts_view), (i + 2) as int)
                        == mul_many_spec(w, d_int, vals_seq(m, terms@)) by {
                    lemma_satisfies_extends(snap, *self, m);
                    let msq = vals_seq(m, ts_view);
                    assert(msq[i as int] == ext_vals(m, ts_view[i as int]));
                    assert(msq[i + 1] == ext_vals(m, ts_view[i + 1]));
                    assert(ext_vals(m, t0) =~= ext_vals(m, ts_view[i as int]));
                    assert(ext_vals(m, t1) =~= ext_vals(m, ts_view[i + 1]));
                }
            }
            i = i + 2;
        }
        proof {
            assert forall|m: Map<Target, int>| #[trigger] satisfies(*self, m) implies ext_vals(
                m,
                acc,
            ) == mul_many_spec(w, d_int, vals_seq(m, terms@)) by {
                assert(mul_chain_from(w, ext_vals(m, acc), vals_seq(m, ts_view), i as int)
                    == ext_vals(m, acc));
            }
            assert((i + 4) * d_int <= (n_terms + 8) * d_int) by (nonlinear_arith)
                requires i <= n_terms + 4, d_int >= 1;
            assert(i == ts_view.len());
            if n_terms <= 2 {
                assert(ts_view.len() == 3);
            } else if n_terms % 2 == 1 {
                assert(ts_view.len() == n_terms);
                assert(1 + (n_terms - 3) / 2 == n_terms / 2) by (nonlinear_arith)
                    requires n_terms >= 3, n_terms % 2 == 1;
            } else {
                assert(ts_view.len() == n_terms + 1);
                assert(1 + (n_terms + 1 - 3) / 2 == n_terms / 2) by (nonlinear_arith)
                    requires n_terms >= 3, n_terms % 2 == 0;
            }
        }
        acc
    }
}

/// Count of the direct (non-wrapping) lane products batched before
/// row `i`: row `r` pairs with lanes `0..d-r`, so it holds `d - r` of
/// them.
pub open spec fn nw_base(d: int, i: int) -> int
    decreases i,
{
    if i <= 0 {
        0
    } else {
        nw_base(d, i - 1) + (d - (i - 1))
    }
}

/// Position of the direct product of row `q` with column `j` in the
/// batched list.
pub open spec fn nw_idx(d: int, q: int, j: int) -> int {
    nw_base(d, q) + j
}

/// Count of the wrapped lane products batched before row `i`: row `r`
/// wraps onto lanes `0..r`, so it holds `r` of them.
pub open spec fn w_base(i: int) -> int
    decreases i,
{
    if i <= 0 {
        0
    } else {
        w_base(i - 1) + (i - 1)
    }
}

/// Position of the wrapped product of row `q` landing on lane `off`.
pub open spec fn w_idx(q: int, off: int) -> int {
    w_base(q) + off
}

/// A direct product's position lies before the bases of later rows.
proof fn lemma_nw_idx_lt(d: int, q: int, j: int, i: int)
    requires
        0 <= q < i <= d,
        0 <= j < d - q,
    ensures
        0 <= nw_base(d, q),
        nw_idx(d, q, j) < nw_base(d, i),
        nw_base(d, i) <= d * i,
    decreases i,
{
    if q == i - 1 {
        lemma_nw_base_bounds(d, q);
    } else {
        lemma_nw_idx_lt(d, q, j, i - 1);
    }
    assert(nw_base(d, i) <= d * i) by {
        lemma_nw_base_bounds(d, i);
    }
}

/// The direct-product bases are non-negative and at most `d * i`.
proof fn lemma_nw_base_bounds(d: int, i: int)
    requires
        0 <= i <= d,
    ensures
        0 <= nw_base(d, i) <= d * i,
    decreases i,
{
    if i > 0 {
        lemma_nw_base_bounds(d, i - 1);
        assert(d * i == d * (i - 1) + d) by (nonlinear_arith);
    }
}

/// A wrapped product's position lies before the bases of later rows.
proof fn lemma_w_idx_lt(q: int, off: int, i: int)
    requires
        0 <= off < q < i,
    ensures
        0 <= w_base(q),
        w_idx(q, off) < w_base(i),
        w_base(i) <= i * i,
    decreases i,
{
    if q == i - 1 {
        lemma_w_base_bounds(q);
    } else {
        lemma_w_idx_lt(q, off, i - 1);
    }
    assert(w_base(i) <= i * i) by {
        lemma_w_base_bounds(i);
    }
}

/// The wrapped-product bases are non-negative and at most `i * i`.
proof fn lemma_w_base_bounds(i: int)
    requires
        0 <= i,
    ensures
        0 <= w_base(i) <= i * i,
    decreases i,
{
    if i > 0 {
        lemma_w_base_bounds(i - 1);
        assert((i - 1) * (i - 1) + (i - 1) <= i * i) by (nonlinear_arith)
            requires i >= 1;
    }
}

/// The products contributing to output lane `k` of the second-tower
/// convolution, ordered by row: the direct products `a_q * b_(k-q)`
/// for rows up to `k`, then the wrapped products `w * (a_q *
/// b_(k+d-q))` of the higher rows.
pub open spec fn lane_products(
    w: int,
    d: int,
    m: Map<Target, int>,
    a: ExtensionAlgebraTarget,
    b: ExtensionAlgebraTarget,
    k: int,
) -> Seq<Seq<int>> {
    Seq::new(
        d as nat,
        |q: int|
            if q <= k {
                ext_mul_spec(w, ext_vals(m, a.components@[q]), ext_vals(m, b.components@[k - q]))
            } else {
                ext_scale_spec(
                    w,
                    ext_mul_spec(
                        w,
                        ext_vals(m, a.components@[q]),
                        ext_vals(m, b.components@[k + d - q]),
                    ),
                )
            },
    )
}

impl CircuitBuilder {
    /// Full D x D convolution at the second tower level: every product
    /// of one lane of `a` with one lane of `b` lands directly when the
    /// combined index stays below D, and wraps around scaled by the
    /// non-residue when it does not.  All direct products go through
    /// one batched call with scale one and all wrapped products through
    /// another with scale `w`; each output lane then accumulates its
    /// contributing products through the n-term addition.
    pub fn mul_ext_algebra(
        &mut self,
        a: &ExtensionAlgebraTarget,
        b: &ExtensionAlgebraTarget,
    ) -> (r: ExtensionAlgebraTarget)
        requires
            old(self).wf(),
            a.wf(old(self).spec_d()),
            b.wf(old(self).spec_d()),
            old(self).num_virtual + (old(self).params.d + 10) * (old(self).params.d + 10) * (old(
                self,
            ).params.d + 10) * old(self).params.d <= usize::MAX,
        ensures
            final(self).wf(),
            extends(*old(self), *final(self)),
            final(self).generators@ == old(self).generators@,
            r.wf(final(self).spec_d()),
            forall|k: int, m: Map<Target, int>|
                0 <= k < final(self).spec_d() && #[trigger] satisfies(*final(self), m)
                    ==> ext_vals(m, #[trigger] r.components@[k]) == add_many_spec(
                    final(self).spec_d(),
                    lane_products(
                        final(self).params.w as int,
                        final(self).spec_d(),
                        m,
                        *a,
                        *b,
                        k,
                    ),
                ),
    {
        let ghost d_int = self.params.d as int;
        let ghost w_int = self.params.w as int;
        let d = self.params.d;
        proof {
            assert(4 * d_int <= (d_int + 10) * (d_int + 10) * (d_int + 10) * d_int)
                by (nonlinear_arith)
                requires d_int >= 1;
            let budget = usize::MAX as int - old(self).num_virtual;
            assert(d_int * d_int + d_int <= usize::MAX) by (nonlinear_arith)
                requires (d_int + 10) * (d_int + 10) * (d_int + 10) * d_int <= budget,
                    budget <= usize::MAX as int, d_int >= 1;
        }
        let zero = self.zero_extension();
        let ghost bz = *self;

        // Classify every lane pair as direct or wrapped, recording the
        // operands at positions given by the row bases.
        let mut ops: Vec<(ExtensionTarget, ExtensionTarget, ExtensionTarget)> = Vec::new();
        let mut opsw: Vec<(ExtensionTarget, ExtensionTarget, ExtensionTarget)> = Vec::new();
        let mut i: usize = 0;
        while i < d
            invariant
                i <= d,
                d == self.params.d,
                d_int == d as int,
                self.wf(),
                a.wf(d_int),
                b.wf(d_int),
                zero.wf(d_int),
                ops@.len() == nw_base(d_int, i as int),
                opsw@.len() == w_base(i as int),
                forall|q: int, j: int|
                    0 <= q < i && 0 <= j < d_int - q ==> {
                        &&& (#[trigger] ops@[nw_idx(d_int, q, j)]).0.limbs@
                            == a.components@[q].limbs@
                        &&& ops@[nw_idx(d_int, q, j)].1.limbs@ == b.components@[j].limbs@
                        &&& ops@[nw_idx(d_int, q, j)].2.limbs@ == zero.limbs@
                    },
                forall|q: int, off: int|
                    0 <= q < i && 0 <= off < q ==> {
                        &&& (#[trigger] opsw@[w_idx(q, off)]).0.limbs@
                            == a.components@[q].limbs@
                        &&& opsw@[w_idx(q, off)].1.limbs@ == b.components@[d_int - q
                            + off].limbs@
                        &&& opsw@[w_idx(q, off)].2.limbs@ == zero.limbs@
                    },
                forall|p: int|
                    0 <= p < ops@.len() ==> (#[trigger] ops@[p]).0.wf(d_int) && ops@[p].1.wf(
                        d_int,
                    ) && ops@[p].2.wf(d_int),
                forall|p: int|
                    0 <= p < opsw@.len() ==> (#[trigger] opsw@[p]).0.wf(d_int)
                        && opsw@[p].1.wf(d_int) && opsw@[p].2.wf(d_int),
            decreases d - i,
        {
            let mut j: usize = 0;
            while j < d - i
                invariant
                    i < d,
                    j <= d - i,
                    d == self.params.d,
                    d_int == d as int,
                    self.wf(),
                    a.wf(d_int),
                    b.wf(d_int),
                    zero.wf(d_int),
                    ops@.len() == nw_base(d_int, i as int) + j,
                    opsw@.len() == w_base(i as int),
                    forall|q: int, j2: int|
                        (0 <= q < i && 0 <= j2 < d_int - q) || (q == i && 0 <= j2 < j) ==> {
                            &&& (#[trigger] ops@[nw_idx(d_int, q, j2)]).0.limbs@
                                == a.components@[q].limbs@
                            &&& ops@[nw_idx(d_int, q, j2)].1.limbs@ == b.components@[j2].limbs@
                            &&& ops@[nw_idx(d_int, q, j2)].2.limbs@ == zero.limbs@
                        },
                    forall|q: int, off: int|
                        0 <= q < i && 0 <= off < q ==> {
                            &&& (#[trigger] opsw@[w_idx(q, off)]).0.limbs@
                                == a.components@[q].limbs@
                            &&& opsw@[w_idx(q, off)].1.limbs@ == b.components@[d_int - q
                                + off].limbs@
                            &&& opsw@[w_idx(q, off)].2.limbs@ == zero.limbs@
                        },
                    forall|p: int|
                        0 <= p < ops@.len() ==> (#[trigger] ops@[p]).0.wf(d_int)
                            && ops@[p].1.wf(d_int) && ops@[p].2.wf(d_int),
                    forall|p: int|
                        0 <= p < opsw@.len() ==> (#[trigger] opsw@[p]).0.wf(d_int)
                            && opsw@[p].1.wf(d_int) && opsw@[p].2.wf(d_int),
                decreases d - i - j,
            {
                proof {
                    assert(a.components@[i as int].wf(d_int));
                    assert(b.components@[j as int].wf(d_int));
                    if i > 0 {
                        lemma_nw_idx_lt(d_int, i as int - 1, 0, i as int);
                    }
                    lemma_nw_base_bounds(d_int, i as int);
                    assert(d_int * i <= d_int * d_int) by (nonlinear_arith)
                        requires 0 <= i <= d_int;
                }
                let ghost pre_ops = ops@;
                ops.push((a.components[i].clone(), b.components[j].clone(), zero.clone()));
                proof {
                    assert(ops@.take(pre_ops.len() as int) =~= pre_ops);
                    assert forall|q: int, j2: int|
                        (0 <= q < i && 0 <= j2 < d_int - q) || (q == i && 0 <= j2 < j + 1)
                        implies (#[trigger] ops@[nw_idx(d_int, q, j2)]).0.limbs@
                            == a.components@[q].limbs@ && ops@[nw_idx(d_int, q, j2)].1.limbs@
                            == b.components@[j2].limbs@ && ops@[nw_idx(d_int, q, j2)].2.limbs@
                            == zero.limbs@ by {
                        if q < i {
                            lemma_nw_idx_lt(d_int, q, j2, i as int);
                            assert(ops@[nw_idx(d_int, q, j2)] == pre_ops[nw_idx(d_int, q, j2)]);
                        } else if j2 < j {
                            assert(ops@[nw_idx(d_int, q, j2)] == pre_ops[nw_idx(d_int, q, j2)]);
                        }
                    }
                }
                j = j + 1;
            }
            while j < d
                invariant
                    i < d,
                    d - i <= j <= d,
                    d == self.params.d,
                    d_int == d as int,
                    self.wf(),
                    a.wf(d_int),
                    b.wf(d_int),
                    zero.wf(d_int),
                    ops@.len() == nw_base(d_int, (i + 1) as int),
                    opsw@.len() == w_base(i as int) + (j - (d - i)),
                    forall|q: int, j2: int|
                        0 <= q < i + 1 && 0 <= j2 < d_int - q ==> {
                            &&& (#[trigger] ops@[nw_idx(d_int, q, j2)]).0.limbs@
                                == a.components@[q].limbs@
                            &&& ops@[nw_idx(d_int, q, j2)].1.limbs@ == b.components@[j2].limbs@
                            &&& ops@[nw_idx(d_int, q, j2)].2.limbs@ == zero.limbs@
                        },
                    forall|q: int, off: int|
                        (0 <= q < i && 0 <= off < q) || (q == i && 0 <= off < j - (d - i))
                            ==> {
                            &&& (#[trigger] opsw@[w_idx(q, off)]).0.limbs@
                                == a.components@[q].limbs@
                            &&& opsw@[w_idx(q, off)].1.limbs@ == b.components@[d_int - q
                                + off].limbs@
                            &&& opsw@[w_idx(q, off)].2.limbs@ == zero.limbs@
                        },
                    forall|p: int|
                        0 <= p < ops@.len() ==> (#[trigger] ops@[p]).0.wf(d_int)
                            && ops@[p].1.wf(d_int) && ops@[p].2.wf(d_int),
                    forall|p: int|
                        0 <= p < opsw@.len() ==> (#[trigger] opsw@[p]).0.wf(d_int)
                            && opsw@[p].1.wf(d_int) && opsw@[p].2.wf(d_int),
                decreases d - j,
            {
                proof {
                    assert(a.components@[i as int].wf(d_int));
                    assert(b.components@[j as int].wf(d_int));
                    assert(w_idx(i as int, j - (d - i)) == opsw@.len());
                }
                let ghost pre_opsw = opsw@;
                opsw.push((a.components[i].clone(), b.components[j].clone(), zero.clone()));
                proof {
                    assert(d_int - i + (j - (d - i)) == j);
                    assert(opsw@.take(pre_opsw.len() as int) =~= pre_opsw);
                    assert forall|q: int, off: int|
                        (0 <= q < i && 0 <= off < q) || (q == i && 0 <= off < j - (d - i) + 1)
                        implies (#[trigger] opsw@[w_idx(q, off)]).0.limbs@
                            == a.components@[q].limbs@ && opsw@[w_idx(q, off)].1.limbs@
                            == b.components@[d_int - q + off].limbs@ && opsw@[w_idx(
                            q,
                            off,
                        )].2.limbs@ == zero.limbs@ by {
                        if q < i {
                            lemma_w_idx_lt(q, off, i as int);
                            assert(w_idx(q, off) < pre_opsw.len());
                            assert(opsw@[w_idx(q, off)] == pre_opsw[w_idx(q, off)]);
                        } else if off < j - (d - i) {
                            lemma_w_base_bounds(q);
                            assert(w_idx(q, off) < pre_opsw.len());
                            assert(opsw@[w_idx(q, off)] == pre_opsw[w_idx(q, off)]);
                        }
                    }
                }
                j = j + 1;
            }
            i = i + 1;
        }
        proof {
            lemma_nw_base_bounds(d_int, d_int);
            lemma_w_base_bounds(d_int);
            assert(d_int * d_int + 4 * d_int <= (d_int + 10) * (d_int + 10) * (d_int + 10)
                * d_int) by (nonlinear_arith)
                requires d_int >= 1;
            assert(7 * d_int <= (d_int + 10) * (d_int + 10) * (d_int + 10) * d_int)
                by (nonlinear_arith)
                requires d_int >= 1;
        }
        let muls = self.arithmetic_many_extension(1, 1, &ops);
        let ghost b_m1 = *self;
        let w_const = self.params.w;
        let mulsw = self.arithmetic_many_extension(w_const, 1, &opsw);
        let ghost b_muls = *self;
        proof {
            assert forall|p: int, m: Map<Target, int>|
                0 <= p < muls@.len() && #[trigger] satisfies(b_muls, m) implies ext_vals(
                m,
                #[trigger] muls@[p],
            ) == ext_madd_spec(
                w_int,
                1,
                ext_vals(m, ops@[p].0),
                ext_vals(m, ops@[p].1),
                1,
                ext_vals(m, ops@[p].2),
            ) by {
                lemma_satisfies_extends(b_m1, b_muls, m);
            }
        }

        // Assemble each output lane from its contributing products, by
        // row, and accumulate it.
        proof {
            assert(7 * d_int + (d_int + 9) * d_int * d_int <= (d_int + 10) * (d_int + 10)
                * (d_int + 10) * d_int) by (nonlinear_arith)
                requires d_int >= 1;
        }
        let mut res: Vec<ExtensionTarget> = Vec::new();
        let mut k: usize = 0;
        while k < d
            invariant
                k <= d,
                d == self.params.d,
                d_int == d as int,
                d_int * d_int + d_int <= usize::MAX,
                w_int == self.params.w as int,
                w_const == self.params.w,
                self.wf(),
                self.params == old(self).params,
                a.wf(d_int),
                b.wf(d_int),
                zero.wf(d_int),
                is_zero_ext(bz, zero),
                extends(*old(self), *self),
                extends(bz, b_muls),
                extends(b_muls, *self),
                self.generators@ == old(self).generators@,
                self.num_virtual + (d_int + 9) * (d_int - k) * d_int <= usize::MAX,
                muls@.len() == nw_base(d_int, d_int),
                mulsw@.len() == w_base(d_int),
                ops@.len() == nw_base(d_int, d_int),
                opsw@.len() == w_base(d_int),
                forall|q: int| 0 <= q < muls@.len() ==> (#[trigger] muls@[q]).wf(d_int),
                forall|q: int| 0 <= q < mulsw@.len() ==> (#[trigger] mulsw@[q]).wf(d_int),
                forall|q: int, j: int|
                    0 <= q < d_int && 0 <= j < d_int - q ==> {
                        &&& (#[trigger] ops@[nw_idx(d_int, q, j)]).0.limbs@
                            == a.components@[q].limbs@
                        &&& ops@[nw_idx(d_int, q, j)].1.limbs@ == b.components@[j].limbs@
                        &&& ops@[nw_idx(d_int, q, j)].2.limbs@ == zero.limbs@
                    },
                forall|q: int, off: int|
                    0 <= q < d_int && 0 <= off < q ==> {
                        &&& (#[trigger] opsw@[w_idx(q, off)]).0.limbs@
                            == a.components@[q].limbs@
                        &&& opsw@[w_idx(q, off)].1.limbs@ == b.components@[d_int - q
                            + off].limbs@
                        &&& opsw@[w_idx(q, off)].2.limbs@ == zero.limbs@
                    },
                forall|p: int, m: Map<Target, int>|
                    0 <= p < muls@.len() && #[trigger] satisfies(b_muls, m) ==> ext_vals(
                        m,
                        #[trigger] muls@[p],
                    ) == ext_madd_spec(
                        w_int,
                        1,
                        ext_vals(m, ops@[p].0),
                        ext_vals(m, ops@[p].1),
                        1,
                        ext_vals(m, ops@[p].2),
                    ),
                forall|p: int, m: Map<Target, int>|
                    0 <= p < mulsw@.len() && #[trigger] satisfies(b_muls, m) ==> ext_vals(
                        m,
                        #[trigger] mulsw@[p],
                    ) == ext_madd_spec(
                        w_int,
                        w_int,
                        ext_vals(m, opsw@[p].0),
                        ext_vals(m, opsw@[p].1),
                        1,
                        ext_vals(m, opsw@[p].2),
                    ),
                res@.len() == k,
                forall|q: int| 0 <= q < k ==> (#[trigger] res@[q]).wf(d_int),
                forall|k2: int, m: Map<Target, int>|
                    0 <= k2 < res@.len() && #[trigger] satisfies(*self, m) ==> ext_vals(
                        m,
                        #[trigger] res@[k2],
                    ) == add_many_spec(d_int, lane_products(w_int, d_int, m, *a, *b, k2)),
            decreases d - k,
        {
            // Direct products of rows up to k, positions by row base.
            let mut lane_list: Vec<ExtensionTarget> = Vec::new();
            let mut base: usize = 0;
            let mut q: usize = 0;
            while q < k + 1
                invariant
                    q <= k + 1,
                    k < d,
                    d == self.params.d,
                    d_int == d as int,
                    1 <= d_int <= 65536,
                    d_int * d_int + d_int <= usize::MAX,
                    base == nw_base(d_int, q as int),
                    muls@.len() == nw_base(d_int, d_int),
                    forall|p: int| 0 <= p < muls@.len() ==> (#[trigger] muls@[p]).wf(d_int),
                    lane_list@.len() == q,
                    forall|q2: int|
                        0 <= q2 < q ==> (#[trigger] lane_list@[q2]).limbs@ == muls@[nw_idx(
                            d_int,
                            q2,
                            k - q2,
                        )].limbs@,
                decreases k + 1 - q,
            {
                proof {
                    lemma_nw_idx_lt(d_int, q as int, (k - q) as int, d_int);
                    lemma_nw_base_bounds(d_int, q as int);
                    assert(d_int * q <= d_int * d_int) by (nonlinear_arith)
                        requires 0 <= q <= d_int;
                    assert(base as int + (k - q) < muls@.len());
                }
                lane_list.push(muls[base + (k - q)].clone());
                base = base + (d - q);
                q = q + 1;
            }
            // Wrapped products of the higher rows: each lands on this
            // lane at offset k within its row.
            let mut wb: usize = 0;
            let mut r_row: usize = 0;
            while r_row < k + 1
                invariant
                    r_row <= k + 1,
                    k < d,
                    d_int == d as int,
                    1 <= d_int <= 65536,
                    d_int * d_int + d_int <= usize::MAX,
                    wb == w_base(r_row as int),
                decreases k + 1 - r_row,
            {
                proof {
                    lemma_w_base_bounds(r_row as int);
                    assert(r_row as int * r_row <= d_int * d_int) by (nonlinear_arith)
                        requires 0 <= r_row <= d_int;
                }
                wb = wb + r_row;
                r_row = r_row + 1;
            }
            q = k + 1;
            while q < d
                invariant
                    k + 1 <= q <= d,
                    k < d,
                    d == self.params.d,
                    d_int == d as int,
                    1 <= d_int <= 65536,
                    d_int * d_int + d_int <= usize::MAX,
                    wb == w_base(q as int),
                    mulsw@.len() == w_base(d_int),
                    forall|p: int| 0 <= p < mulsw@.len() ==> (#[trigger] mulsw@[p]).wf(d_int),
                    lane_list@.len() == q,
                    forall|q2: int|
                        0 <= q2 < k + 1 ==> (#[trigger] lane_list@[q2]).limbs@ == muls@[nw_idx(
                            d_int,
                            q2,
                            k - q2,
                        )].limbs@,
                    forall|q2: int|
                        k + 1 <= q2 < q ==> (#[trigger] lane_list@[q2]).limbs@ == mulsw@[w_idx(
                            q2,
                            k as int,
                        )].limbs@,
                decreases d - q,
            {
                proof {
                    lemma_w_idx_lt(q as int, k as int, d_int);
                    assert(wb as int + k < mulsw@.len());
                    lemma_w_base_bounds(q as int);
                    assert(q as int * q <= d_int * d_int) by (nonlinear_arith)
                        requires 0 <= q <= d_int;
                }
                lane_list.push(mulsw[wb + k].clone());
                wb = wb + q;
                q = q + 1;
            }
            proof {
                assert((lane_list@.len() + 8) * d_int <= (d_int + 9) * d_int)
                    by (nonlinear_arith)
                    requires lane_list@.len() == d_int, d_int >= 1;
                assert((d_int + 9) * d_int <= (d_int + 9) * (d_int - k) * d_int)
                    by (nonlinear_arith)
                    requires d_int - k >= 1, d_int >= 1;
                assert((d_int + 9) * (d_int - k) * d_int == (d_int + 9) * d_int + (d_int + 9)
                    * (d_int - (k + 1)) * d_int) by (nonlinear_arith);
            }
            proof {
                assert forall|q2: int| 0 <= q2 < lane_list@.len() implies
                    (#[trigger] lane_list@[q2]).wf(d_int) by {
                    if q2 <= k {
                        lemma_nw_idx_lt(d_int, q2, k - q2, d_int);
                        assert(muls@[nw_idx(d_int, q2, k - q2)].wf(d_int));
                    } else {
                        lemma_w_idx_lt(q2, k as int, d_int);
                        assert(mulsw@[w_idx(q2, k as int)].wf(d_int));
                    }
                }
            }
            let ghost snap = *self;
            let lane_sum = self.add_many_extension(&lane_list);
            res.push(lane_sum);
            proof {
                lemma_extends_trans(*old(self), snap, *self);
                lemma_extends_trans(b_muls, snap, *self);
                // Under any satisfying assignment the assembled list
                // carries exactly this lane's products.
                assert forall|k2: int, m: Map<Target, int>|
                    0 <= k2 < res@.len() && #[trigger] satisfies(*self, m) implies ext_vals(
                    m,
                    #[trigger] res@[k2],
                ) == add_many_spec(d_int, lane_products(w_int, d_int, m, *a, *b, k2)) by {
                    lemma_satisfies_extends(snap, *self, m);
                    if k2 == k {
                        lemma_satisfies_extends(b_muls, snap, m);
                        lemma_satisfies_extends(bz, b_muls, m);
                        lemma_zero_ext_vals(bz, m, zero);
                        assert forall|q2: int| 0 <= q2 < d_int implies vals_seq(
                            m,
                            lane_list@,
                        )[q2] == lane_products(w_int, d_int, m, *a, *b, k as int)[q2] by {
                            if q2 <= k {
                                lemma_nw_idx_lt(d_int, q2, k - q2, d_int);
                                let p = nw_idx(d_int, q2, k - q2);
                                assert(ext_vals(m, lane_list@[q2]) =~= ext_vals(m, muls@[p]));
                                assert(ext_vals(m, ops@[p].0) =~= ext_vals(
                                    m,
                                    a.components@[q2],
                                ));
                                assert(ext_vals(m, ops@[p].1) =~= ext_vals(
                                    m,
                                    b.components@[k - q2],
                                ));
                                assert(ext_vals(m, ops@[p].2) =~= ext_vals(m, zero));
                                assert(a.components@[q2].wf(d_int));
                                assert(b.components@[k - q2].wf(d_int));
                                lemma_madd_direct_product(
                                    w_int,
                                    ext_vals(m, a.components@[q2]),
                                    ext_vals(m, b.components@[k - q2]),
                                );
                            } else {
                                lemma_w_idx_lt(q2, k as int, d_int);
                                let p = w_idx(q2, k as int);
                                assert(ext_vals(m, lane_list@[q2]) =~= ext_vals(m, mulsw@[p]));
                                assert(ext_vals(m, opsw@[p].0) =~= ext_vals(
                                    m,
                                    a.components@[q2],
                                ));
                                assert(d_int - q2 + k == k + d_int - q2);
                                assert(ext_vals(m, opsw@[p].1) =~= ext_vals(
                                    m,
                                    b.components@[k + d_int - q2],
                                ));
                                assert(ext_vals(m, opsw@[p].2) =~= ext_vals(m, zero));
                                assert(a.components@[q2].wf(d_int));
                                assert(b.components@[k + d_int - q2].wf(d_int));
                                lemma_madd_wrapped_product(
                                    w_int,
                                    ext_vals(m, a.components@[q2]),
                                    ext_vals(m, b.components@[k + d_int - q2]),
                                );
                            }
                        }
                        assert(vals_seq(m, lane_list@) =~= lane_products(
                            w_int, d_int, m, *a, *b, k as int));
                    }
                }
            }
            k = k + 1;
        }
        ExtensionAlgebraTarget { components: res }
    }
}

/// A batched direct product with unit constants and a zero addend is
/// the plain product.
proof fn lemma_madd_direct_product(w: int, x: Seq<int>, y: Seq<int>)
    requires
        x.len() == y.len(),
        x.len() >= 1,
    ensures
        ext_madd_spec(w, 1, x, y, 1, ext_zero_spec(x.len() as int))
            == ext_mul_spec(w, x, y),
{
    let d = x.len() as int;
    crate::extension::lemma_ext_mul_in_field(w, x, y);
    lemma_ext_scale_by_one(ext_mul_spec(w, x, y));
    assert(seq_in_field(ext_zero_spec(d))) by {
        assert forall|i: int| 0 <= i < d implies 0 <= #[trigger] ext_zero_spec(d)[i] < fp()
            by {}
    }
    lemma_ext_scale_by_one(ext_zero_spec(d));
    lemma_ext_add_zero_right(ext_mul_spec(w, x, y));
}

/// A batched wrapped product with a zero addend is the scaled product.
proof fn lemma_madd_wrapped_product(w: int, x: Seq<int>, y: Seq<int>)
    requires
        x.len() == y.len(),
        x.len() >= 1,
    ensures
        ext_madd_spec(w, w, x, y, 1, ext_zero_spec(x.len() as int)) == ext_scale_spec(
            w,
            ext_mul_spec(w, x, y),
        ),
{
    let d = x.len() as int;
    crate::extension::lemma_ext_scale_in_field(w, ext_mul_spec(w, x, y));
    assert(seq_in_field(ext_zero_spec(d))) by {
        assert forall|i: int| 0 <= i < d implies 0 <= #[trigger] ext_zero_spec(d)[i] < fp()
            by {}
    }
    lemma_ext_scale_by_one(ext_zero_spec(d));
    lemma_ext_add_zero_right(ext_scale_spec(w, ext_mul_spec(w, x, y)));
}

impl ExtensionTarget {
    /// k-fold Frobenius endomorphism in-circuit: coefficient `i` is
    /// scaled by `dth_root^((k mod D) * i)`, one constant
    /// multiplication per limb; the identity powers short-circuit
    /// through the gadget layer's constant elimination.
    pub fn repeated_frobenius(&self, count: usize, builder: &mut CircuitBuilder) -> (r:
        ExtensionTarget)
        requires
            old(builder).wf(),
            self.wf(old(builder).spec_d()),
            old(builder).num_virtual + 8 * old(builder).params.d * old(builder).params.d + 8
                * old(builder).params.d <= usize::MAX,
        ensures
            final(builder).wf(),
            extends(*old(builder), *final(builder)),
            final(builder).generators@ == old(builder).generators@,
            final(builder).num_virtual <= old(builder).num_virtual + 8 * old(builder).params.d
                * old(builder).params.d + 8 * old(builder).params.d,
            r.wf(final(builder).spec_d()),
            forall|m: Map<Target, int>|
                #[trigger] satisfies(*final(builder), m) ==> ext_vals(m, r)
                    == crate::extension::ext_frobenius_spec(
                    final(builder).params.dth_root as int,
                    ext_vals(m, *self),
                    count as nat,
                ),
    {
        let ghost d_int = builder.params.d as int;
        let ghost w = builder.params.w as int;
        let ghost root = builder.params.dth_root as int;
        let d = builder.params.d;
        let kr = count % d;
        if kr == 0 {
            let r = self.clone();
            proof {
                assert forall|m: Map<Target, int>| #[trigger] satisfies(*builder, m) implies
                    ext_vals(m, r) == crate::extension::ext_frobenius_spec(
                    root,
                    ext_vals(m, *self),
                    count as nat,
                ) by {
                    let av = ext_vals(m, *self);
                    vstd::arithmetic::power::lemma_pow0(root);
                    vstd::arithmetic::div_mod::lemma_small_mod(
                        1nat, crate::field::FIELD_ORDER as nat);
                    assert forall|i: int| 0 <= i < d_int implies
                        crate::extension::ext_frobenius_spec(root, av, count as nat)[i]
                            == av[i] by {
                        assert((count as nat % av.len()) * i == 0);
                        assert(crate::field::pow_f(root, 0nat) == 1);
                        assert(0 <= m[self.limbs@[i]] < fp());
                        vstd::arithmetic::div_mod::lemma_small_mod(
                            av[i] as nat, crate::field::FIELD_ORDER as nat);
                    }
                    assert(ext_vals(m, r) =~= crate::extension::ext_frobenius_spec(
                        root, av, count as nat));
                }
            }
            return r;
        }
        proof {
            assert(2 * d_int + (4 * d_int + 4) * d_int <= 8 * d_int * d_int + 8 * d_int)
                by (nonlinear_arith)
                requires d_int >= 1;
        }
        let one = builder.one_extension();
        let zero = builder.zero_extension();
        let ghost b_start = *builder;
        let z0 = crate::field::f_pow(builder.params.dth_root, kr as u64);
        let mut z: u64 = 1;
        proof {
            vstd::arithmetic::power::lemma_pow0(root);
            vstd::arithmetic::div_mod::lemma_small_mod(1nat, crate::field::FIELD_ORDER as nat);
            assert(z as int == crate::field::pow_f(root, (kr * 0) as nat));
        }
        let mut limbs: Vec<Target> = Vec::new();
        let mut i: usize = 0;
        while i < d
            invariant
                i <= d,
                d == builder.params.d,
                d_int == d as int,
                kr == count % d,
                0 < kr < d,
                builder.wf(),
                builder.params == old(builder).params,
                w == builder.params.w as int,
                root == builder.params.dth_root as int,
                self.wf(d_int),
                one.wf(d_int),
                zero.wf(d_int),
                is_one_ext(b_start, one),
                is_zero_ext(b_start, zero),
                extends(*old(builder), *builder),
                extends(b_start, *builder),
                builder.generators@ == old(builder).generators@,
                builder.num_virtual + ((d_int - i) * 4 + 4) * d_int <= usize::MAX,
                builder.num_virtual <= old(builder).num_virtual + 2 * d_int + 4 * d_int * i,
                crate::field::in_field(z),
                crate::field::in_field(z0),
                z0 as int == crate::field::pow_f(root, kr as nat),
                z as int == crate::field::pow_f(root, (kr * i) as nat),
                limbs@.len() == i,
                forall|idx: int, m: Map<Target, int>|
                    0 <= idx < i && #[trigger] satisfies(*builder, m)
                        ==> m[#[trigger] limbs@[idx]] == crate::field::mul_f(
                        m[self.limbs@[idx]],
                        crate::field::pow_f(root, (kr * idx) as nat),
                    ),
            decreases d - i,
        {
            let ghost snap = *builder;
            proof {
                assert(((d_int - i) * 4 + 4) * d_int >= 4 * d_int) by (nonlinear_arith)
                    requires d_int - i >= 1, d_int >= 1;
                assert(((d_int - (i + 1)) * 4 + 4) * d_int + 4 * d_int <= ((d_int - i) * 4 + 4)
                    * d_int) by (nonlinear_arith)
                    requires d_int >= 1;
                assert(2 * d_int + 4 * d_int * i + 4 * d_int == 2 * d_int + 4 * d_int * (i + 1))
                    by (nonlinear_arith);
            }
            let u = builder.convert_to_ext(self.limbs[i]);
            let ghost bc = *builder;
            let s = builder.arithmetic_extension(z, 0, &u, &one, &zero);
            limbs.push(s.limbs[0]);
            let ghost z_old = z as int;
            z = crate::field::f_mul(z, z0);
            proof {
                lemma_extends_trans(*old(builder), snap, bc);
                lemma_extends_trans(*old(builder), bc, *builder);
                lemma_extends_trans(b_start, snap, bc);
                lemma_extends_trans(b_start, bc, *builder);
                // The next power of the scaling constant.
                vstd::arithmetic::power::lemma_pow_adds(root, (kr * i) as nat, kr as nat);
                vstd::arithmetic::div_mod::lemma_mul_mod_noop(
                    vstd::arithmetic::power::pow(root, (kr * i) as nat),
                    vstd::arithmetic::power::pow(root, kr as nat),
                    fp(),
                );
                assert(kr * (i + 1) == kr * i + kr) by (nonlinear_arith);
                assert(z as int == crate::field::pow_f(root, (kr * (i + 1)) as nat));
                // The fresh limb carries the scaled coefficient.
                assert forall|idx: int, m: Map<Target, int>|
                    0 <= idx < i + 1 && #[trigger] satisfies(*builder, m)
                    implies m[#[trigger] limbs@[idx]] == crate::field::mul_f(
                    m[self.limbs@[idx]],
                    crate::field::pow_f(root, (kr * idx) as nat),
                ) by {
                    lemma_satisfies_extends(bc, *builder, m);
                    lemma_satisfies_extends(snap, bc, m);
                    if idx == i {
                        let uv = ext_vals(m, u);
                        lemma_convert_vals(bc, m, self.limbs@[i as int], u);
                        lemma_one_ext_vals(snap, m, one);
                        // The product of the embedded limb with one
                        // keeps the limb at coefficient zero.
                        crate::extension::lemma_conv_one_right(w, uv, 0, uv.len());
                        let prod = ext_mul_spec(w, uv, ext_one_spec(d_int));
                        assert(prod[0] == uv[0] % fp());
                        assert(0 <= m[self.limbs@[i as int]] < fp());
                        vstd::arithmetic::div_mod::lemma_small_mod(
                            m[self.limbs@[i as int]] as nat,
                            crate::field::FIELD_ORDER as nat,
                        );
                        // Evaluate the fused identity at coefficient 0.
                        assert(ext_vals(m, s)[0] == ext_madd_spec(
                            w, z_old, uv, ext_vals(m, one), 0, ext_vals(m, zero))[0]);
                        let s0 = ext_vals(m, zero)[0];
                        vstd::arithmetic::mul::lemma_mul_basics(s0);
                        vstd::arithmetic::div_mod::lemma_small_mod(
                            0nat, crate::field::FIELD_ORDER as nat);
                        assert(prod[0] == m[self.limbs@[i as int]]);
                        assert((z_old * prod[0]) % fp() == crate::field::mul_f(
                            m[self.limbs@[i as int]], z_old)) by {
                            vstd::arithmetic::mul::lemma_mul_is_commutative(
                                z_old, m[self.limbs@[i as int]]);
                        }
                        vstd::arithmetic::div_mod::lemma_small_mod(
                            (crate::field::mul_f(m[self.limbs@[i as int]], z_old)) as nat,
                            crate::field::FIELD_ORDER as nat,
                        );
                        assert(m[limbs@[idx]] == ext_vals(m, s)[0]);
                    }
                }
            }
            i = i + 1;
        }
        let r = ExtensionTarget { limbs };
        proof {
            assert(2 * d_int + 4 * d_int * d_int <= 8 * d_int * d_int + 8 * d_int)
                by (nonlinear_arith)
                requires d_int >= 1;
            assert(4 * d_int * i <= 4 * d_int * d_int) by (nonlinear_arith)
                requires i <= d_int, d_int >= 1;
            assert forall|m: Map<Target, int>| #[trigger] satisfies(*builder, m) implies
                ext_vals(m, r) == crate::extension::ext_frobenius_spec(
                root,
                ext_vals(m, *self),
                count as nat,
            ) by {
                let av = ext_vals(m, *self);
                assert forall|idx: int| 0 <= idx < d_int implies ext_vals(m, r)[idx]
                    == crate::extension::ext_frobenius_spec(root, av, count as nat)[idx] by {
                    assert((count as nat % av.len()) as int == kr as int);
                    assert(m[limbs@[idx]] == crate::field::mul_f(
                        m[self.limbs@[idx]],
                        crate::field::pow_f(root, (kr * idx) as nat),
                    ));
                }
                assert(ext_vals(m, r) =~= crate::extension::ext_frobenius_spec(
                    root, av, count as nat));
            }
        }
        r
    }
}

/// An iterator over the powers of a base element `b` inside the
/// circuit: `b^0, b^1, b^2, ...`, one multiplication gate per emission.
pub struct PowersTarget {
    pub base: ExtensionTarget,
    pub current: ExtensionTarget,
}

impl PowersTarget {
    /// Both halves reference one wire group per coefficient.
    pub open spec fn wf(&self, d: int) -> bool {
        self.base.wf(d) && self.current.wf(d)
    }

    /// Emit the next power: returns the current value and advances the
    /// state by one multiplication with the base.
    pub fn next(&mut self, builder: &mut CircuitBuilder) -> (r: ExtensionTarget)
        requires
            old(builder).wf(),
            old(self).wf(old(builder).spec_d()),
            old(builder).num_virtual + old(builder).params.d <= usize::MAX,
        ensures
            final(builder).wf(),
            extends(*old(builder), *final(builder)),
            final(builder).generators@ == old(builder).generators@,
            final(builder).num_virtual <= old(builder).num_virtual + old(builder).params.d,
            final(self).wf(final(builder).spec_d()),
            r.limbs@ == old(self).current.limbs@,
            final(self).base.limbs@ == old(self).base.limbs@,
            forall|m: Map<Target, int>|
                #[trigger] satisfies(*final(builder), m) ==> ext_vals(m, final(self).current)
                    == ext_mul_spec(
                    final(builder).params.w as int,
                    ext_vals(m, old(self).base),
                    ext_vals(m, old(self).current),
                ),
    {
        let result = self.current.clone();
        let next_power = builder.mul_extension(&self.base, &self.current);
        self.current = next_power;
        result
    }

    /// Apply the k-fold Frobenius map to both the base and the pending
    /// value, so the powers emitted afterwards are the Frobenius
    /// images of the powers the untransformed iterator would emit.
    pub fn repeated_frobenius(self, k: usize, builder: &mut CircuitBuilder) -> (r: PowersTarget)
        requires
            old(builder).wf(),
            self.wf(old(builder).spec_d()),
            old(builder).num_virtual + 16 * old(builder).params.d * old(builder).params.d + 16
                * old(builder).params.d <= usize::MAX,
        ensures
            final(builder).wf(),
            extends(*old(builder), *final(builder)),
            final(builder).generators@ == old(builder).generators@,
            r.wf(final(builder).spec_d()),
            forall|m: Map<Target, int>|
                #[trigger] satisfies(*final(builder), m) ==> ext_vals(m, r.base)
                    == crate::extension::ext_frobenius_spec(
                    final(builder).params.dth_root as int,
                    ext_vals(m, self.base),
                    k as nat,
                ) && ext_vals(m, r.current) == crate::extension::ext_frobenius_spec(
                    final(builder).params.dth_root as int,
                    ext_vals(m, self.current),
                    k as nat,
                ),
    {
        let ghost d_int = builder.params.d as int;
        proof {
            assert(8 * d_int * d_int + 8 * d_int + 8 * d_int * d_int + 8 * d_int <= 16 * d_int
                * d_int + 16 * d_int) by (nonlinear_arith);
        }
        let new_base = self.base.repeated_frobenius(k, builder);
        let ghost snap = *builder;
        let new_current = self.current.repeated_frobenius(k, builder);
        proof {
            lemma_extends_trans(*old(builder), snap, *builder);
            assert forall|m: Map<Target, int>| #[trigger] satisfies(*builder, m) implies
                ext_vals(m, new_base) == crate::extension::ext_frobenius_spec(
                builder.params.dth_root as int,
                ext_vals(m, self.base),
                k as nat,
            ) by {
                lemma_satisfies_extends(snap, *builder, m);
            }
        }
        PowersTarget { base: new_base, current: new_current }
    }
}

impl CircuitBuilder {
    /// A powers iterator seeded at `base^0 = 1`.
    pub fn powers(&mut self, base: &ExtensionTarget) -> (r: PowersTarget)
        requires
            old(self).wf(),
            base.wf(old(self).spec_d()),
            old(self).num_virtual + old(self).params.d <= usize::MAX,
        ensures
            final(self).wf(),
            extends(*old(self), *final(self)),
            final(self).gates@ == old(self).gates@,
            final(self).generators@ == old(self).generators@,
            final(self).num_virtual <= old(self).num_virtual + old(self).params.d,
            r.wf(final(self).spec_d()),
            r.base.limbs@ == base.limbs@,
            forall|m: Map<Target, int>|
                #[trigger] satisfies(*final(self), m) ==> ext_vals(m, r.current) == ext_one_spec(
                    final(self).spec_d(),
                ),
    {
        let current = self.one_extension();
        proof {
            assert forall|m: Map<Target, int>| #[trigger] satisfies(*self, m) implies ext_vals(
                m,
                current,
            ) == ext_one_spec(self.spec_d()) by {
                lemma_one_ext_vals(*self, m, current);
            }
        }
        PowersTarget { base: base.clone(), current }
    }
}

/// Under any satisfying assignment, a converted base wire carries its
/// value at coefficient zero and zeros above.
proof fn lemma_convert_vals(
    b: CircuitBuilder,
    m: Map<Target, int>,
    a: Target,
    a_ext: ExtensionTarget,
)
    requires
        satisfies(b, m),
        a_ext.limbs@.len() == b.params.d,
        a_ext.limbs@.len() >= 1,
        a_ext.limbs@[0] == a,
        forall|j: int| 1 <= j < a_ext.limbs@.len() ==> has_const(b, a_ext.limbs@[j], 0u64),
    ensures
        ext_vals(m, a_ext) == base_embed(m[a], b.params.d as int),
{
    assert forall|j: int| 0 <= j < a_ext.limbs@.len() implies ext_vals(m, a_ext)[j]
        == base_embed(m[a], b.params.d as int)[j] by {
        if j >= 1 {
            lemma_const_value(b, m, a_ext.limbs@[j], 0u64);
        }
    }
    assert(ext_vals(m, a_ext) =~= base_embed(m[a], b.params.d as int));
}

} // verus!
