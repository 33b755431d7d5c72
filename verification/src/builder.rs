//! The circuit builder: the growing record of gate instances, copy
//! constraints, materialized constants and deferred generators, together
//! with the satisfaction relation that gives every gadget its meaning.
//!
//! A wire assignment is modelled as a total map from targets to reduced
//! field values.  `satisfies` says that an assignment honours every
//! constant, every copy constraint and both fused identities of every
//! arithmetic-extension gate; each gadget's contract then states what
//! every satisfying assignment must make of the targets it returns.

use vstd::prelude::*;

use crate::extension::{
    ext_madd_spec, ext_one_spec, ext_zero_spec, vals_of, ExtensionElement, TowerParams,
};
use crate::field::{fp, in_field, seq_in_field};
use crate::target::{ext_targets_equal, ExtensionTarget, Target};

verus! {

/// Number of D-wide wire groups in one arithmetic-extension gate row:
/// six operand groups followed by the two output groups.
pub const NUM_WIRE_GROUPS: usize = 8;

/// Wire-group offsets within one gate row.
pub const GROUP_FIRST_MULTIPLICAND_0: usize = 0;

pub const GROUP_FIRST_MULTIPLICAND_1: usize = 1;

pub const GROUP_FIRST_ADDEND: usize = 2;

pub const GROUP_SECOND_MULTIPLICAND_0: usize = 3;

pub const GROUP_SECOND_MULTIPLICAND_1: usize = 4;

pub const GROUP_SECOND_ADDEND: usize = 5;

pub const GROUP_FIRST_OUTPUT: usize = 6;

pub const GROUP_SECOND_OUTPUT: usize = 7;

/// One gate row: the two scalar parameters of its fused operations.
/// The eight D-wide wire groups are implicit in the row's layout.
pub struct GateInstance {
    pub const_0: u64,
    pub const_1: u64,
}

/// An equality constraint between two wires.
pub struct CopyConstraint {
    pub a: Target,
    pub b: Target,
}

/// A wire pinned to a compile-time constant.
pub struct ConstantSlot {
    pub target: Target,
    pub value: u64,
}

/// A deferred division: once numerator and denominator wires carry
/// values, the witness engine computes their host-algebra quotient and
/// writes it into the quotient wires.  Correctness is enforced by the
/// in-circuit constraint `quotient * denominator == numerator`, never
/// by the generator itself.
pub struct QuotientGenerator {
    pub numerator: ExtensionTarget,
    pub denominator: ExtensionTarget,
    pub quotient: ExtensionTarget,
}

/// The wire at offset `j` of group `group` in gate row `g`.
pub open spec fn wire_at(g: int, group: int, d: int, j: int) -> Target {
    Target::Wire { gate: g as usize, input: (group * d + j) as usize }
}

/// The values an assignment gives to one D-wide wire group.
pub open spec fn group_vals(m: Map<Target, int>, g: int, group: int, d: int) -> Seq<int> {
    Seq::new(d as nat, |j: int| m[wire_at(g, group, d, j)])
}

/// The values an assignment gives to an extension target.
pub open spec fn ext_vals(m: Map<Target, int>, t: ExtensionTarget) -> Seq<int> {
    t.limbs@.map_values(|tt: Target| m[tt])
}

/// Both fused identities of one gate row:
/// `out = const_0 * (m0 * m1) + const_1 * addend`, twice.
pub open spec fn gate_holds(m: Map<Target, int>, g: int, gi: GateInstance, d: int, w: int)
    -> bool {
    &&& group_vals(m, g, GROUP_FIRST_OUTPUT as int, d) == ext_madd_spec(
        w,
        gi.const_0 as int,
        group_vals(m, g, GROUP_FIRST_MULTIPLICAND_0 as int, d),
        group_vals(m, g, GROUP_FIRST_MULTIPLICAND_1 as int, d),
        gi.const_1 as int,
        group_vals(m, g, GROUP_FIRST_ADDEND as int, d),
    )
    &&& group_vals(m, g, GROUP_SECOND_OUTPUT as int, d) == ext_madd_spec(
        w,
        gi.const_0 as int,
        group_vals(m, g, GROUP_SECOND_MULTIPLICAND_0 as int, d),
        group_vals(m, g, GROUP_SECOND_MULTIPLICAND_1 as int, d),
        gi.const_1 as int,
        group_vals(m, g, GROUP_SECOND_ADDEND as int, d),
    )
}

/// An assignment defined on every target.
pub open spec fn total(m: Map<Target, int>) -> bool {
    forall|t: Target| m.dom().contains(t)
}

/// An assignment whose values are canonical field representatives.
pub open spec fn reduced(m: Map<Target, int>) -> bool {
    forall|t: Target| 0 <= #[trigger] m[t] < fp()
}

/// The builder of a circuit under construction.
pub struct CircuitBuilder {
    pub params: TowerParams,
    pub gates: Vec<GateInstance>,
    pub copies: Vec<CopyConstraint>,
    pub constants: Vec<ConstantSlot>,
    pub num_virtual: usize,
    pub generators: Vec<QuotientGenerator>,
}

/// Does the assignment satisfy every constraint recorded so far?
pub open spec fn satisfies(b: CircuitBuilder, m: Map<Target, int>) -> bool {
    &&& total(m)
    &&& reduced(m)
    &&& forall|i: int|
        0 <= i < b.constants@.len() ==> m[(#[trigger] b.constants@[i]).target]
            == b.constants@[i].value as int
    &&& forall|i: int|
        0 <= i < b.copies@.len() ==> m[(#[trigger] b.copies@[i]).a] == m[b.copies@[i].b]
    &&& forall|i: int|
        0 <= i < b.gates@.len() ==> gate_holds(
            m,
            i,
            #[trigger] b.gates@[i],
            b.params.d as int,
            b.params.w as int,
        )
}

/// `a` is an initial segment of `b`.
pub open spec fn prefix_of<T>(a: Seq<T>, b: Seq<T>) -> bool {
    a.len() <= b.len() && forall|i: int| 0 <= i < a.len() ==> a[i] == b[i]
}

/// The later builder state holds everything the earlier one held.
pub open spec fn extends(pre: CircuitBuilder, post: CircuitBuilder) -> bool {
    &&& post.params == pre.params
    &&& prefix_of(pre.gates@, post.gates@)
    &&& prefix_of(pre.copies@, post.copies@)
    &&& prefix_of(pre.constants@, post.constants@)
    &&& prefix_of(pre.generators@, post.generators@)
    &&& pre.num_virtual <= post.num_virtual
}

/// Constraints only accumulate: an assignment satisfying a later
/// builder state satisfies every earlier one.
pub proof fn lemma_satisfies_extends(pre: CircuitBuilder, post: CircuitBuilder, m: Map<
    Target,
    int,
>)
    requires
        extends(pre, post),
        satisfies(post, m),
    ensures
        satisfies(pre, m),
{
    assert forall|i: int| 0 <= i < pre.constants@.len() implies m[(#[trigger] pre.constants@[i]).target]
        == pre.constants@[i].value as int by {
        assert(pre.constants@[i] == post.constants@[i]);
    }
    assert forall|i: int| 0 <= i < pre.copies@.len() implies m[(#[trigger] pre.copies@[i]).a]
        == m[pre.copies@[i].b] by {
        assert(pre.copies@[i] == post.copies@[i]);
    }
    assert forall|i: int| 0 <= i < pre.gates@.len() implies gate_holds(
        m,
        i,
        #[trigger] pre.gates@[i],
        pre.params.d as int,
        pre.params.w as int,
    ) by {
        assert(pre.gates@[i] == post.gates@[i]);
    }
}

/// Extension is transitive.
pub proof fn lemma_extends_trans(a: CircuitBuilder, b: CircuitBuilder, c: CircuitBuilder)
    requires
        extends(a, b),
        extends(b, c),
    ensures
        extends(a, c),
{
}

/// The builder records target `t` as the constant `v`.
pub open spec fn has_const(b: CircuitBuilder, t: Target, v: u64) -> bool {
    exists|i: int|
        0 <= i < b.constants@.len() && (#[trigger] b.constants@[i]).target == t
            && b.constants@[i].value == v
}

/// Every limb of `t` is pinned to the matching coefficient of `vs`.
pub open spec fn has_const_ext(b: CircuitBuilder, t: ExtensionTarget, vs: Seq<u64>) -> bool {
    &&& t.limbs@.len() == vs.len()
    &&& forall|j: int| 0 <= j < vs.len() ==> has_const(b, t.limbs@[j], vs[j])
}

/// A recorded constant stays recorded as the builder grows.
pub proof fn lemma_has_const_extends(pre: CircuitBuilder, post: CircuitBuilder, t: Target, v: u64)
    requires
        extends(pre, post),
        has_const(pre, t, v),
    ensures
        has_const(post, t, v),
{
    let i = choose|i: int|
        0 <= i < pre.constants@.len() && (#[trigger] pre.constants@[i]).target == t
            && pre.constants@[i].value == v;
    assert(post.constants@[i] == pre.constants@[i]);
}

/// A recorded constant extension target stays recorded as the builder
/// grows.
pub proof fn lemma_has_const_ext_extends(
    pre: CircuitBuilder,
    post: CircuitBuilder,
    t: ExtensionTarget,
    vs: Seq<u64>,
)
    requires
        extends(pre, post),
        has_const_ext(pre, t, vs),
    ensures
        has_const_ext(post, t, vs),
{
    assert forall|j: int| 0 <= j < vs.len() implies has_const(post, t.limbs@[j], vs[j]) by {
        lemma_has_const_extends(pre, post, t.limbs@[j], vs[j]);
    }
}

/// Recorded constant values are canonical field representatives.
pub proof fn lemma_has_const_in_field(b: CircuitBuilder, t: Target, v: u64)
    requires
        b.wf(),
        has_const(b, t, v),
    ensures
        in_field(v),
{
    let i = choose|i: int|
        0 <= i < b.constants@.len() && (#[trigger] b.constants@[i]).target == t
            && b.constants@[i].value == v;
    assert(in_field(b.constants@[i].value));
}

/// The constant table records one wire per value: two wires pinned to
/// the same value are the same wire.
pub proof fn lemma_const_unique_by_value(b: CircuitBuilder, t1: Target, t2: Target, v: u64)
    requires
        b.wf(),
        has_const(b, t1, v),
        has_const(b, t2, v),
    ensures
        t1 == t2,
{
    let i = choose|i: int|
        0 <= i < b.constants@.len() && (#[trigger] b.constants@[i]).target == t1
            && b.constants@[i].value == v;
    let j = choose|j: int|
        0 <= j < b.constants@.len() && (#[trigger] b.constants@[j]).target == t2
            && b.constants@[j].value == v;
    if i != j {
        if i < j {
            assert(b.constants@[i].value != b.constants@[j].value);
        } else {
            assert(b.constants@[j].value != b.constants@[i].value);
        }
    }
}

/// The constant table records one value per wire: a wire pinned to two
/// values carries the same value twice.
pub proof fn lemma_const_unique_by_target(b: CircuitBuilder, t: Target, v1: u64, v2: u64)
    requires
        b.wf(),
        has_const(b, t, v1),
        has_const(b, t, v2),
    ensures
        v1 == v2,
{
    let i = choose|i: int|
        0 <= i < b.constants@.len() && (#[trigger] b.constants@[i]).target == t
            && b.constants@[i].value == v1;
    let j = choose|j: int|
        0 <= j < b.constants@.len() && (#[trigger] b.constants@[j]).target == t
            && b.constants@[j].value == v2;
    if i != j {
        if i < j {
            assert(b.constants@[i].target != b.constants@[j].target);
        } else {
            assert(b.constants@[j].target != b.constants@[i].target);
        }
    }
}

/// Under any satisfying assignment a recorded constant carries its value.
pub proof fn lemma_const_value(b: CircuitBuilder, m: Map<Target, int>, t: Target, v: u64)
    requires
        satisfies(b, m),
        has_const(b, t, v),
    ensures
        m[t] == v as int,
{
    let i = choose|i: int|
        0 <= i < b.constants@.len() && (#[trigger] b.constants@[i]).target == t
            && b.constants@[i].value == v;
    assert(m[b.constants@[i].target] == b.constants@[i].value as int);
}

/// Under any satisfying assignment a constant extension target carries
/// its coefficient vector.
pub proof fn lemma_const_ext_value(
    b: CircuitBuilder,
    m: Map<Target, int>,
    t: ExtensionTarget,
    vs: Seq<u64>,
)
    requires
        satisfies(b, m),
        has_const_ext(b, t, vs),
    ensures
        ext_vals(m, t) == vals_of(vs),
{
    assert forall|j: int| 0 <= j < vs.len() implies ext_vals(m, t)[j] == vals_of(vs)[j] by {
        lemma_const_value(b, m, t.limbs@[j], vs[j]);
    }
    assert(ext_vals(m, t) =~= vals_of(vs));
}

impl CircuitBuilder {
    /// Structural validity: a sound descriptor, canonical constant
    /// values, and a constant table that is injective in both
    /// directions and backed by allocated virtual wires.
    pub open spec fn wf(&self) -> bool {
        &&& self.params.wf()
        &&& forall|i: int|
            0 <= i < self.gates@.len() ==> in_field((#[trigger] self.gates@[i]).const_0)
                && in_field(self.gates@[i].const_1)
        &&& forall|i: int|
            0 <= i < self.constants@.len() ==> in_field((#[trigger] self.constants@[i]).value)
        &&& forall|i: int|
            0 <= i < self.constants@.len() ==> ((#[trigger] self.constants@[i]).target matches
                Target::Virtual { index } && index < self.num_virtual)
        &&& forall|i: int, j: int|
            0 <= i < j < self.constants@.len() ==> (#[trigger] self.constants@[i]).target
                != (#[trigger] self.constants@[j]).target && self.constants@[i].value
                != self.constants@[j].value
    }

    /// The extension degree of the tower being built over.
    pub open spec fn spec_d(&self) -> int {
        self.params.d as int
    }

    /// A fresh builder over the given tower.
    pub fn new(params: TowerParams) -> (r: CircuitBuilder)
        requires
            params.wf(),
        ensures
            r.wf(),
            r.params == params,
            r.gates@.len() == 0,
            r.copies@.len() == 0,
            r.constants@.len() == 0,
            r.generators@.len() == 0,
            r.num_virtual == 0,
    {
        CircuitBuilder {
            params,
            gates: Vec::new(),
            copies: Vec::new(),
            constants: Vec::new(),
            num_virtual: 0,
            generators: Vec::new(),
        }
    }

    /// How many gate rows have been laid down.
    pub fn num_gates(&self) -> (r: usize)
        ensures
            r == self.gates@.len(),
    {
        self.gates.len()
    }

    /// Allocate one fresh virtual wire.
    pub fn add_virtual_target(&mut self) -> (r: Target)
        requires
            old(self).wf(),
            old(self).num_virtual < usize::MAX,
        ensures
            final(self).wf(),
            extends(*old(self), *final(self)),
            final(self).gates@ == old(self).gates@,
            final(self).copies@ == old(self).copies@,
            final(self).constants@ == old(self).constants@,
            final(self).generators@ == old(self).generators@,
            final(self).num_virtual == old(self).num_virtual + 1,
            r == (Target::Virtual { index: old(self).num_virtual }),
    {
        let idx = self.num_virtual;
        self.num_virtual = idx + 1;
        Target::Virtual { index: idx }
    }

    /// Allocate D fresh virtual wires as one extension target.
    pub fn add_virtual_extension_target(&mut self) -> (r: ExtensionTarget)
        requires
            old(self).wf(),
            old(self).num_virtual + old(self).params.d <= usize::MAX,
        ensures
            final(self).wf(),
            extends(*old(self), *final(self)),
            final(self).gates@ == old(self).gates@,
            final(self).copies@ == old(self).copies@,
            final(self).constants@ == old(self).constants@,
            final(self).generators@ == old(self).generators@,
            final(self).num_virtual == old(self).num_virtual + old(self).params.d,
            r.wf(final(self).spec_d()),
    {
        let d = self.params.d;
        let mut limbs: Vec<Target> = Vec::new();
        let mut j: usize = 0;
        while j < d
            invariant
                j <= d,
                d == self.params.d,
                self.wf(),
                self.num_virtual == old(self).num_virtual + j,
                self.num_virtual + (d - j) <= usize::MAX,
                limbs@.len() == j,
                self.gates@ == old(self).gates@,
                self.copies@ == old(self).copies@,
                self.constants@ == old(self).constants@,
                self.generators@ == old(self).generators@,
                self.params == old(self).params,
            decreases d - j,
        {
            let t = self.add_virtual_target();
            limbs.push(t);
            j = j + 1;
        }
        ExtensionTarget { limbs }
    }

    /// Allocate `n` fresh extension targets.
    pub fn add_virtual_extension_targets(&mut self, n: usize) -> (r: Vec<ExtensionTarget>)
        requires
            old(self).wf(),
            old(self).num_virtual + n * old(self).params.d <= usize::MAX,
        ensures
            final(self).wf(),
            extends(*old(self), *final(self)),
            final(self).gates@ == old(self).gates@,
            final(self).copies@ == old(self).copies@,
            final(self).constants@ == old(self).constants@,
            final(self).generators@ == old(self).generators@,
            r@.len() == n,
            forall|i: int| 0 <= i < n ==> (#[trigger] r@[i]).wf(final(self).spec_d()),
    {
        let ghost d_int = self.params.d as int;
        let mut out: Vec<ExtensionTarget> = Vec::new();
        let mut i: usize = 0;
        while i < n
            invariant
                i <= n,
                self.wf(),
                self.params == old(self).params,
                d_int == self.params.d as int,
                d_int >= 1,
                self.num_virtual + (n - i) * d_int <= usize::MAX,
                self.gates@ == old(self).gates@,
                self.copies@ == old(self).copies@,
                self.constants@ == old(self).constants@,
                self.generators@ == old(self).generators@,
                old(self).num_virtual <= self.num_virtual,
                out@.len() == i,
                forall|j: int| 0 <= j < i ==> (#[trigger] out@[j]).wf(d_int),
            decreases n - i,
        {
            proof {
                assert((n - i) * d_int >= 1 * d_int) by (nonlinear_arith)
                    requires n - i >= 1, d_int >= 1;
                assert((n - i) * d_int == d_int + (n - (i + 1)) * d_int) by (nonlinear_arith);
            }
            let t = self.add_virtual_extension_target();
            out.push(t);
            i = i + 1;
        }
        out
    }

    /// The wire recorded for a constant value, if one exists yet.
    fn lookup_constant_by_value(&self, v: u64) -> (r: Option<Target>)
        requires
            self.wf(),
        ensures
            r is Some ==> has_const(*self, r->Some_0, v),
            r is None ==> forall|t: Target| !has_const(*self, t, v),
    {
        let n = self.constants.len();
        let mut i: usize = 0;
        while i < n
            invariant
                i <= n,
                n == self.constants@.len(),
                self.wf(),
                forall|j: int| 0 <= j < i ==> (#[trigger] self.constants@[j]).value != v,
            decreases n - i,
        {
            if self.constants[i].value == v {
                return Some(self.constants[i].target);
            }
            i = i + 1;
        }
        None
    }

    /// The constant value a wire is pinned to, if any.
    pub fn target_as_constant(&self, t: Target) -> (r: Option<u64>)
        requires
            self.wf(),
        ensures
            r is Some ==> has_const(*self, t, r->Some_0),
            r is None ==> forall|v: u64| !has_const(*self, t, v),
    {
        let n = self.constants.len();
        let mut i: usize = 0;
        while i < n
            invariant
                i <= n,
                n == self.constants@.len(),
                self.wf(),
                forall|j: int| 0 <= j < i ==> (#[trigger] self.constants@[j]).target != t,
            decreases n - i,
        {
            if self.constants[i].target == t {
                return Some(self.constants[i].value);
            }
            i = i + 1;
        }
        None
    }

    /// The constant coefficient vector a whole extension target is
    /// pinned to, if every one of its wires is.
    pub fn target_as_constant_ext(&self, t: &ExtensionTarget) -> (r: Option<Vec<u64>>)
        requires
            self.wf(),
            t.wf(self.spec_d()),
        ensures
            r is Some ==> has_const_ext(*self, *t, r->Some_0@) && seq_in_field(
                vals_of(r->Some_0@),
            ),
            r is None ==> forall|vs: Seq<u64>| !has_const_ext(*self, *t, vs),
    {
        let d = self.params.d;
        let mut out: Vec<u64> = Vec::new();
        let mut j: usize = 0;
        while j < d
            invariant
                j <= d,
                d == self.params.d,
                self.wf(),
                t.wf(d as int),
                out@.len() == j,
                forall|i: int| 0 <= i < j ==> has_const(*self, t.limbs@[i], out@[i]),
                forall|i: int| 0 <= i < j ==> in_field(out@[i]),
            decreases d - j,
        {
            match self.target_as_constant(t.limbs[j]) {
                Some(v) => {
                    proof {
                        let ci = choose|ci: int|
                            0 <= ci < self.constants@.len()
                                && (#[trigger] self.constants@[ci]).target == t.limbs@[j as int]
                                && self.constants@[ci].value == v;
                        assert(in_field(self.constants@[ci].value));
                    }
                    out.push(v);
                },
                None => {
                    proof {
                        assert forall|vs: Seq<u64>| !has_const_ext(*self, *t, vs) by {
                            if has_const_ext(*self, *t, vs) {
                                assert(has_const(*self, t.limbs@[j as int], vs[j as int]));
                            }
                        }
                    }
                    return None;
                },
            }
            j = j + 1;
        }
        proof {
            assert forall|i: int| 0 <= i < vals_of(out@).len() implies 0 <= #[trigger] vals_of(
                out@,
            )[i] < fp() by {
                assert(in_field(out@[i]));
            }
        }
        Some(out)
    }

    /// The wire carrying constant `v`, reusing the one already
    /// materialized for this value when there is one.
    pub fn constant(&mut self, v: u64) -> (r: Target)
        requires
            old(self).wf(),
            in_field(v),
            old(self).num_virtual < usize::MAX,
        ensures
            final(self).wf(),
            extends(*old(self), *final(self)),
            final(self).gates@ == old(self).gates@,
            final(self).copies@ == old(self).copies@,
            final(self).generators@ == old(self).generators@,
            final(self).num_virtual <= old(self).num_virtual + 1,
            has_const(*final(self), r, v),
    {
        match self.lookup_constant_by_value(v) {
            Some(t) => t,
            None => {
                let ghost pre = *self;
                let t = self.add_virtual_target();
                self.constants.push(ConstantSlot { target: t, value: v });
                proof {
                    let n = self.constants@.len() - 1;
                    assert(self.constants@[n].target == t && self.constants@[n].value == v);
                    assert forall|i: int, j: int| 0 <= i < j < self.constants@.len() implies
                        (#[trigger] self.constants@[i]).target
                            != (#[trigger] self.constants@[j]).target && self.constants@[i].value
                            != self.constants@[j].value by {
                        if j == n {
                            assert(self.constants@[i] == pre.constants@[i]);
                            assert(!has_const(pre, self.constants@[i].target, v)
                                ==> self.constants@[i].value != v) by {
                                if self.constants@[i].value == v {
                                    assert(has_const(pre, pre.constants@[i].target, v));
                                }
                            }
                        }
                    }
                }
                t
            },
        }
    }

    /// The extension target carrying a constant coefficient vector.
    pub fn constant_extension(&mut self, vals: &Vec<u64>) -> (r: ExtensionTarget)
        requires
            old(self).wf(),
            vals@.len() == old(self).params.d,
            seq_in_field(vals_of(vals@)),
            old(self).num_virtual + old(self).params.d <= usize::MAX,
        ensures
            final(self).wf(),
            extends(*old(self), *final(self)),
            final(self).gates@ == old(self).gates@,
            final(self).copies@ == old(self).copies@,
            final(self).generators@ == old(self).generators@,
            final(self).num_virtual <= old(self).num_virtual + old(self).params.d,
            r.wf(final(self).spec_d()),
            has_const_ext(*final(self), r, vals@),
    {
        let d = self.params.d;
        let mut limbs: Vec<Target> = Vec::new();
        let mut j: usize = 0;
        while j < d
            invariant
                j <= d,
                d == self.params.d,
                self.wf(),
                self.params == old(self).params,
                vals@.len() == d,
                seq_in_field(vals_of(vals@)),
                self.num_virtual + (d - j) <= usize::MAX,
                self.num_virtual <= old(self).num_virtual + j,
                extends(*old(self), *self),
                self.gates@ == old(self).gates@,
                self.copies@ == old(self).copies@,
                self.generators@ == old(self).generators@,
                limbs@.len() == j,
                forall|i: int| 0 <= i < j ==> has_const(*self, limbs@[i], vals@[i]),
            decreases d - j,
        {
            let ghost pre = *self;
            proof {
                assert(0 <= vals_of(vals@)[j as int] < fp());
            }
            let t = self.constant(vals[j]);
            limbs.push(t);
            proof {
                assert forall|i: int| 0 <= i < j + 1 implies has_const(
                    *self,
                    limbs@[i],
                    vals@[i],
                ) by {
                    if i < j {
                        let ci = choose|ci: int|
                            0 <= ci < pre.constants@.len()
                                && (#[trigger] pre.constants@[ci]).target == limbs@[i]
                                && pre.constants@[ci].value == vals@[i];
                        assert(self.constants@[ci] == pre.constants@[ci]);
                    }
                }
            }
            j = j + 1;
        }
        ExtensionTarget { limbs }
    }

    /// The canonical in-circuit zero of the extension field.
    pub fn zero_extension(&mut self) -> (r: ExtensionTarget)
        requires
            old(self).wf(),
            old(self).num_virtual + old(self).params.d <= usize::MAX,
        ensures
            final(self).wf(),
            extends(*old(self), *final(self)),
            final(self).gates@ == old(self).gates@,
            final(self).copies@ == old(self).copies@,
            final(self).generators@ == old(self).generators@,
            final(self).num_virtual <= old(self).num_virtual + old(self).params.d,
            r.wf(final(self).spec_d()),
            is_zero_ext(*final(self), r),
    {
        let d = self.params.d;
        let mut zeros: Vec<u64> = Vec::new();
        let mut j: usize = 0;
        while j < d
            invariant
                j <= d,
                zeros@.len() == j,
                forall|i: int| 0 <= i < j ==> zeros@[i] == 0u64,
            decreases d - j,
        {
            zeros.push(0);
            j = j + 1;
        }
        proof {
            assert forall|i: int| 0 <= i < zeros@.len() implies 0 <= #[trigger] vals_of(
                zeros@,
            )[i] < fp() by {
                assert(zeros@[i] == 0u64);
            }
        }
        let r = self.constant_extension(&zeros);
        proof {
            assert forall|i: int| 0 <= i < r.limbs@.len() implies has_const(
                *self,
                r.limbs@[i],
                0u64,
            ) by {
                assert(has_const(*self, r.limbs@[i], zeros@[i]));
                assert(zeros@[i] == 0u64);
            }
        }
        r
    }

    /// The canonical in-circuit one of the extension field.
    pub fn one_extension(&mut self) -> (r: ExtensionTarget)
        requires
            old(self).wf(),
            old(self).num_virtual + old(self).params.d <= usize::MAX,
        ensures
            final(self).wf(),
            extends(*old(self), *final(self)),
            final(self).gates@ == old(self).gates@,
            final(self).copies@ == old(self).copies@,
            final(self).generators@ == old(self).generators@,
            final(self).num_virtual <= old(self).num_virtual + old(self).params.d,
            r.wf(final(self).spec_d()),
            is_one_ext(*final(self), r),
    {
        let d = self.params.d;
        let mut ones: Vec<u64> = Vec::new();
        ones.push(1);
        let mut j: usize = 1;
        while j < d
            invariant
                1 <= j <= d || (j == 1 && d == 0),
                ones@.len() == j,
                ones@[0] == 1u64,
                forall|i: int| 1 <= i < j ==> ones@[i] == 0u64,
            decreases d - j,
        {
            ones.push(0);
            j = j + 1;
        }
        let r = self.constant_extension(&ones);
        proof {
            assert(has_const(*self, r.limbs@[0], ones@[0]));
            assert(ones@[0] == 1u64);
            assert forall|i: int| 1 <= i < r.limbs@.len() implies has_const(
                *self,
                r.limbs@[i],
                0u64,
            ) by {
                assert(has_const(*self, r.limbs@[i], ones@[i]));
                assert(ones@[i] == 0u64);
            }
        }
        r
    }

    /// Spread a single base-field wire into an extension target whose
    /// higher coefficients are the constant zero.
    pub fn convert_to_ext(&mut self, t: Target) -> (r: ExtensionTarget)
        requires
            old(self).wf(),
            old(self).num_virtual + old(self).params.d <= usize::MAX,
        ensures
            final(self).wf(),
            extends(*old(self), *final(self)),
            final(self).gates@ == old(self).gates@,
            final(self).copies@ == old(self).copies@,
            final(self).generators@ == old(self).generators@,
            final(self).num_virtual <= old(self).num_virtual + old(self).params.d,
            r.wf(final(self).spec_d()),
            r.limbs@[0] == t,
            forall|j: int| 1 <= j < final(self).spec_d() ==> has_const(
                *final(self),
                r.limbs@[j],
                0u64,
            ),
    {
        let d = self.params.d;
        let mut limbs: Vec<Target> = Vec::new();
        limbs.push(t);
        let mut j: usize = 1;
        while j < d
            invariant
                1 <= j <= d || (j == 1 && d == 0),
                d == self.params.d,
                self.wf(),
                self.params == old(self).params,
                self.num_virtual + (d - j) <= usize::MAX,
                self.num_virtual <= old(self).num_virtual + j,
                extends(*old(self), *self),
                self.gates@ == old(self).gates@,
                self.copies@ == old(self).copies@,
                self.generators@ == old(self).generators@,
                limbs@.len() == j,
                limbs@[0] == t,
                forall|i: int| 1 <= i < j ==> has_const(*self, limbs@[i], 0u64),
            decreases d - j,
        {
            let ghost pre = *self;
            let z = self.constant(0);
            limbs.push(z);
            proof {
                assert forall|i: int| 1 <= i < j + 1 implies has_const(
                    *self,
                    limbs@[i],
                    0u64,
                ) by {
                    if i < j {
                        let ci = choose|ci: int|
                            0 <= ci < pre.constants@.len()
                                && (#[trigger] pre.constants@[ci]).target == limbs@[i]
                                && pre.constants@[ci].value == 0u64;
                        assert(self.constants@[ci] == pre.constants@[ci]);
                    }
                }
            }
            j = j + 1;
        }
        ExtensionTarget { limbs }
    }

    /// The extension target covering one D-wide wire group of a gate row.
    pub fn wire_range_target(&self, gate: usize, group: usize) -> (r: ExtensionTarget)
        requires
            self.wf(),
            group < NUM_WIRE_GROUPS,
        ensures
            r.wf(self.spec_d()),
            forall|j: int|
                0 <= j < self.spec_d() ==> r.limbs@[j] == wire_at(
                    gate as int,
                    group as int,
                    self.spec_d(),
                    j,
                ),
            forall|m: Map<Target, int>|
                ext_vals(m, r) =~= group_vals(m, gate as int, group as int, self.spec_d()),
    {
        let d = self.params.d;
        let start = group * d;
        let mut limbs: Vec<Target> = Vec::new();
        let mut j: usize = 0;
        while j < d
            invariant
                j <= d,
                d == self.params.d,
                d <= 65536,
                group < 8,
                start == group * d,
                limbs@.len() == j,
                forall|i: int|
                    0 <= i < j ==> limbs@[i] == (Target::Wire {
                        gate,
                        input: (start + i) as usize,
                    }),
            decreases d - j,
        {
            limbs.push(Target::Wire { gate, input: start + j });
            j = j + 1;
        }
        let r = ExtensionTarget { limbs };
        proof {
            assert forall|j: int| 0 <= j < d implies r.limbs@[j] == wire_at(
                gate as int,
                group as int,
                d as int,
                j,
            ) by {
                assert(group * d + j == start + j);
            }
        }
        r
    }

    /// Record limb-wise copy constraints making `src` and `dst` equal
    /// under every satisfying assignment.
    pub fn route_extension(&mut self, src: &ExtensionTarget, dst: &ExtensionTarget)
        requires
            old(self).wf(),
            src.wf(old(self).spec_d()),
            dst.wf(old(self).spec_d()),
        ensures
            final(self).wf(),
            extends(*old(self), *final(self)),
            final(self).gates@ == old(self).gates@,
            final(self).constants@ == old(self).constants@,
            final(self).generators@ == old(self).generators@,
            final(self).num_virtual == old(self).num_virtual,
            forall|m: Map<Target, int>|
                #[trigger] satisfies(*final(self), m) ==> ext_vals(m, *src) == ext_vals(m, *dst),
    {
        let d = self.params.d;
        let mut j: usize = 0;
        while j < d
            invariant
                j <= d,
                d == self.params.d,
                self.wf(),
                self.params == old(self).params,
                src.wf(d as int),
                dst.wf(d as int),
                extends(*old(self), *self),
                self.gates@ == old(self).gates@,
                self.constants@ == old(self).constants@,
                self.generators@ == old(self).generators@,
                self.num_virtual == old(self).num_virtual,
                self.copies@.len() == old(self).copies@.len() + j,
                forall|i: int|
                    0 <= i < j ==> self.copies@[old(self).copies@.len() + i]
                        == (CopyConstraint { a: src.limbs@[i], b: dst.limbs@[i] }),
            decreases d - j,
        {
            self.copies.push(CopyConstraint { a: src.limbs[j], b: dst.limbs[j] });
            j = j + 1;
        }
        proof {
            let post = *self;
            let base = old(self).copies@.len() as int;
            assert forall|m: Map<Target, int>| #[trigger] satisfies(post, m) implies ext_vals(
                m,
                *src,
            ) == ext_vals(m, *dst) by {
                assert forall|i: int| 0 <= i < d implies ext_vals(m, *src)[i] == ext_vals(
                    m,
                    *dst,
                )[i] by {
                    assert(post.copies@[base + i].a == src.limbs@[i]);
                    assert(post.copies@[base + i].b == dst.limbs@[i]);
                    assert(m[post.copies@[base + i].a] == m[post.copies@[base + i].b]);
                }
                assert(ext_vals(m, *src) =~= ext_vals(m, *dst));
            }
        }
    }

    /// Constrain two extension targets to be equal.
    pub fn assert_equal_extension(&mut self, a: &ExtensionTarget, b: &ExtensionTarget)
        requires
            old(self).wf(),
            a.wf(old(self).spec_d()),
            b.wf(old(self).spec_d()),
        ensures
            final(self).wf(),
            extends(*old(self), *final(self)),
            final(self).gates@ == old(self).gates@,
            final(self).constants@ == old(self).constants@,
            final(self).generators@ == old(self).generators@,
            final(self).num_virtual == old(self).num_virtual,
            forall|m: Map<Target, int>|
                #[trigger] satisfies(*final(self), m) ==> ext_vals(m, *a) == ext_vals(m, *b),
    {
        self.route_extension(a, b);
    }

    /// Register a deferred quotient computation.
    pub fn add_generator(&mut self, g: QuotientGenerator)
        requires
            old(self).wf(),
        ensures
            final(self).wf(),
            extends(*old(self), *final(self)),
            final(self).gates@ == old(self).gates@,
            final(self).copies@ == old(self).copies@,
            final(self).constants@ == old(self).constants@,
            final(self).num_virtual == old(self).num_virtual,
            final(self).generators@ == old(self).generators@.push(g),
    {
        self.generators.push(g);
    }
}

/// `t` is the canonical all-zero constant extension target.
pub open spec fn is_zero_ext(b: CircuitBuilder, t: ExtensionTarget) -> bool {
    &&& t.limbs@.len() == b.params.d
    &&& forall|j: int| 0 <= j < t.limbs@.len() ==> has_const(b, t.limbs@[j], 0u64)
}

/// `t` is the canonical unit constant extension target.
pub open spec fn is_one_ext(b: CircuitBuilder, t: ExtensionTarget) -> bool {
    &&& t.limbs@.len() == b.params.d
    &&& t.limbs@.len() >= 1
    &&& has_const(b, t.limbs@[0], 1u64)
    &&& forall|j: int| 1 <= j < t.limbs@.len() ==> has_const(b, t.limbs@[j], 0u64)
}

/// Under any satisfying assignment the canonical zero target carries
/// the zero vector.
pub proof fn lemma_zero_ext_vals(b: CircuitBuilder, m: Map<Target, int>, t: ExtensionTarget)
    requires
        satisfies(b, m),
        is_zero_ext(b, t),
    ensures
        ext_vals(m, t) == ext_zero_spec(b.params.d as int),
{
    assert forall|j: int| 0 <= j < t.limbs@.len() implies ext_vals(m, t)[j] == 0 by {
        lemma_const_value(b, m, t.limbs@[j], 0u64);
    }
    assert(ext_vals(m, t) =~= ext_zero_spec(b.params.d as int));
}

/// Under any satisfying assignment the canonical one target carries
/// the unit vector.
pub proof fn lemma_one_ext_vals(b: CircuitBuilder, m: Map<Target, int>, t: ExtensionTarget)
    requires
        satisfies(b, m),
        is_one_ext(b, t),
    ensures
        ext_vals(m, t) == ext_one_spec(b.params.d as int),
{
    lemma_const_value(b, m, t.limbs@[0], 1u64);
    assert forall|j: int| 1 <= j < t.limbs@.len() implies ext_vals(m, t)[j] == 0 by {
        lemma_const_value(b, m, t.limbs@[j], 0u64);
    }
    assert(ext_vals(m, t) =~= ext_one_spec(b.params.d as int));
}

} // verus!
