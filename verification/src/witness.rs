//! Witness-side machinery: partial wire assignments, the deferred
//! quotient generator, a satisfaction checker holding an assignment to
//! every recorded constraint, and a simple resolution engine that
//! fills a witness by propagating constants, copies, gate outputs and
//! generator results until nothing changes.

use vstd::prelude::*;

use crate::builder::{
    ext_vals, gate_holds, group_vals, satisfies, wire_at, CircuitBuilder, QuotientGenerator,
    GROUP_FIRST_ADDEND, GROUP_FIRST_MULTIPLICAND_0, GROUP_FIRST_MULTIPLICAND_1,
    GROUP_FIRST_OUTPUT, GROUP_SECOND_ADDEND, GROUP_SECOND_MULTIPLICAND_0,
    GROUP_SECOND_MULTIPLICAND_1, GROUP_SECOND_OUTPUT, NUM_WIRE_GROUPS,
};
use crate::extension::{
    ext_madd_spec, ext_zero_spec, vals_of, ExtensionElement, TowerParams,
};
use crate::gadgets::div_result_ok;
use crate::field::{fp, in_field};
use crate::target::{ExtensionTarget, Target};

verus! {

/// The first value recorded for a target, scanning from the front.
pub open spec fn pw_lookup(entries: Seq<(Target, u64)>, t: Target) -> Option<u64>
    decreases entries.len(),
{
    if entries.len() == 0 {
        None
    } else if entries[0].0 == t {
        Some(entries[0].1)
    } else {
        pw_lookup(entries.drop_first(), t)
    }
}

/// A partial assignment of field values to wires.
pub struct PartialWitness {
    pub entries: Vec<(Target, u64)>,
}

impl PartialWitness {
    /// Recorded values are canonical field representatives.
    pub open spec fn wf(&self) -> bool {
        forall|i: int| 0 <= i < self.entries@.len() ==> in_field((#[trigger] self.entries@[i]).1)
    }

    /// The total assignment this witness completes to: unassigned
    /// wires read as zero.
    pub open spec fn total_map(&self) -> Map<Target, int> {
        Map::new(
            |t: Target| true,
            |t: Target|
                match pw_lookup(self.entries@, t) {
                    Some(v) => v as int,
                    None => 0int,
                },
        )
    }

    /// An empty witness.
    pub fn new() -> (r: PartialWitness)
        ensures
            r.wf(),
            r.entries@.len() == 0,
    {
        PartialWitness { entries: Vec::new() }
    }

    /// The value recorded for a wire, if any.
    pub fn get(&self, t: Target) -> (r: Option<u64>)
        ensures
            r == pw_lookup(self.entries@, t),
    {
        let n = self.entries.len();
        let mut i: usize = 0;
        proof {
            assert(self.entries@.skip(0) =~= self.entries@);
        }
        while i < n
            invariant
                i <= n,
                n == self.entries@.len(),
                pw_lookup(self.entries@, t) == pw_lookup(self.entries@.skip(i as int), t),
            decreases n - i,
        {
            let ghost pre = self.entries@.skip(i as int);
            if self.entries[i].0 == t {
                proof {
                    assert(pre[0] == self.entries@[i as int]);
                }
                return Some(self.entries[i].1);
            }
            proof {
                assert(pre[0] == self.entries@[i as int]);
                assert(pre.drop_first() =~= self.entries@.skip(i + 1));
            }
            i = i + 1;
        }
        proof {
            assert(self.entries@.skip(n as int).len() == 0);
        }
        None
    }

    /// Record a value for a wire.  A wire already carrying a value is
    /// left untouched: generators run at most once and never overwrite.
    pub fn set(&mut self, t: Target, v: u64)
        requires
            old(self).wf(),
            in_field(v),
        ensures
            final(self).wf(),
            pw_lookup(final(self).entries@, t) == if pw_lookup(old(self).entries@, t) is Some {
                pw_lookup(old(self).entries@, t)
            } else {
                Some(v)
            },
            forall|t2: Target|
                t2 != t ==> pw_lookup(final(self).entries@, t2) == pw_lookup(
                    old(self).entries@,
                    t2,
                ),
    {
        match self.get(t) {
            Some(_) => {
            },
            None => {
                let ghost pre = self.entries@;
                self.entries.push((t, v));
                proof {
                    assert forall|t2: Target| true implies pw_lookup(
                        self.entries@,
                        t2,
                    ) == if t2 == t {
                        Some(v)
                    } else {
                        pw_lookup(pre, t2)
                    } by {
                        lemma_pw_lookup_push(pre, t, v, t2);
                    }
                }
            },
        }
    }

    /// The coefficient vector an extension target carries, when every
    /// one of its wires is assigned.
    pub fn get_extension_target(&self, t: &ExtensionTarget) -> (r: Option<Vec<u64>>)
        ensures
            r is Some ==> r->Some_0@.len() == t.limbs@.len() && forall|j: int|
                0 <= j < t.limbs@.len() ==> pw_lookup(self.entries@, t.limbs@[j]) == Some(
                    r->Some_0@[j],
                ),
            r is None ==> exists|j: int|
                0 <= j < t.limbs@.len() && pw_lookup(self.entries@, #[trigger] t.limbs@[j])
                    is None,
    {
        let n = t.limbs.len();
        let mut out: Vec<u64> = Vec::new();
        let mut j: usize = 0;
        while j < n
            invariant
                j <= n,
                n == t.limbs@.len(),
                out@.len() == j,
                forall|i: int|
                    0 <= i < j ==> pw_lookup(self.entries@, t.limbs@[i]) == Some(out@[i]),
            decreases n - j,
        {
            match self.get(t.limbs[j]) {
                Some(v) => {
                    out.push(v);
                },
                None => {
                    return None;
                },
            }
            j = j + 1;
        }
        Some(out)
    }

    /// Write a coefficient vector into an extension target's wires:
    /// afterwards every wire of the target is assigned; a wire that
    /// already carried a value keeps it, any other receives the
    /// coefficient of its first occurrence; all other wires are
    /// untouched.
    pub fn set_extension_target(&mut self, t: &ExtensionTarget, values: &Vec<u64>)
        requires
            old(self).wf(),
            values@.len() == t.limbs@.len(),
            crate::field::seq_in_field(vals_of(values@)),
        ensures
            final(self).wf(),
            pw_extends(old(self).entries@, final(self).entries@),
            wrote_vector(old(self).entries@, final(self).entries@, t.limbs@, values@),
    {
        let ghost start = self.entries@;
        let mut j: usize = 0;
        while j < t.limbs.len()
            invariant
                j <= t.limbs@.len(),
                values@.len() == t.limbs@.len(),
                crate::field::seq_in_field(vals_of(values@)),
                self.wf(),
                pw_extends(start, self.entries@),
                forall|k: int|
                    0 <= k < j ==> pw_lookup(self.entries@, #[trigger] t.limbs@[k]) is Some,
                forall|k: int|
                    0 <= k < j && (forall|k2: int| 0 <= k2 < k ==> t.limbs@[k2] != t.limbs@[k])
                        ==> pw_lookup(self.entries@, #[trigger] t.limbs@[k]) == (if pw_lookup(
                        start,
                        t.limbs@[k],
                    ) is Some {
                        pw_lookup(start, t.limbs@[k])
                    } else {
                        Some(values@[k])
                    }),
                forall|t2: Target|
                    (forall|k: int| 0 <= k < j ==> t.limbs@[k] != t2) ==> pw_lookup(
                        self.entries@,
                        t2,
                    ) == pw_lookup(start, t2),
            decreases t.limbs@.len() - j,
        {
            proof {
                assert(0 <= vals_of(values@)[j as int] < fp());
            }
            let ghost pre = self.entries@;
            self.set(t.limbs[j], values[j]);
            proof {
                lemma_pw_extends_after_set(start, pre, self.entries@);
                let cur = t.limbs@[j as int];
                // A wire untouched so far carries its starting value,
                // so a first occurrence receives exactly its
                // coefficient.
                if forall|k2: int| 0 <= k2 < j ==> t.limbs@[k2] != cur {
                    assert(pw_lookup(pre, cur) == pw_lookup(start, cur));
                }
            }
            j = j + 1;
        }
    }
}

/// Appending an entry changes only the lookups of its own wire, and
/// those only when the wire was unassigned.
proof fn lemma_pw_lookup_push(entries: Seq<(Target, u64)>, t: Target, v: u64, t2: Target)
    requires
        pw_lookup(entries, t) is None,
    ensures
        pw_lookup(entries.push((t, v)), t2) == if t2 == t {
            Some(v)
        } else {
            pw_lookup(entries, t2)
        },
    decreases entries.len(),
{
    if entries.len() == 0 {
        assert(entries.push((t, v))[0] == (t, v));
        if t2 != t {
            assert(entries.push((t, v)).drop_first() =~= entries);
        }
    } else {
        assert(entries.push((t, v))[0] == entries[0]);
        assert(entries.push((t, v)).drop_first() =~= entries.drop_first().push((t, v)));
        lemma_pw_lookup_push(entries.drop_first(), t, v, t2);
    }
}

/// Every dependency wire of the generator carries a value.
pub open spec fn deps_assigned(entries: Seq<(Target, u64)>, gen: QuotientGenerator) -> bool {
    &&& forall|j: int|
        0 <= j < gen.numerator.limbs@.len() ==> pw_lookup(
            entries,
            #[trigger] gen.numerator.limbs@[j],
        ) is Some
    &&& forall|j: int|
        0 <= j < gen.denominator.limbs@.len() ==> pw_lookup(
            entries,
            #[trigger] gen.denominator.limbs@[j],
        ) is Some
}

/// The values an extension target's wires carry, once all assigned.
pub open spec fn assigned_ext_vals(entries: Seq<(Target, u64)>, t: ExtensionTarget) -> Seq<int> {
    Seq::new(t.limbs@.len(), |j: int| pw_lookup(entries, t.limbs@[j])->Some_0 as int)
}

/// The generator has fired: some coefficient vector was written into
/// the quotient wires, and it is the host quotient of the dependency
/// values — the dividend times a checked inverse of the divisor, or
/// the poisoned zero vector when no inverse passed the check.
pub open spec fn generator_fired(
    gen: QuotientGenerator,
    w: int,
    d: int,
    pre: Seq<(Target, u64)>,
    post: Seq<(Target, u64)>,
) -> bool {
    exists|qv: Seq<u64>|
        {
            &&& (vals_of(qv) == ext_zero_spec(d) || div_result_ok(
                w,
                d,
                assigned_ext_vals(pre, gen.numerator),
                assigned_ext_vals(pre, gen.denominator),
                vals_of(qv),
            ))
            &&& #[trigger] wrote_vector(pre, post, gen.quotient.limbs@, qv)
        }
}

impl QuotientGenerator {
    /// The wires this generator waits for: all of the numerator's
    /// followed by all of the denominator's.
    pub fn dependencies(&self) -> (r: Vec<Target>)
        ensures
            r@ == self.numerator.limbs@ + self.denominator.limbs@,
    {
        let mut deps = self.numerator.to_target_array();
        let mut rest = self.denominator.to_target_array();
        let mut i: usize = 0;
        while i < rest.len()
            invariant
                i <= rest@.len(),
                deps@ == self.numerator.limbs@ + self.denominator.limbs@.take(i as int),
                rest@ == self.denominator.limbs@,
            decreases rest@.len() - i,
        {
            proof {
                assert(deps@.push(rest@[i as int]) =~= self.numerator.limbs@
                    + self.denominator.limbs@.take(i + 1));
            }
            deps.push(rest[i]);
            i = i + 1;
        }
        proof {
            assert(self.numerator.limbs@ + self.denominator.limbs@.take(rest@.len() as int)
                =~= self.numerator.limbs@ + self.denominator.limbs@);
        }
        deps
    }

    /// Fire the generator: once numerator and denominator wires carry
    /// values, write their host-algebra quotient into the quotient
    /// wires.  A zero denominator writes the poisoned zero quotient,
    /// which the paired equality constraint then rejects.
    pub fn run_once(&self, params: &TowerParams, witness: &mut PartialWitness)
        requires
            params.wf(),
            old(witness).wf(),
            self.numerator.wf(params.d as int),
            self.denominator.wf(params.d as int),
            self.quotient.wf(params.d as int),
        ensures
            final(witness).wf(),
            pw_extends(old(witness).entries@, final(witness).entries@),
            deps_assigned(old(witness).entries@, *self) ==> generator_fired(
                *self,
                params.w as int,
                params.d as int,
                old(witness).entries@,
                final(witness).entries@,
            ),
    {
        let num = witness.get_extension_target(&self.numerator);
        let dem = witness.get_extension_target(&self.denominator);
        match (num, dem) {
            (Some(nv), Some(dv)) => {
                proof {
                    assert forall|j: int| 0 <= j < nv@.len() implies 0 <= #[trigger] vals_of(
                        nv@,
                    )[j] < fp() by {
                        lemma_pw_lookup_in_field(*witness, self.numerator.limbs@[j]);
                    }
                    assert forall|j: int| 0 <= j < dv@.len() implies 0 <= #[trigger] vals_of(
                        dv@,
                    )[j] < fp() by {
                        lemma_pw_lookup_in_field(*witness, self.denominator.limbs@[j]);
                    }
                }
                let ghost pre = witness.entries@;
                let ghost nvals = vals_of(nv@);
                let ghost dvals = vals_of(dv@);
                let ne = params.element(nv);
                let de = params.element(dv);
                let quotient = params.div_element(&ne, &de);
                witness.set_extension_target(&self.quotient, &quotient.coeffs);
                proof {
                    assert(assigned_ext_vals(pre, self.numerator) =~= nvals);
                    assert(assigned_ext_vals(pre, self.denominator) =~= dvals);
                    assert(wrote_vector(
                        pre,
                        witness.entries@,
                        self.quotient.limbs@,
                        quotient.coeffs@,
                    ));
                    assert(generator_fired(
                        *self,
                        params.w as int,
                        params.d as int,
                        pre,
                        witness.entries@,
                    ));
                }
            },
            (None, _) => {
                proof {
                    if deps_assigned(witness.entries@, *self) {
                        let j = choose|j: int|
                            0 <= j < self.numerator.limbs@.len() && pw_lookup(
                                witness.entries@,
                                #[trigger] self.numerator.limbs@[j],
                            ) is None;
                        assert(false);
                    }
                }
            },
            (_, None) => {
                proof {
                    if deps_assigned(witness.entries@, *self) {
                        let j = choose|j: int|
                            0 <= j < self.denominator.limbs@.len() && pw_lookup(
                                witness.entries@,
                                #[trigger] self.denominator.limbs@[j],
                            ) is None;
                        assert(false);
                    }
                }
            },
        }
    }
}

/// A recorded value is a canonical representative.
proof fn lemma_pw_lookup_in_field(w: PartialWitness, t: Target)
    requires
        w.wf(),
        pw_lookup(w.entries@, t) is Some,
    ensures
        in_field(pw_lookup(w.entries@, t)->Some_0),
{
    lemma_pw_lookup_in_field_rec(w.entries@, t);
}

proof fn lemma_pw_lookup_in_field_rec(entries: Seq<(Target, u64)>, t: Target)
    requires
        forall|i: int| 0 <= i < entries.len() ==> in_field((#[trigger] entries[i]).1),
        pw_lookup(entries, t) is Some,
    ensures
        in_field(pw_lookup(entries, t)->Some_0),
    decreases entries.len(),
{
    if entries.len() > 0 && entries[0].0 != t {
        assert forall|i: int| 0 <= i < entries.drop_first().len() implies in_field(
            (#[trigger] entries.drop_first()[i]).1,
        ) by {
            assert(entries.drop_first()[i] == entries[i + 1]);
        }
        lemma_pw_lookup_in_field_rec(entries.drop_first(), t);
    }
}

/// The completion of a well-formed witness is a total, reduced
/// assignment.
pub proof fn lemma_total_map_reduced(w: PartialWitness)
    requires
        w.wf(),
    ensures
        crate::builder::total(w.total_map()),
        crate::builder::reduced(w.total_map()),
{
    assert forall|t: Target| 0 <= #[trigger] w.total_map()[t] < fp() by {
        if pw_lookup(w.entries@, t) is Some {
            lemma_pw_lookup_in_field(w, t);
        }
    }
}

/// Every wire a builder's constraints mention carries a value.
pub open spec fn all_assigned(b: CircuitBuilder, w: PartialWitness) -> bool {
    &&& forall|i: int|
        0 <= i < b.constants@.len() ==> pw_lookup(
            w.entries@,
            (#[trigger] b.constants@[i]).target,
        ) is Some
    &&& forall|i: int|
        0 <= i < b.copies@.len() ==> pw_lookup(w.entries@, (#[trigger] b.copies@[i]).a) is Some
            && pw_lookup(w.entries@, b.copies@[i].b) is Some
    &&& forall|g: int, grp: int, j: int|
        0 <= g < b.gates@.len() && 0 <= grp < NUM_WIRE_GROUPS && 0 <= j < b.params.d
            ==> pw_lookup(
            w.entries@,
            #[trigger] wire_at(g, grp, b.params.d as int, j),
        ) is Some
}

impl CircuitBuilder {
    /// Does the witness assign every wire the constraints mention, and
    /// honour every constant, copy constraint and gate identity?
    pub fn check_satisfied(&self, w: &PartialWitness) -> (r: bool)
        requires
            self.wf(),
            w.wf(),
        ensures
            r <==> all_assigned(*self, *w) && satisfies(*self, w.total_map()),
    {
        let ghost m = w.total_map();
        let ghost d_int = self.params.d as int;
        let ghost wi = self.params.w as int;
        proof {
            lemma_total_map_reduced(*w);
        }

        // Constants.
        let mut i: usize = 0;
        while i < self.constants.len()
            invariant
                i <= self.constants@.len(),
                self.wf(),
                w.wf(),
                m == w.total_map(),
                forall|k: int|
                    0 <= k < i ==> pw_lookup(w.entries@, (#[trigger] self.constants@[k]).target)
                        is Some && m[self.constants@[k].target] == self.constants@[k].value
                        as int,
            decreases self.constants@.len() - i,
        {
            let slot_target = self.constants[i].target;
            let slot_value = self.constants[i].value;
            match w.get(slot_target) {
                Some(v) => {
                    if v != slot_value {
                        proof {
                            assert(m[slot_target] == v as int);
                            assert(!satisfies(*self, m));
                        }
                        return false;
                    }
                },
                None => {
                    proof {
                        assert(!all_assigned(*self, *w));
                    }
                    return false;
                },
            }
            i = i + 1;
        }

        // Copy constraints.
        let mut i2: usize = 0;
        while i2 < self.copies.len()
            invariant
                i2 <= self.copies@.len(),
                self.wf(),
                w.wf(),
                m == w.total_map(),
                forall|k: int|
                    0 <= k < i2 ==> pw_lookup(w.entries@, (#[trigger] self.copies@[k]).a)
                        is Some && pw_lookup(w.entries@, self.copies@[k].b) is Some && m[self
                        .copies@[k].a] == m[self.copies@[k].b],
            decreases self.copies@.len() - i2,
        {
            let ca = self.copies[i2].a;
            let cb = self.copies[i2].b;
            match (w.get(ca), w.get(cb)) {
                (Some(va), Some(vb)) => {
                    if va != vb {
                        proof {
                            assert(m[ca] == va as int && m[cb] == vb as int);
                            assert(!satisfies(*self, m));
                        }
                        return false;
                    }
                },
                _ => {
                    proof {
                        assert(!all_assigned(*self, *w));
                    }
                    return false;
                },
            }
            i2 = i2 + 1;
        }

        // Gate identities.
        let mut g: usize = 0;
        while g < self.gates.len()
            invariant
                g <= self.gates@.len(),
                self.wf(),
                w.wf(),
                m == w.total_map(),
                d_int == self.params.d as int,
                wi == self.params.w as int,
                forall|k: int, grp: int, j: int|
                    0 <= k < g && 0 <= grp < NUM_WIRE_GROUPS && 0 <= j < d_int ==> pw_lookup(
                        w.entries@,
                        #[trigger] wire_at(k, grp, d_int, j),
                    ) is Some,
                forall|k: int|
                    0 <= k < g ==> gate_holds(m, k, #[trigger] self.gates@[k], d_int, wi),
            decreases self.gates@.len() - g,
        {
            if !self.check_gate(w, g) {
                return false;
            }
            g = g + 1;
        }
        proof {
            assert(crate::builder::total(m) && crate::builder::reduced(m));
            assert(satisfies(*self, m));
        }
        true
    }

    /// Check one gate row: both fused identities under the witness.
    fn check_gate(&self, w: &PartialWitness, g: usize) -> (r: bool)
        requires
            self.wf(),
            w.wf(),
            g < self.gates@.len(),
        ensures
            r <==> (forall|grp: int, j: int|
                0 <= grp < NUM_WIRE_GROUPS && 0 <= j < self.params.d ==> pw_lookup(
                    w.entries@,
                    #[trigger] wire_at(g as int, grp, self.params.d as int, j),
                ) is Some) && gate_holds(
                w.total_map(),
                g as int,
                self.gates@[g as int],
                self.params.d as int,
                self.params.w as int,
            ),
    {
        let ghost m = w.total_map();
        let ghost d_int = self.params.d as int;
        let ghost wi = self.params.w as int;
        proof {
            lemma_total_map_reduced(*w);
            assert(crate::builder::reduced(m));
        }
        let mut groups: Vec<Vec<u64>> = Vec::new();
        let mut grp: usize = 0;
        while grp < NUM_WIRE_GROUPS
            invariant
                grp <= NUM_WIRE_GROUPS,
                self.wf(),
                w.wf(),
                m == w.total_map(),
                crate::builder::reduced(m),
                g < self.gates@.len(),
                d_int == self.params.d as int,
                groups@.len() == grp,
                forall|q: int, j: int|
                    0 <= q < grp && 0 <= j < d_int ==> pw_lookup(
                        w.entries@,
                        #[trigger] wire_at(g as int, q, d_int, j),
                    ) is Some,
                forall|q: int|
                    0 <= q < grp ==> (#[trigger] groups@[q])@.len() == d_int && vals_of(
                        groups@[q]@,
                    ) == group_vals(m, g as int, q, d_int),
                forall|q: int|
                    0 <= q < grp ==> crate::field::seq_in_field(vals_of(
                        #[trigger] groups@[q]@,
                    )),
            decreases NUM_WIRE_GROUPS - grp,
        {
            let wires = self.wire_range_target(g, grp);
            match w.get_extension_target(&wires) {
                Some(vs) => {
                    proof {
                        assert forall|j: int| 0 <= j < d_int implies pw_lookup(
                            w.entries@,
                            #[trigger] wire_at(g as int, grp as int, d_int, j),
                        ) is Some && m[wire_at(g as int, grp as int, d_int, j)] == vals_of(
                            vs@,
                        )[j] by {
                            assert(wires.limbs@[j] == wire_at(g as int, grp as int, d_int, j));
                            assert(pw_lookup(w.entries@, wires.limbs@[j]) == Some(vs@[j]));
                        }
                        assert(vals_of(vs@) =~= group_vals(m, g as int, grp as int, d_int));
                        assert forall|j: int| 0 <= j < vals_of(vs@).len() implies 0
                            <= #[trigger] vals_of(vs@)[j] < fp() by {
                            assert(0 <= m[wire_at(g as int, grp as int, d_int, j)] < fp());
                        }
                    }
                    groups.push(vs);
                },
                None => {
                    proof {
                        let j = choose|j: int|
                            0 <= j < wires.limbs@.len() && pw_lookup(
                                w.entries@,
                                #[trigger] wires.limbs@[j],
                            ) is None;
                        assert(wires.limbs@[j] == wire_at(g as int, grp as int, d_int, j));
                    }
                    return false;
                },
            }
            grp = grp + 1;
        }
        let c0 = self.gates[g].const_0;
        let c1 = self.gates[g].const_1;
        let ok1 = self.fused_identity_holds(
            c0, c1, &groups[0], &groups[1], &groups[2], &groups[6],
        );
        let ok2 = self.fused_identity_holds(
            c0, c1, &groups[3], &groups[4], &groups[5], &groups[7],
        );
        ok1 && ok2
    }

    /// Does `out == c0 * (m0 * m1) + c1 * addend` hold of these values?
    fn fused_identity_holds(
        &self,
        c0: u64,
        c1: u64,
        m0: &Vec<u64>,
        m1: &Vec<u64>,
        addend: &Vec<u64>,
        out: &Vec<u64>,
    ) -> (r: bool)
        requires
            self.wf(),
            in_field(c0),
            in_field(c1),
            m0@.len() == self.params.d,
            m1@.len() == self.params.d,
            addend@.len() == self.params.d,
            out@.len() == self.params.d,
            crate::field::seq_in_field(vals_of(m0@)),
            crate::field::seq_in_field(vals_of(m1@)),
            crate::field::seq_in_field(vals_of(addend@)),
            crate::field::seq_in_field(vals_of(out@)),
        ensures
            r <==> vals_of(out@) == ext_madd_spec(
                self.params.w as int,
                c0 as int,
                vals_of(m0@),
                vals_of(m1@),
                c1 as int,
                vals_of(addend@),
            ),
    {
        let m0c = Vec::clone(m0);
        let m1c = Vec::clone(m1);
        let ac = Vec::clone(addend);
        proof {
            vstd::std_specs::vec::vec_clone_deep_view_proof::<u64, std::alloc::Global>(
                *m0, m0c);
            vstd::std_specs::vec::vec_clone_deep_view_proof::<u64, std::alloc::Global>(
                *m1, m1c);
            vstd::std_specs::vec::vec_clone_deep_view_proof::<u64, std::alloc::Global>(
                *addend, ac);
        }
        let e0 = self.params.element(m0c);
        let e1 = self.params.element(m1c);
        let ea = self.params.element(ac);
        let first = e0.mul(&e1).scale(c0);
        let second = ea.scale(c1);
        let sum = first.add(&second);
        proof {
            assert(sum.vals() == ext_madd_spec(
                self.params.w as int,
                c0 as int,
                vals_of(m0@),
                vals_of(m1@),
                c1 as int,
                vals_of(addend@),
            ));
        }
        let mut j: usize = 0;
        let n = out.len();
        while j < n
            invariant
                j <= n,
                n == out@.len(),
                sum.coeffs@.len() == n,
                sum.vals() == ext_madd_spec(
                    self.params.w as int,
                    c0 as int,
                    vals_of(m0@),
                    vals_of(m1@),
                    c1 as int,
                    vals_of(addend@),
                ),
                forall|k: int| 0 <= k < j ==> out@[k] == sum.coeffs@[k],
            decreases n - j,
        {
            if out[j] != sum.coeffs[j] {
                proof {
                    assert(vals_of(out@)[j as int] != sum.vals()[j as int]);
                    assert(vals_of(out@) != ext_madd_spec(
                        self.params.w as int,
                        c0 as int,
                        vals_of(m0@),
                        vals_of(m1@),
                        c1 as int,
                        vals_of(addend@),
                    )) by {
                        assert(vals_of(out@)[j as int] != ext_madd_spec(
                            self.params.w as int,
                            c0 as int,
                            vals_of(m0@),
                            vals_of(m1@),
                            c1 as int,
                            vals_of(addend@),
                        )[j as int]);
                    }
                }
                return false;
            }
            j = j + 1;
        }
        proof {
            assert(vals_of(out@) =~= sum.vals());
        }
        true
    }
}

/// Every assignment of `a` appears unchanged in `b`.
pub open spec fn pw_extends(a: Seq<(Target, u64)>, b: Seq<(Target, u64)>) -> bool {
    forall|t: Target|
        pw_lookup(a, t) is Some ==> #[trigger] pw_lookup(b, t) == pw_lookup(a, t)
}

/// Exactly the effect of writing `values` into `limbs` without
/// overwriting: every listed wire ends up assigned; at the first
/// occurrence of a wire, its final value is its old one when it had
/// one and the listed coefficient otherwise; unlisted wires are
/// untouched.
pub open spec fn wrote_vector(
    pre: Seq<(Target, u64)>,
    post: Seq<(Target, u64)>,
    limbs: Seq<Target>,
    values: Seq<u64>,
) -> bool {
    &&& values.len() == limbs.len()
    &&& forall|j: int| 0 <= j < limbs.len() ==> pw_lookup(post, #[trigger] limbs[j]) is Some
    &&& forall|j: int|
        0 <= j < limbs.len() && (forall|j2: int| 0 <= j2 < j ==> limbs[j2] != limbs[j])
            ==> pw_lookup(post, #[trigger] limbs[j]) == (if pw_lookup(pre, limbs[j]) is Some {
            pw_lookup(pre, limbs[j])
        } else {
            Some(values[j])
        })
    &&& forall|t2: Target|
        (forall|j: int| 0 <= j < limbs.len() ==> limbs[j] != t2) ==> #[trigger] pw_lookup(
            post,
            t2,
        ) == pw_lookup(pre, t2)
}

impl CircuitBuilder {
    /// Resolve a witness from the given inputs: set every constant,
    /// then repeatedly propagate copy constraints, compute gate
    /// outputs whose operands are known, and fire generators whose
    /// dependencies are known, until a pass budget that covers every
    /// possible propagation chain is spent.  Existing assignments are
    /// never overwritten; whether the result satisfies the constraints
    /// is judged separately by the satisfaction checker.
    pub fn generate_witness(&self, inputs: &PartialWitness) -> (r: PartialWitness)
        requires
            self.wf(),
            inputs.wf(),
        ensures
            r.wf(),
            pw_extends(inputs.entries@, r.entries@),
    {
        let mut w = PartialWitness { entries: Vec::new() };
        let mut i: usize = 0;
        while i < inputs.entries.len()
            invariant
                i <= inputs.entries@.len(),
                inputs.wf(),
                w.entries@ == inputs.entries@.take(i as int),
            decreases inputs.entries@.len() - i,
        {
            let e = inputs.entries[i];
            w.entries.push(e);
            proof {
                assert(w.entries@ =~= inputs.entries@.take(i + 1));
            }
            i = i + 1;
        }
        proof {
            assert(w.entries@ =~= inputs.entries@);
            assert forall|k: int| 0 <= k < w.entries@.len() implies in_field(
                (#[trigger] w.entries@[k]).1,
            ) by {
                assert(w.entries@[k] == inputs.entries@[k]);
            }
        }

        // Constants first.
        let mut ci: usize = 0;
        while ci < self.constants.len()
            invariant
                ci <= self.constants@.len(),
                self.wf(),
                w.wf(),
                pw_extends(inputs.entries@, w.entries@),
            decreases self.constants@.len() - ci,
        {
            let ghost pre = w.entries@;
            w.set(self.constants[ci].target, self.constants[ci].value);
            proof {
                lemma_pw_extends_after_set(inputs.entries@, pre, w.entries@);
            }
            ci = ci + 1;
        }

        // Propagation passes: enough for any chain of dependencies.
        let budget: u128 = self.copies.len() as u128 + 2 * self.gates.len() as u128
            + self.generators.len() as u128 + 2;
        let mut pass: u128 = 0;
        while pass < budget
            invariant
                self.wf(),
                w.wf(),
                pw_extends(inputs.entries@, w.entries@),
            decreases budget - pass,
        {
            let ghost pre = w.entries@;
            self.witness_pass(&mut w);
            proof {
                lemma_pw_extends_after_set(inputs.entries@, pre, w.entries@);
            }
            pass = pass + 1;
        }
        w
    }

    /// One propagation pass over copies, gates and generators.
    fn witness_pass(&self, w: &mut PartialWitness)
        requires
            self.wf(),
            old(w).wf(),
        ensures
            final(w).wf(),
            pw_extends(old(w).entries@, final(w).entries@),
    {
        let ghost start = w.entries@;

        // Copy constraints carry values in both directions.
        let mut i: usize = 0;
        while i < self.copies.len()
            invariant
                i <= self.copies@.len(),
                self.wf(),
                w.wf(),
                pw_extends(start, w.entries@),
            decreases self.copies@.len() - i,
        {
            let ca = self.copies[i].a;
            let cb = self.copies[i].b;
            let ghost pre = w.entries@;
            match (w.get(ca), w.get(cb)) {
                (Some(va), None) => {
                    proof {
                        lemma_pw_lookup_in_field(*w, ca);
                    }
                    w.set(cb, va);
                },
                (None, Some(vb)) => {
                    proof {
                        lemma_pw_lookup_in_field(*w, cb);
                    }
                    w.set(ca, vb);
                },
                _ => {
                },
            }
            proof {
                lemma_pw_extends_after_set(start, pre, w.entries@);
            }
            i = i + 1;
        }

        // Gate outputs follow once all operand groups are known.
        let mut g: usize = 0;
        while g < self.gates.len()
            invariant
                g <= self.gates@.len(),
                self.wf(),
                w.wf(),
                pw_extends(start, w.entries@),
            decreases self.gates@.len() - g,
        {
            let ghost pre = w.entries@;
            self.fill_gate_outputs(w, g);
            proof {
                lemma_pw_extends_after_set(start, pre, w.entries@);
            }
            g = g + 1;
        }

        // Generators fire once their dependencies are known.
        let mut gi: usize = 0;
        while gi < self.generators.len()
            invariant
                gi <= self.generators@.len(),
                self.wf(),
                w.wf(),
                pw_extends(start, w.entries@),
            decreases self.generators@.len() - gi,
        {
            let ghost pre = w.entries@;
            let gen = &self.generators[gi];
            if gen.numerator.limbs.len() == self.params.d && gen.denominator.limbs.len()
                == self.params.d && gen.quotient.limbs.len() == self.params.d {
                gen.run_once(&self.params, w);
            }
            proof {
                lemma_pw_extends_after_set(start, pre, w.entries@);
            }
            gi = gi + 1;
        }
    }

    /// Compute and record both outputs of one gate row, when all six
    /// operand groups carry values.
    fn fill_gate_outputs(&self, w: &mut PartialWitness, g: usize)
        requires
            self.wf(),
            old(w).wf(),
            g < self.gates@.len(),
        ensures
            final(w).wf(),
            pw_extends(old(w).entries@, final(w).entries@),
    {
        let ghost start = w.entries@;
        let c0 = self.gates[g].const_0;
        let c1 = self.gates[g].const_1;
        let g0 = w.get_extension_target(&self.wire_range_target(g, GROUP_FIRST_MULTIPLICAND_0));
        let g1 = w.get_extension_target(&self.wire_range_target(g, GROUP_FIRST_MULTIPLICAND_1));
        let g2 = w.get_extension_target(&self.wire_range_target(g, GROUP_FIRST_ADDEND));
        let g3 = w.get_extension_target(&self.wire_range_target(g, GROUP_SECOND_MULTIPLICAND_0));
        let g4 = w.get_extension_target(&self.wire_range_target(g, GROUP_SECOND_MULTIPLICAND_1));
        let g5 = w.get_extension_target(&self.wire_range_target(g, GROUP_SECOND_ADDEND));
        match (g0, g1, g2) {
            (Some(v0), Some(v1), Some(v2)) => {
                if all_in_field(&v0) && all_in_field(&v1) && all_in_field(&v2) && v0.len()
                    == self.params.d && v1.len() == self.params.d && v2.len() == self.params.d {
                    let out = self.fused_value(c0, c1, v0, v1, v2);
                    let ghost pre = w.entries@;
                    let wires = self.wire_range_target(g, GROUP_FIRST_OUTPUT);
                    w.set_extension_target(&wires, &out);
                    proof {
                        lemma_pw_extends_after_set(start, pre, w.entries@);
                    }
                }
            },
            _ => {
            },
        }
        match (g3, g4, g5) {
            (Some(v3), Some(v4), Some(v5)) => {
                if all_in_field(&v3) && all_in_field(&v4) && all_in_field(&v5) && v3.len()
                    == self.params.d && v4.len() == self.params.d && v5.len() == self.params.d {
                    let out = self.fused_value(c0, c1, v3, v4, v5);
                    let ghost pre = w.entries@;
                    let wires = self.wire_range_target(g, GROUP_SECOND_OUTPUT);
                    w.set_extension_target(&wires, &out);
                    proof {
                        lemma_pw_extends_after_set(start, pre, w.entries@);
                    }
                }
            },
            _ => {
            },
        }
    }

    /// Host value of one fused operation.
    fn fused_value(&self, c0: u64, c1: u64, m0: Vec<u64>, m1: Vec<u64>, addend: Vec<u64>) -> (r:
        Vec<u64>)
        requires
            self.wf(),
            in_field(c0),
            in_field(c1),
            m0@.len() == self.params.d,
            m1@.len() == self.params.d,
            addend@.len() == self.params.d,
            crate::field::seq_in_field(vals_of(m0@)),
            crate::field::seq_in_field(vals_of(m1@)),
            crate::field::seq_in_field(vals_of(addend@)),
        ensures
            r@.len() == self.params.d,
            crate::field::seq_in_field(vals_of(r@)),
            vals_of(r@) == ext_madd_spec(
                self.params.w as int,
                c0 as int,
                vals_of(m0@),
                vals_of(m1@),
                c1 as int,
                vals_of(addend@),
            ),
    {
        let e0 = self.params.element(m0);
        let e1 = self.params.element(m1);
        let ea = self.params.element(addend);
        let first = e0.mul(&e1).scale(c0);
        let second = ea.scale(c1);
        let sum = first.add(&second);
        sum.coeffs
    }
}

/// Chaining preservation: what held of the start still holds after a
/// step that itself preserves the middle state.
proof fn lemma_pw_extends_after_set(
    start: Seq<(Target, u64)>,
    mid: Seq<(Target, u64)>,
    end: Seq<(Target, u64)>,
)
    requires
        pw_extends(start, mid),
        pw_extends(mid, end),
    ensures
        pw_extends(start, end),
{
}

/// Are all values canonical representatives?
fn all_in_field(values: &Vec<u64>) -> (r: bool)
    ensures
        r <==> crate::field::seq_in_field(vals_of(values@)),
{
    let mut i: usize = 0;
    while i < values.len()
        invariant
            i <= values@.len(),
            forall|j: int| 0 <= j < i ==> 0 <= #[trigger] vals_of(values@)[j] < fp(),
        decreases values@.len() - i,
    {
        if values[i] >= crate::field::FIELD_ORDER {
            proof {
                assert(!(0 <= vals_of(values@)[i as int] < fp()));
            }
            return false;
        }
        i = i + 1;
    }
    true
}

} // verus!
