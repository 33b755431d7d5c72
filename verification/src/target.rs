//! Wire references: handles into the constraint system.
//!
//! A target names a wire without holding its value; equality is slot
//! identity.  An extension target is D consecutive wire references
//! encoding one extension-field element in-circuit.

use vstd::prelude::*;

verus! {

/// A reference to a single wire: either an input slot of a gate row,
/// or a free-standing virtually allocated wire.
#[derive(Clone, Copy, PartialEq, Eq, Structural, Debug)]
pub enum Target {
    Wire { gate: usize, input: usize },
    Virtual { index: usize },
}

/// D consecutive wire references carrying one extension element.
#[derive(Debug)]
pub struct ExtensionTarget {
    pub limbs: Vec<Target>,
}

impl Clone for ExtensionTarget {
    /// Targets are freely copied; a clone references the same slots.
    fn clone(&self) -> (r: Self)
        ensures
            r.limbs@ == self.limbs@,
    {
        let mut limbs: Vec<Target> = Vec::new();
        let mut i: usize = 0;
        while i < self.limbs.len()
            invariant
                i <= self.limbs@.len(),
                limbs@.len() == i,
                forall|j: int| 0 <= j < i ==> limbs@[j] == self.limbs@[j],
            decreases self.limbs@.len() - i,
        {
            limbs.push(self.limbs[i]);
            i = i + 1;
        }
        let r = ExtensionTarget { limbs };
        proof {
            assert(r.limbs@ =~= self.limbs@);
        }
        r
    }
}

impl ExtensionTarget {
    /// The target references one wire per coefficient of a degree-`d`
    /// element.
    pub open spec fn wf(&self, d: int) -> bool {
        self.limbs@.len() == d
    }

    /// The wires of this target, one per coefficient.
    pub fn to_target_array(&self) -> (r: Vec<Target>)
        ensures
            r@ == self.limbs@,
    {
        self.limbs.clone()
    }
}

/// Slot-identity equality of two extension targets.
pub fn ext_targets_equal(a: &ExtensionTarget, b: &ExtensionTarget) -> (r: bool)
    ensures
        r <==> a.limbs@ == b.limbs@,
{
    if a.limbs.len() != b.limbs.len() {
        proof {
            assert(a.limbs@ != b.limbs@);
        }
        return false;
    }
    let n = a.limbs.len();
    let mut i: usize = 0;
    while i < n
        invariant
            i <= n,
            n == a.limbs@.len() == b.limbs@.len(),
            forall|j: int| 0 <= j < i ==> a.limbs@[j] == b.limbs@[j],
        decreases n - i,
    {
        if a.limbs[i] != b.limbs[i] {
            proof {
                assert(a.limbs@[i as int] != b.limbs@[i as int]);
            }
            return false;
        }
        i = i + 1;
    }
    proof {
        assert(a.limbs@ =~= b.limbs@);
    }
    true
}

/// A length-D sequence of extension targets: an element of the degree-D
/// extension of the extension field itself, processed in parallel lanes.
#[derive(Debug)]
pub struct ExtensionAlgebraTarget {
    pub components: Vec<ExtensionTarget>,
}

impl Clone for ExtensionAlgebraTarget {
    /// A clone references the same slots, lane for lane.
    fn clone(&self) -> (r: Self)
        ensures
            r.components@.len() == self.components@.len(),
            forall|j: int|
                0 <= j < self.components@.len() ==> (#[trigger] r.components@[j]).limbs@
                    == self.components@[j].limbs@,
    {
        let mut components: Vec<ExtensionTarget> = Vec::new();
        let mut i: usize = 0;
        while i < self.components.len()
            invariant
                i <= self.components@.len(),
                components@.len() == i,
                forall|j: int|
                    0 <= j < i ==> (#[trigger] components@[j]).limbs@
                        == self.components@[j].limbs@,
            decreases self.components@.len() - i,
        {
            components.push(self.components[i].clone());
            i = i + 1;
        }
        ExtensionAlgebraTarget { components }
    }
}

impl ExtensionAlgebraTarget {
    /// Every lane is a well-formed extension target.
    pub open spec fn wf(&self, d: int) -> bool {
        &&& self.components@.len() == d
        &&& forall|i: int| 0 <= i < d ==> #[trigger] self.components@[i].wf(d)
    }
}

} // verus!
