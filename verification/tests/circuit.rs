//! End-to-end exercises of the extension-field gadget layer: circuits
//! are built, witnesses resolved, and the satisfaction checker judges
//! the outcome against host-computed values.

use ext_gadgets::builder::CircuitBuilder;
use ext_gadgets::extension::{ExtensionElement, Square, TowerParams};
use ext_gadgets::field::{f_add, f_mul, f_try_inverse, FIELD_ORDER};
use ext_gadgets::target::{ext_targets_equal, ExtensionAlgebraTarget, ExtensionTarget};
use ext_gadgets::witness::PartialWitness;

/// A small deterministic generator for sampled field elements.
struct Sampler {
    state: u64,
}

impl Sampler {
    fn new(seed: u64) -> Sampler {
        Sampler { state: seed }
    }

    fn next_field(&mut self) -> u64 {
        self.state = self
            .state
            .wrapping_mul(6364136223846793005)
            .wrapping_add(1442695040888963407);
        self.state % FIELD_ORDER
    }

    fn next_vec(&mut self, d: usize) -> Vec<u64> {
        (0..d).map(|_| self.next_field()).collect()
    }
}

fn elem(params: &TowerParams, coeffs: &[u64]) -> ExtensionElement {
    params.element(coeffs.to_vec())
}

fn assert_coeffs(e: &ExtensionElement, expected: &[u64]) {
    assert_eq!(e.coeffs, expected.to_vec());
}

fn resolve(builder: &CircuitBuilder, pw: &PartialWitness) -> PartialWitness {
    builder.generate_witness(pw)
}

fn read(w: &PartialWitness, t: &ExtensionTarget) -> Vec<u64> {
    w.get_extension_target(t).expect("unassigned wires")
}

#[test]
fn test_mul_many() {
    let params = TowerParams::quartic();
    let mut builder = CircuitBuilder::new(params);
    let mut pw = PartialWitness::new();
    let mut s = Sampler::new(7);

    let vs: Vec<Vec<u64>> = (0..3).map(|_| s.next_vec(4)).collect();
    let ts = builder.add_virtual_extension_targets(3);
    for (v, t) in vs.iter().zip(ts.iter()) {
        pw.set_extension_target(t, v);
    }
    let mul0 = builder.mul_many_extension(&ts);
    let mul1 = {
        let mut acc = builder.one_extension();
        for t in ts.iter() {
            acc = builder.mul_extension(&acc, t);
        }
        acc
    };
    let mul2 = builder.mul_three_extension(&ts[0], &ts[1], &ts[2]);
    let product = elem(&builder.params, &vs[0])
        .mul(&elem(&builder.params, &vs[1]))
        .mul(&elem(&builder.params, &vs[2]));
    let mul3 = builder.constant_extension(&product.coeffs);

    builder.assert_equal_extension(&mul0, &mul1);
    builder.assert_equal_extension(&mul1, &mul2);
    builder.assert_equal_extension(&mul2, &mul3);

    let w = resolve(&builder, &pw);
    assert!(builder.check_satisfied(&w));
    assert_eq!(read(&w, &mul0), product.coeffs);
}

#[test]
fn test_div_extension() {
    let params = TowerParams::quartic();
    let mut builder = CircuitBuilder::new(params);
    let mut s = Sampler::new(11);

    let xv = s.next_vec(4);
    let mut yv = s.next_vec(4);
    yv[0] = 5;
    let x = elem(&builder.params, &xv);
    let y = elem(&builder.params, &yv);
    let z = builder.params.div_element(&x, &y);
    let xt = builder.constant_extension(&xv);
    let yt = builder.constant_extension(&yv);
    let zt = builder.constant_extension(&z.coeffs);
    let comp_zt = builder.div_extension(&xt, &yt);
    let comp_zt_unsafe = builder.div_unsafe_extension(&xt, &yt);
    builder.assert_equal_extension(&zt, &comp_zt);
    builder.assert_equal_extension(&zt, &comp_zt_unsafe);

    let w = resolve(&builder, &PartialWitness::new());
    assert!(builder.check_satisfied(&w));
}

#[test]
fn algebraic_laws_on_sampled_elements() {
    for params in [TowerParams::quadratic(), TowerParams::quartic(), TowerParams::quintic()] {
        let mut s = Sampler::new(13);
        for _ in 0..8 {
            let a = elem(&params, &s.next_vec(params.d));
            let b = elem(&params, &s.next_vec(params.d));
            let c = elem(&params, &s.next_vec(params.d));
            let zero = params.zero_element();
            let one = params.one_element();
            // add commutative and associative, zero neutral
            assert_eq!(a.add(&b).coeffs, b.add(&a).coeffs);
            assert_eq!(a.add(&b).add(&c).coeffs, a.add(&b.add(&c)).coeffs);
            assert_eq!(a.add(&zero).coeffs, a.coeffs);
            // mul commutative and associative, one neutral
            assert_eq!(a.mul(&b).coeffs, b.mul(&a).coeffs);
            assert_eq!(a.mul(&b).mul(&c).coeffs, a.mul(&b.mul(&c)).coeffs);
            assert_eq!(a.mul(&one).coeffs, a.coeffs);
            // distributivity
            assert_eq!(
                a.mul(&b.add(&c)).coeffs,
                a.mul(&b).add(&a.mul(&c)).coeffs
            );
            // squaring through the trait
            assert_eq!(a.square().coeffs, a.mul(&a).coeffs);
        }
    }
}

#[test]
fn n_term_product_equivalence() {
    for n in [0usize, 1, 2, 3, 4, 5, 7] {
        let params = TowerParams::quartic();
        let mut builder = CircuitBuilder::new(params);
        let mut pw = PartialWitness::new();
        let mut s = Sampler::new(17 + n as u64);

        let vs: Vec<Vec<u64>> = (0..n).map(|_| s.next_vec(4)).collect();
        let ts = builder.add_virtual_extension_targets(n);
        for (v, t) in vs.iter().zip(ts.iter()) {
            pw.set_extension_target(t, v);
        }
        let many = builder.mul_many_extension(&ts);
        let pairwise = {
            let mut acc = builder.one_extension();
            for t in ts.iter() {
                acc = builder.mul_extension(&acc, t);
            }
            acc
        };
        let mut host = builder.params.one_element();
        for v in vs.iter() {
            host = host.mul(&elem(&builder.params, v));
        }
        builder.assert_equal_extension(&many, &pairwise);

        let w = resolve(&builder, &pw);
        assert!(builder.check_satisfied(&w));
        assert_eq!(read(&w, &many), host.coeffs);
        assert_eq!(read(&w, &pairwise), host.coeffs);
    }
}

#[test]
fn division_matches_host_for_nonzero_divisors() {
    let params = TowerParams::quartic();
    let mut builder = CircuitBuilder::new(params);
    let mut s = Sampler::new(23);

    let mut checks = Vec::new();
    for _ in 0..4 {
        let xv = s.next_vec(4);
        let mut yv = s.next_vec(4);
        if yv.iter().all(|&c| c == 0) {
            yv[1] = 1;
        }
        let x = elem(&builder.params, &xv);
        let y = elem(&builder.params, &yv);
        let host = builder.params.div_element(&x, &y);
        let xt = builder.constant_extension(&xv);
        let yt = builder.constant_extension(&yv);
        let q = builder.div_extension(&xt, &yt);
        let qu = builder.div_unsafe_extension(&xt, &yt);
        checks.push((q, qu, host.coeffs.clone()));
    }
    let w = resolve(&builder, &PartialWitness::new());
    assert!(builder.check_satisfied(&w));
    for (q, qu, host) in checks {
        assert_eq!(read(&w, &q), host);
        assert_eq!(read(&w, &qu), host);
    }
}

#[test]
fn division_by_zero_is_unsatisfiable() {
    let params = TowerParams::quartic();
    let mut builder = CircuitBuilder::new(params);
    let mut s = Sampler::new(29);

    let mut xv = s.next_vec(4);
    xv[0] = 3;
    let xt = builder.constant_extension(&xv);
    let zt = builder.zero_extension();
    let _q = builder.div_extension(&xt, &zt);

    let w = resolve(&builder, &PartialWitness::new());
    assert!(!builder.check_satisfied(&w));
}

#[test]
fn zero_over_zero_unsafe_division_is_satisfiable() {
    // The documented caveat of the unchecked path: 0 / 0 admits any
    // quotient, so the instance stays satisfiable.
    let params = TowerParams::quartic();
    let mut builder = CircuitBuilder::new(params);
    let zt = builder.zero_extension();
    let _q = builder.div_unsafe_extension(&zt, &zt);
    let w = resolve(&builder, &PartialWitness::new());
    assert!(builder.check_satisfied(&w));
}

#[test]
fn frobenius_composition_on_powers() {
    for k in [0usize, 1, 2] {
        let params = TowerParams::quadratic();
        let mut builder = CircuitBuilder::new(params);
        let mut s = Sampler::new(31 + k as u64);

        let bv = s.next_vec(2);
        let bt = builder.constant_extension(&bv);

        // Untransformed emissions.
        let mut plain = builder.powers(&bt);
        let p0 = plain.next(&mut builder);
        let p1 = plain.next(&mut builder);

        // Transformed emissions.
        let fresh = builder.powers(&bt);
        let mut twisted = fresh.repeated_frobenius(k, &mut builder);
        let t0 = twisted.next(&mut builder);
        let t1 = twisted.next(&mut builder);

        let w = resolve(&builder, &PartialWitness::new());
        assert!(builder.check_satisfied(&w));

        for (p, t) in [(p0, t0), (p1, t1)] {
            let mut expect = elem(&builder.params, &read(&w, &p));
            for _ in 0..k {
                expect = builder.params.repeated_frobenius_element(&expect, 1);
            }
            assert_eq!(read(&w, &t), expect.coeffs);
        }
    }
}

#[test]
fn short_circuit_returns_scaled_constant_addend() {
    let params = TowerParams::quartic();
    let mut builder = CircuitBuilder::new(params);
    let mut s = Sampler::new(37);

    let av = s.next_vec(4);
    let c1 = s.next_field();
    let at = builder.constant_extension(&av);
    let m0 = builder.add_virtual_extension_target();
    let m1 = builder.add_virtual_extension_target();

    let before = builder.num_gates();
    let r = builder.arithmetic_extension(0, c1, &m0, &m1, &at);
    assert_eq!(builder.num_gates(), before);

    let folded = builder
        .target_as_constant_ext(&r)
        .expect("short-circuit result is a materialized constant");
    let expected = elem(&builder.params, &av).scale(c1);
    assert_eq!(folded, expected.coeffs);
}

#[test]
fn short_circuit_passes_addend_through_under_unit_scale() {
    let params = TowerParams::quartic();
    let mut builder = CircuitBuilder::new(params);

    let at = builder.add_virtual_extension_target();
    let m0 = builder.add_virtual_extension_target();
    let m1 = builder.add_virtual_extension_target();

    let before = builder.num_gates();
    let r = builder.arithmetic_extension(0, 1, &m0, &m1, &at);
    assert_eq!(builder.num_gates(), before);
    assert!(ext_targets_equal(&r, &at));
}

#[test]
fn quadratic_square_matches_host_formula() {
    let params = TowerParams::quadratic();
    let mut builder = CircuitBuilder::new(params);
    let mut pw = PartialWitness::new();
    let mut s = Sampler::new(41);

    let a0 = s.next_field();
    let a1 = s.next_field();
    let at = builder.add_virtual_extension_target();
    pw.set_extension_target(&at, &vec![a0, a1]);
    let sq = builder.square_extension(&at);

    let w = resolve(&builder, &pw);
    assert!(builder.check_satisfied(&w));

    // (a0 + a1 sqrt(7))^2 = (a0^2 + 7 a1^2) + (2 a0 a1) sqrt(7)
    let lo = f_add(f_mul(a0, a0), f_mul(7, f_mul(a1, a1)));
    let hi = f_mul(2, f_mul(a0, a1));
    assert_eq!(read(&w, &sq), vec![lo, hi]);
}

#[test]
fn quadratic_division_scenario() {
    let params = TowerParams::quadratic();
    let mut builder = CircuitBuilder::new(params);

    let xv = vec![3u64, 5u64];
    let yv = vec![2u64, 1u64];
    let x = elem(&builder.params, &xv);
    let y = elem(&builder.params, &yv);
    let host = builder.params.div_element(&x, &y);

    let xt = builder.constant_extension(&xv);
    let yt = builder.constant_extension(&yv);
    let q = builder.div_extension(&xt, &yt);
    let check = builder.mul_extension(&yt, &q);
    builder.assert_equal_extension(&check, &xt);

    let w = resolve(&builder, &PartialWitness::new());
    assert!(builder.check_satisfied(&w));
    assert_eq!(read(&w, &q), host.coeffs);
    assert_eq!(y.mul(&host).coeffs, xv);
}

#[test]
fn powers_iterator_emits_successive_powers() {
    let params = TowerParams::quadratic();
    let mut builder = CircuitBuilder::new(params);

    let bv = vec![2u64, 0u64];
    let bt = builder.constant_extension(&bv);
    let mut it = builder.powers(&bt);
    let e0 = it.next(&mut builder);
    let e1 = it.next(&mut builder);
    let e2 = it.next(&mut builder);
    let e3 = it.next(&mut builder);

    let w = resolve(&builder, &PartialWitness::new());
    assert!(builder.check_satisfied(&w));

    let b = elem(&builder.params, &bv);
    let b2 = b.mul(&b);
    let b3 = b2.mul(&b);
    assert_eq!(read(&w, &e0), builder.params.one_element().coeffs);
    assert_eq!(read(&w, &e1), bv);
    assert_eq!(read(&w, &e2), b2.coeffs);
    assert_eq!(read(&w, &e3), b3.coeffs);
}

#[test]
fn addition_and_subtraction_gadgets_match_host() {
    let params = TowerParams::quintic();
    let mut builder = CircuitBuilder::new(params);
    let mut pw = PartialWitness::new();
    let mut s = Sampler::new(43);

    let av = s.next_vec(5);
    let bv = s.next_vec(5);
    let at = builder.add_virtual_extension_target();
    let bt = builder.add_virtual_extension_target();
    pw.set_extension_target(&at, &av);
    pw.set_extension_target(&bt, &bv);

    let sum = builder.add_extension(&at, &bt);
    let diff = builder.sub_extension(&at, &bt);
    let tri = builder.add_three_extension(&at, &bt, &at);
    let fused = builder.mul_add_extension(&at, &bt, &at);
    let fused_sub = builder.mul_sub_extension(&at, &bt, &at);

    let w = resolve(&builder, &pw);
    assert!(builder.check_satisfied(&w));

    let a = elem(&builder.params, &av);
    let b = elem(&builder.params, &bv);
    assert_eq!(read(&w, &sum), a.add(&b).coeffs);
    assert_eq!(read(&w, &diff), a.sub(&b).coeffs);
    assert_eq!(read(&w, &tri), a.add(&b).add(&a).coeffs);
    assert_eq!(read(&w, &fused), a.mul(&b).add(&a).coeffs);
    assert_eq!(read(&w, &fused_sub), a.mul(&b).sub(&a).coeffs);
}

#[test]
fn exponentiation_gadgets_match_host() {
    let params = TowerParams::quartic();
    let mut builder = CircuitBuilder::new(params);
    let mut pw = PartialWitness::new();
    let mut s = Sampler::new(47);

    let bv = s.next_vec(4);
    let bt = builder.add_virtual_extension_target();
    pw.set_extension_target(&bt, &bv);

    let p8 = builder.exp_power_of_2_extension(&bt, 3);
    let mut exps = Vec::new();
    for e in [0u64, 1, 2, 3, 5, 11] {
        exps.push((e, builder.exp_u64_extension(&bt, e)));
    }

    let w = resolve(&builder, &pw);
    assert!(builder.check_satisfied(&w));

    let b = elem(&builder.params, &bv);
    let mut host_pow = |e: u64| {
        let mut acc = builder.params.one_element();
        for _ in 0..e {
            acc = acc.mul(&b);
        }
        acc
    };
    assert_eq!(read(&w, &p8), host_pow(8).coeffs);
    for (e, t) in exps {
        assert_eq!(read(&w, &t), host_pow(e).coeffs);
    }
}

#[test]
fn second_tower_operations_match_host_convolution() {
    let params = TowerParams::quadratic();
    let mut builder = CircuitBuilder::new(params);
    let mut pw = PartialWitness::new();
    let mut s = Sampler::new(53);
    let d = 2usize;

    let avs: Vec<Vec<u64>> = (0..d).map(|_| s.next_vec(d)).collect();
    let bvs: Vec<Vec<u64>> = (0..d).map(|_| s.next_vec(d)).collect();
    let a_lanes = builder.add_virtual_extension_targets(d);
    let b_lanes = builder.add_virtual_extension_targets(d);
    for (v, t) in avs.iter().zip(a_lanes.iter()) {
        pw.set_extension_target(t, v);
    }
    for (v, t) in bvs.iter().zip(b_lanes.iter()) {
        pw.set_extension_target(t, v);
    }
    let a = ExtensionAlgebraTarget { components: a_lanes };
    let b = ExtensionAlgebraTarget { components: b_lanes };

    let sum = builder.add_ext_algebra(&a, &b);
    let diff = builder.sub_ext_algebra(&a, &b);
    let prod = builder.mul_ext_algebra(&a, &b);
    let scaled = builder.scalar_mul_ext_algebra(&a.components[0], &b);

    let w = resolve(&builder, &pw);
    assert!(builder.check_satisfied(&w));

    // Host-side second-level convolution with wraparound scaled by W.
    let wconst = builder.params.w;
    let mut expected: Vec<ExtensionElement> =
        (0..d).map(|_| builder.params.zero_element()).collect();
    for i in 0..d {
        for j in 0..d {
            let term = elem(&builder.params, &avs[i]).mul(&elem(&builder.params, &bvs[j]));
            let (lane, term) = if i + j < d {
                (i + j, term)
            } else {
                (i + j - d, term.scale(wconst))
            };
            expected[lane] = expected[lane].add(&term);
        }
    }
    for k in 0..d {
        let av = elem(&builder.params, &avs[k]);
        let bv = elem(&builder.params, &bvs[k]);
        assert_eq!(read(&w, &sum.components[k]), av.add(&bv).coeffs);
        assert_eq!(read(&w, &diff.components[k]), av.sub(&bv).coeffs);
        assert_eq!(read(&w, &prod.components[k]), expected[k].coeffs);
        assert_eq!(
            read(&w, &scaled.components[k]),
            elem(&builder.params, &avs[0]).mul(&bv).coeffs
        );
    }
}

#[test]
fn base_field_inverse_behaviour() {
    assert_eq!(f_try_inverse(0), None);
    let mut s = Sampler::new(59);
    for _ in 0..8 {
        let a = s.next_field();
        if a == 0 {
            continue;
        }
        let inv = f_try_inverse(a).expect("nonzero elements invert");
        assert_eq!(f_mul(a, inv), 1);
    }
}

#[test]
fn extension_inverse_behaviour() {
    for params in [TowerParams::quadratic(), TowerParams::quartic(), TowerParams::quintic()] {
        let mut s = Sampler::new(61);
        let zero = params.zero_element();
        assert!(params.try_inverse_element(&zero).is_none());
        for _ in 0..4 {
            let mut v = s.next_vec(params.d);
            if v.iter().all(|&c| c == 0) {
                v[0] = 1;
            }
            let a = elem(&params, &v);
            let inv = params.try_inverse_element(&a).expect("nonzero elements invert");
            assert_coeffs(&a.mul(&inv), &params.one_element().coeffs);
        }
    }
}
