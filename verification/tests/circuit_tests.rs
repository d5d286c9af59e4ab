use qsim::circuit::{phase_rotation, QGate, QRegister, FRAC_1_SQRT_2_FX};
use qsim::complex::c64;
use qsim::fixed::FX_ONE;

const SCALE: f64 = 4294967296.0;

fn re_f(a: c64) -> f64 {
    a.re as f64 / SCALE
}

fn im_f(a: c64) -> f64 {
    a.im as f64 / SCALE
}

fn amps(r: &QRegister) -> Vec<c64> {
    let mut v = Vec::new();
    for i in 0..r.len() {
        v.push(r.amplitude(i));
    }
    v
}

fn delta_state(nqubits: usize) -> Vec<c64> {
    let n = 1usize << nqubits;
    let mut states = vec![c64::zero(); n];
    states[0] = c64::new(FX_ONE, 0);
    states
}

/// The X gate swaps the two halves of every pair, exactly.
fn x_gate() -> QGate {
    QGate::new(
        c64::new(0, 0),
        c64::new(FX_ONE, 0),
        c64::new(FX_ONE, 0),
        c64::new(0, 0),
    )
}

#[test]
fn addressing_pairs_partition_the_register() {
    // Applying X on target t must send the amplitude at j to j ^ (1 << t):
    // every index is in exactly one pair, and pairs differ exactly in bit t.
    let nqubits = 3usize;
    let n = 1usize << nqubits;
    let x = x_gate();
    for t in 0..nqubits {
        let mut states = Vec::new();
        for j in 0..n {
            states.push(c64::new((j as i64 + 1) * FX_ONE, 0));
        }
        let mut reg = QRegister::new(states);
        reg.apply_gate(t, &x);
        for j in 0..n {
            let expect = ((j ^ (1 << t)) as i64 + 1) * FX_ONE;
            assert_eq!(reg.amplitude(j).re, expect);
            assert_eq!(reg.amplitude(j).im, 0);
        }
    }
}

#[test]
fn sequential_and_parallel_gate_agree_bitwise() {
    let nqubits = 3usize;
    let n = 1usize << nqubits;
    let h = QGate::h();
    for t in 0..nqubits {
        let mut states = Vec::new();
        for j in 0..n {
            states.push(c64::new((j as i64 + 1) * 1000, (7 - j as i64) * 500));
        }
        let mut seq = QRegister::new(states.clone());
        let mut par = QRegister::new(states);
        seq.apply_gate(t, &h);
        par.apply_gate_par(t, &h);
        assert_eq!(amps(&seq), amps(&par));
    }
}

#[test]
fn sequential_and_parallel_controlled_gate_agree_bitwise() {
    let nqubits = 3usize;
    let n = 1usize << nqubits;
    let (cv, sv) = phase_rotation(2);
    let cp = QGate::cp(cv, sv);
    for c in 0..nqubits {
        for t in 0..nqubits {
            if c == t {
                continue;
            }
            let mut states = Vec::new();
            for j in 0..n {
                states.push(c64::new((j as i64 + 1) * 1000, (7 - j as i64) * 500));
            }
            let mut seq = QRegister::new(states.clone());
            let mut par = QRegister::new(states);
            seq.apply_controlled_gate(c, t, &cp);
            par.apply_controlled_gate_par(c, t, &cp);
            assert_eq!(amps(&seq), amps(&par));
        }
    }
}

#[test]
fn hadamard_is_self_inverse_on_one_qubit() {
    let mut reg = QRegister::new(delta_state(1));
    let h = QGate::h();
    reg.apply_gate(0, &h);
    let sqrt_half = 0.5f64.sqrt();
    assert!((re_f(reg.amplitude(0)) - sqrt_half).abs() < 1e-9);
    assert!((re_f(reg.amplitude(1)) - sqrt_half).abs() < 1e-9);
    assert!(im_f(reg.amplitude(0)).abs() < 1e-9);
    assert!(im_f(reg.amplitude(1)).abs() < 1e-9);
    reg.apply_gate(0, &h);
    assert!((re_f(reg.amplitude(0)) - 1.0).abs() < 1e-9);
    assert!(re_f(reg.amplitude(1)).abs() < 1e-9);
    assert!(im_f(reg.amplitude(0)).abs() < 1e-9);
    assert!(im_f(reg.amplitude(1)).abs() < 1e-9);
}

#[test]
fn controlled_gate_with_clear_control_leaves_state_unchanged() {
    // Register [1,0,0,0]: the only nonzero amplitude has control bit 0, and
    // the half-pairs with the control bit set hold zero amplitude, so any
    // controlled gate leaves the state exactly as it was.
    let mut reg = QRegister::new(delta_state(2));
    let h = QGate::h();
    reg.apply_controlled_gate(0, 1, &h);
    assert_eq!(reg.amplitude(0), c64::new(FX_ONE, 0));
    for j in 1..4 {
        assert_eq!(reg.amplitude(j), c64::zero());
    }
}

#[test]
fn controlled_phase_rotates_the_one_one_amplitude() {
    // State |11>: a controlled phase of pi/2 multiplies it by i.
    let n = 4usize;
    let mut states = vec![c64::zero(); n];
    states[3] = c64::new(FX_ONE, 0);
    let mut reg = QRegister::new(states);
    let (cv, sv) = phase_rotation(1);
    assert_eq!(cv, 0);
    assert_eq!(sv, FX_ONE);
    let cp = QGate::cp(cv, sv);
    reg.apply_controlled_gate_par(1, 0, &cp);
    assert_eq!(reg.amplitude(3), c64::new(0, FX_ONE));
    assert_eq!(reg.amplitude(0), c64::zero());
    assert_eq!(reg.amplitude(1), c64::zero());
    assert_eq!(reg.amplitude(2), c64::zero());
}

#[test]
fn qft_on_single_qubit_equals_one_hadamard() {
    let mut qft = QRegister::new(delta_state(1));
    qft.quantum_fourier_transform(1);
    let mut had = QRegister::new(delta_state(1));
    had.apply_gate(0, &QGate::h());
    assert_eq!(amps(&qft), amps(&had));
    let sqrt_half = 0.5f64.sqrt();
    assert!((re_f(qft.amplitude(0)) - sqrt_half).abs() < 1e-9);
    assert!((re_f(qft.amplitude(1)) - sqrt_half).abs() < 1e-9);
}

#[test]
fn qft_of_delta_is_uniform_superposition() {
    for nqubits in 1..=4usize {
        let n = 1usize << nqubits;
        let mut reg = QRegister::new(delta_state(nqubits));
        reg.quantum_fourier_transform(nqubits);
        let expect = 1.0 / (n as f64).sqrt();
        let first = reg.amplitude(0);
        for j in 0..n {
            let a = reg.amplitude(j);
            assert!((re_f(a) - expect).abs() < 1e-8);
            assert!(im_f(a).abs() < 1e-8);
            // No relative phase: every amplitude is the same exact value.
            assert_eq!(a, first);
        }
    }
}

#[test]
fn qft_on_zero_qubits_is_identity() {
    let mut reg = QRegister::new(vec![c64::new(12345, -6789)]);
    reg.quantum_fourier_transform(0);
    assert_eq!(reg.amplitude(0), c64::new(12345, -6789));
}

#[test]
fn phase_rotation_matches_cosine_and_sine() {
    let (c1, s1) = phase_rotation(1);
    assert_eq!(c1, 0);
    assert_eq!(s1, FX_ONE);
    let (c2, s2) = phase_rotation(2);
    assert_eq!(c2, FRAC_1_SQRT_2_FX);
    assert_eq!(s2, FRAC_1_SQRT_2_FX);
    let (c3, s3) = phase_rotation(3);
    let theta = std::f64::consts::PI / 8.0;
    assert!((c3 as f64 / SCALE - theta.cos()).abs() < 1e-9);
    assert!((s3 as f64 / SCALE - theta.sin()).abs() < 1e-9);
}

#[test]
fn hadamard_gate_entries() {
    let h = QGate::h();
    assert_eq!(h.m.m00, c64::new(FRAC_1_SQRT_2_FX, 0));
    assert_eq!(h.m.m01, c64::new(FRAC_1_SQRT_2_FX, 0));
    assert_eq!(h.m.m10, c64::new(FRAC_1_SQRT_2_FX, 0));
    assert_eq!(h.m.m11, c64::new(-FRAC_1_SQRT_2_FX, 0));
    let sqrt_half = 0.5f64.sqrt();
    assert!((FRAC_1_SQRT_2_FX as f64 / SCALE - sqrt_half).abs() < 1e-9);
}

#[test]
fn probabilities_are_amplitude_magnitudes() {
    let states = vec![
        c64::new(3 * FX_ONE, 4 * FX_ONE),
        c64::new(0, 0),
        c64::new(-5 * FX_ONE, 12 * FX_ONE),
        c64::new(FX_ONE, 0),
    ];
    let reg = QRegister::new(states);
    let p = reg.probabilities();
    assert_eq!(p.len(), 4);
    assert_eq!(p[0], (5 * FX_ONE) as u64);
    assert_eq!(p[1], 0);
    assert_eq!(p[2], (13 * FX_ONE) as u64);
    assert_eq!(p[3], FX_ONE as u64);
}

#[test]
fn register_new_keeps_amplitudes() {
    let states = vec![c64::new(1, 2), c64::new(3, 4)];
    let reg = QRegister::new(states.clone());
    assert_eq!(reg.len(), 2);
    assert_eq!(amps(&reg), states);
}
