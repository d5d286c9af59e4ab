//! The state-vector engine: a register of 2^n amplitudes, single-qubit and
//! controlled gate application (sequential and parallel), and the quantum
//! Fourier transform.
//!
//! The addressing scheme: for a target qubit `t` and a counter `i` over
//! `[0, 2^n / 2)`, `zero_state_of(i, t)` and `one_state_of(i, t)` are the
//! unique pair of basis-state indices that differ exactly in bit `t` and
//! agree with `i` elsewhere. `pair_of` inverts the scheme; together they
//! show the pairs partition `[0, 2^n)`, which is what lets parallel workers
//! mutate disjoint parts of the vector.

use rayon::iter::{IntoParallelIterator, ParallelIterator};
use vstd::prelude::*;

verus! {

use vstd::arithmetic::power2::pow2;
use crate::complex::{c64, c_add, c_mul, c_abs};
use crate::matrix::c64x4;
use crate::fixed::sqrt_floor;

/// Mask of the bits below `t`.
pub open spec fn low_mask(t: u64) -> u64 {
    ((1u64 << t) - 1) as u64
}

/// Whether bit `t` of `j` is set.
pub open spec fn bit_set(j: u64, t: u64) -> bool {
    j & (1u64 << t) != 0
}

/// The index with bit `t` clear addressed by counter `i`: the low `t` bits
/// of `i`, then a zero at bit `t`, then the remaining bits of `i`.
pub open spec fn zero_state_of(i: u64, t: u64) -> u64 {
    (i & low_mask(t)) | ((i & !low_mask(t)) << 1)
}

/// The partner index: the same as `zero_state_of(i, t)` with bit `t` set.
pub open spec fn one_state_of(i: u64, t: u64) -> u64 {
    zero_state_of(i, t) | (1u64 << t)
}

/// The counter whose pair contains index `s`: drops bit `t` of `s`.
pub open spec fn pair_of(s: u64, t: u64) -> u64 {
    (s & low_mask(t)) | ((s >> 1) & !low_mask(t))
}

/// A register length is a power of two and the qubit index lies below the
/// qubit count.
pub open spec fn valid_target(len: nat, t: nat) -> bool {
    exists|n: nat| len == pow2(n) && t < n
}

/// Top row of a gate matrix applied to an amplitude pair.
pub open spec fn row0(g: c64x4, z: c64, o: c64) -> c64 {
    c_add(c_mul(g.m00, z), c_mul(g.m01, o))
}

/// Bottom row of a gate matrix applied to an amplitude pair.
pub open spec fn row1(g: c64x4, z: c64, o: c64) -> c64 {
    c_add(c_mul(g.m10, z), c_mul(g.m11, o))
}

/// The state vector after a single-qubit gate on target `t`: each pair of
/// amplitudes that differ exactly in bit `t` is replaced by `g`'s two
/// row combinations of the old pair.
pub open spec fn gate_applied(s: Seq<c64>, t: u64, g: c64x4) -> Seq<c64> {
    Seq::new(
        s.len(),
        |j: int|
            if bit_set(j as u64, t) {
                row1(g, s[j - (1u64 << t)], s[j])
            } else {
                row0(g, s[j], s[j + (1u64 << t)])
            },
    )
}

/// The state vector after a controlled gate: an index is rewritten as in
/// `gate_applied` only when its own control bit `c` is set, and kept
/// unchanged otherwise (the condition is tested per half-pair).
pub open spec fn cgate_applied(s: Seq<c64>, c: u64, t: u64, g: c64x4) -> Seq<c64> {
    Seq::new(
        s.len(),
        |j: int|
            if bit_set(j as u64, c) {
                if bit_set(j as u64, t) {
                    row1(g, s[j - (1u64 << t)], s[j])
                } else {
                    row0(g, s[j], s[j + (1u64 << t)])
                }
            } else {
                s[j]
            },
    )
}

/// `1u64 << k` is `pow2(k)` for exponents below the width.
pub proof fn lemma_shl_pow2(k: nat)
    requires
        k < 64,
    ensures
        (1u64 << (k as u64)) == pow2(k),
{
    vstd::bits::lemma_u64_pow2_no_overflow(k);
    vstd::bits::lemma_u64_shl_is_mul(1u64, k as u64);
}

/// A register length bounded by the machine word forces the qubit count
/// below 64.
pub proof fn lemma_qubits_bounded(len: nat, n: nat)
    requires
        len == pow2(n),
        len <= u64::MAX,
    ensures
        n <= 63,
{
    if n > 63 {
        if n > 64 {
            vstd::arithmetic::power2::lemma_pow2_strictly_increases(64, n);
        }
        vstd::arithmetic::power2::lemma2_to64();
    }
}

/// Shape of one addressed pair: for a counter below half the register, the
/// two derived indices are in range, differ exactly in bit `t` (the zero
/// index has it clear, the one index set, and they differ by 2^t), and both
/// map back to the counter under `pair_of`.
pub proof fn lemma_pair_shape(n: u64, t: u64, i: u64)
    requires
        t < n,
        n <= 63,
        2 * i < (1u64 << n),
    ensures
        !bit_set(zero_state_of(i, t), t),
        bit_set(one_state_of(i, t), t),
        one_state_of(i, t) == zero_state_of(i, t) + (1u64 << t),
        zero_state_of(i, t) < (1u64 << n),
        one_state_of(i, t) < (1u64 << n),
        pair_of(zero_state_of(i, t), t) == i,
        pair_of(one_state_of(i, t), t) == i,
{
    assert({
        let m = ((1u64 << t) - 1) as u64;
        let z = (i & m) | ((i & !m) << 1);
        let o = z | (1u64 << t);
        &&& z & (1u64 << t) == 0
        &&& o & (1u64 << t) != 0
        &&& o == z + (1u64 << t)
        &&& z < (1u64 << n)
        &&& o < (1u64 << n)
        &&& ((z & m) | ((z >> 1) & !m)) == i
        &&& ((o & m) | ((o >> 1) & !m)) == i
    }) by (bit_vector)
        requires
            t < n,
            n <= 63,
            2 * i < (1u64 << n),
    ;
}

/// Coverage: every index below 2^n belongs to the pair of its own counter,
/// and that counter is below half the register.
pub proof fn lemma_pair_cover(n: u64, t: u64, s: u64)
    requires
        t < n,
        n <= 63,
        s < (1u64 << n),
    ensures
        2 * pair_of(s, t) < (1u64 << n),
        !bit_set(s, t) ==> zero_state_of(pair_of(s, t), t) == s,
        bit_set(s, t) ==> one_state_of(pair_of(s, t), t) == s,
{
    assert({
        let m = ((1u64 << t) - 1) as u64;
        let p = (s & m) | ((s >> 1) & !m);
        &&& 2 * p < (1u64 << n)
        &&& (s & (1u64 << t) == 0 ==> ((p & m) | ((p & !m) << 1)) == s)
        &&& (s & (1u64 << t) != 0 ==> (((p & m) | ((p & !m) << 1)) | (1u64 << t)) == s)
    }) by (bit_vector)
        requires
            t < n,
            n <= 63,
            s < (1u64 << n),
    ;
}

/// The addressed pairs partition the whole index range: distinct counters
/// yield four distinct indices, and every index is reached by exactly one
/// counter, on the side given by its bit `t`.
pub proof fn lemma_pair_partition(n: u64, t: u64)
    requires
        t < n,
        n <= 63,
    ensures
        forall|i: u64|
            2 * i < (1u64 << n) ==> #[trigger] zero_state_of(i, t) < (1u64 << n)
                && one_state_of(i, t) < (1u64 << n) && !bit_set(zero_state_of(i, t), t) && bit_set(
                one_state_of(i, t),
                t,
            ) && one_state_of(i, t) == zero_state_of(i, t) + (1u64 << t),
        forall|i1: u64, i2: u64|
            #![trigger zero_state_of(i1, t), zero_state_of(i2, t)]
            2 * i1 < (1u64 << n) && 2 * i2 < (1u64 << n) && i1 != i2 ==> zero_state_of(i1, t)
                != zero_state_of(i2, t) && one_state_of(i1, t) != one_state_of(i2, t)
                && zero_state_of(i1, t) != one_state_of(i2, t),
        forall|s: u64|
            s < (1u64 << n) ==> 2 * #[trigger] pair_of(s, t) < (1u64 << n) && (if bit_set(s, t) {
                one_state_of(pair_of(s, t), t) == s
            } else {
                zero_state_of(pair_of(s, t), t) == s
            }),
{
    assert forall|i: u64| 2 * i < (1u64 << n) implies #[trigger] zero_state_of(i, t) < (1u64 << n)
        && one_state_of(i, t) < (1u64 << n) && !bit_set(zero_state_of(i, t), t) && bit_set(
        one_state_of(i, t),
        t,
    ) && one_state_of(i, t) == zero_state_of(i, t) + (1u64 << t) by {
        lemma_pair_shape(n, t, i);
    }
    assert forall|i1: u64, i2: u64|
        #![trigger zero_state_of(i1, t), zero_state_of(i2, t)]
        2 * i1 < (1u64 << n) && 2 * i2 < (1u64 << n) && i1 != i2 implies zero_state_of(i1, t)
        != zero_state_of(i2, t) && one_state_of(i1, t) != one_state_of(i2, t) && zero_state_of(i1, t)
        != one_state_of(i2, t) by {
        lemma_pair_shape(n, t, i1);
        lemma_pair_shape(n, t, i2);
    }
    assert forall|s: u64| s < (1u64 << n) implies 2 * #[trigger] pair_of(s, t) < (1u64 << n) && (
    if bit_set(s, t) {
        one_state_of(pair_of(s, t), t) == s
    } else {
        zero_state_of(pair_of(s, t), t) == s
    }) by {
        lemma_pair_cover(n, t, s);
    }
}


/// Fixed-point value of sqrt(1/2), the floor of 2^16 * sqrt(2^31).
pub const FRAC_1_SQRT_2_FX: i64 = 3037000499;

/// The constant above is exactly the square-root floor of 2^63, which is
/// sqrt(1/2) at the fixed-point scale.
pub proof fn lemma_hadamard_entry()
    ensures
        sqrt_floor(0x8000_0000_0000_0000 as nat) == 3037000499,
{
    assert(3037000499 * 3037000499 <= 0x8000_0000_0000_0000 < 3037000500 * 3037000500)
        by (nonlinear_arith);
    crate::fixed::lemma_sqrt_floor_unique(0x8000_0000_0000_0000 as nat, 3037000499 as nat);
}

/// The Hadamard matrix: every entry sqrt(1/2), the bottom-right negated.
pub open spec fn h_mat() -> c64x4 {
    c64x4 {
        m00: c64 { re: 3037000499i64, im: 0i64 },
        m01: c64 { re: 3037000499i64, im: 0i64 },
        m10: c64 { re: 3037000499i64, im: 0i64 },
        m11: c64 { re: -3037000499i64, im: 0i64 },
    }
}

/// The Hadamard matrix is Hermitian: it equals its own conjugate
/// transpose. (Its exact self-inverse property holds only up to the
/// fixed-point rounding of sqrt(1/2).)
pub proof fn lemma_h_self_adjoint()
    ensures
        crate::matrix::m_adjoint(h_mat()) == h_mat(),
{
}

/// A controlled-phase matrix: identity except the bottom-right entry
/// cos(theta) + i sin(theta), handed in as fixed-point components.
pub open spec fn cp_mat(cv: i64, sv: i64) -> c64x4 {
    c64x4 {
        m00: c64 { re: 0x1_0000_0000i64, im: 0i64 },
        m01: c64 { re: 0i64, im: 0i64 },
        m10: c64 { re: 0i64, im: 0i64 },
        m11: c64 { re: cv, im: sv },
    }
}

/// Fixed-point cosine of pi / 2^m, by half-angle recursion from
/// cos(pi) = -1 and cos(pi/2) = 0.
pub open spec fn cos_fx(m: nat) -> int
    decreases m,
{
    if m == 0 {
        -0x1_0000_0000
    } else if m == 1 {
        0
    } else {
        sqrt_floor((((0x1_0000_0000 + cos_fx((m - 1) as nat)) / 2) * 0x1_0000_0000) as nat) as int
    }
}

/// Fixed-point sine of pi / 2^m, by the matching half-angle recursion.
pub open spec fn sin_fx(m: nat) -> int
    decreases m,
{
    if m == 0 {
        0
    } else if m == 1 {
        0x1_0000_0000
    } else {
        sqrt_floor((((0x1_0000_0000 - cos_fx((m - 1) as nat)) / 2) * 0x1_0000_0000) as nat) as int
    }
}

/// The half-angle values stay within [0, 1] at the fixed-point scale.
pub proof fn lemma_trig_bounds(m: nat)
    requires
        1 <= m,
    ensures
        0 <= cos_fx(m) <= 0x1_0000_0000,
        0 <= sin_fx(m) <= 0x1_0000_0000,
    decreases m,
{
    if m > 1 {
        lemma_trig_bounds((m - 1) as nat);
        let c = cos_fx((m - 1) as nat);
        assert((((0x1_0000_0000 + c) / 2) * 0x1_0000_0000) as nat <= (0x1_0000_0000
            * 0x1_0000_0000) as nat);
        crate::fixed::lemma_sqrt_floor_le(
            (((0x1_0000_0000 + c) / 2) * 0x1_0000_0000) as nat,
            0x1_0000_0000 as nat,
        );
        crate::fixed::lemma_sqrt_floor_le(
            (((0x1_0000_0000 - c) / 2) * 0x1_0000_0000) as nat,
            0x1_0000_0000 as nat,
        );
    }
}

/// The controlled-phase gate for angle pi / 2^m.
pub open spec fn cp_gate_fx(m: nat) -> c64x4 {
    cp_mat(cos_fx(m) as i64, sin_fx(m) as i64)
}

/// Fixed-point cosine and sine of pi / 2^m, computed by the half-angle
/// recursion with the integer square root.
pub fn phase_rotation(m: u64) -> (cs: (i64, i64))
    requires
        1 <= m,
    ensures
        cs.0 as int == cos_fx(m as nat),
        cs.1 as int == sin_fx(m as nat),
        0 <= cs.0 <= 0x1_0000_0000,
        0 <= cs.1 <= 0x1_0000_0000,
{
    let mut k: u64 = 1;
    let mut c: u64 = 0;
    let mut s: u64 = 0x1_0000_0000;
    while k < m
        invariant
            1 <= k <= m,
            c as int == cos_fx(k as nat),
            s as int == sin_fx(k as nat),
            c <= 0x1_0000_0000,
            s <= 0x1_0000_0000,
        decreases m - k,
    {
        let vc: u128 = ((0x1_0000_0000u128 + c as u128) / 2) * 0x1_0000_0000u128;
        let vs: u128 = ((0x1_0000_0000u128 - c as u128) / 2) * 0x1_0000_0000u128;
        let nc: u64 = crate::fixed::isqrt_u128(vc);
        let ns: u64 = crate::fixed::isqrt_u128(vs);
        proof {
            assert(vc as nat == (((0x1_0000_0000 + cos_fx(k as nat)) / 2) * 0x1_0000_0000) as nat);
            assert(vs as nat == (((0x1_0000_0000 - cos_fx(k as nat)) / 2) * 0x1_0000_0000) as nat);
            lemma_trig_bounds((k + 1) as nat);
        }
        c = nc;
        s = ns;
        k = k + 1;
    }
    proof {
        lemma_trig_bounds(m as nat);
    }
    (c as i64, s as i64)
}



/// Both rows of a gate matrix applied to one amplitude pair.
pub open spec fn gate_pair(g: c64x4, p: (c64, c64)) -> (c64, c64) {
    (row0(g, p.0, p.1), row1(g, p.0, p.1))
}

/// One parallel work item of a gate application: the new values of one pair.
fn apply_gate_pair(p: (c64, c64), gate: &QGate) -> (r: (c64, c64))
    ensures
        r == gate_pair(gate.m, p),
{
    let nz: c64 = gate.m.m00.mul(p.0).add(gate.m.m01.mul(p.1));
    let no: c64 = gate.m.m10.mul(p.0).add(gate.m.m11.mul(p.1));
    (nz, no)
}

/// Relies on rayon: `into_par_iter().map(f).collect()` over a vector applies
/// `f` to every element across the worker pool and collects the results in
/// their original order, so element k of the result is `apply_gate_pair` of
/// element k of the input.
#[verifier::external_body]
fn par_map_gate_pairs(pairs: Vec<(c64, c64)>, gate: &QGate) -> (r: Vec<(c64, c64)>)
    ensures
        r@.len() == pairs@.len(),
        forall|k: int| 0 <= k < pairs@.len() ==> #[trigger] r@[k] == gate_pair(gate.m, pairs@[k]),
{
    pairs.into_par_iter().map(|p| apply_gate_pair(p, gate)).collect()
}

/// Both halves of one pair after a controlled gate: each half is rewritten
/// only when its own index (carried in the entry) has the control bit set.
pub open spec fn cgate_pair(g: c64x4, c: u64, e: (u64, u64, c64, c64)) -> (c64, c64) {
    (
        if bit_set(e.0, c) {
            row0(g, e.2, e.3)
        } else {
            e.2
        },
        if bit_set(e.1, c) {
            row1(g, e.2, e.3)
        } else {
            e.3
        },
    )
}

/// One parallel work item of a controlled gate application.
fn apply_cgate_pair(e: (u64, u64, c64, c64), c: u64, gate: &QGate) -> (r: (c64, c64))
    requires
        c <= 63,
    ensures
        r == cgate_pair(gate.m, c, e),
{
    let cbit: u64 = 1u64 << c;
    let nz: c64 = if (e.0 & cbit) > 0 {
        gate.m.m00.mul(e.2).add(gate.m.m01.mul(e.3))
    } else {
        e.2
    };
    let no: c64 = if (e.1 & cbit) > 0 {
        gate.m.m10.mul(e.2).add(gate.m.m11.mul(e.3))
    } else {
        e.3
    };
    (nz, no)
}

/// Relies on rayon: `into_par_iter().map(f).collect()` over a vector applies
/// `f` to every element across the worker pool and collects the results in
/// their original order, so element k of the result is `apply_cgate_pair` of
/// element k of the input.
#[verifier::external_body]
fn par_map_cgate_pairs(entries: Vec<(u64, u64, c64, c64)>, c: u64, gate: &QGate) -> (r: Vec<
    (c64, c64),
>)
    requires
        c <= 63,
    ensures
        r@.len() == entries@.len(),
        forall|k: int|
            0 <= k < entries@.len() ==> #[trigger] r@[k] == cgate_pair(gate.m, c, entries@[k]),
{
    entries.into_par_iter().map(|e| apply_cgate_pair(e, c, gate)).collect()
}


/// The delta state on n qubits: amplitude `a` at basis state 0, zero
/// elsewhere.
pub open spec fn delta_seq(n: nat, a: c64) -> Seq<c64> {
    Seq::new(
        pow2(n),
        |j: int|
            if j == 0 {
                a
            } else {
                c64 { re: 0i64, im: 0i64 }
            },
    )
}

/// The amplitude shared by every basis state after transforming a delta
/// state: the input amplitude scaled by sqrt(1/2) once per qubit.
pub open spec fn uni_amp(n: nat, a: c64) -> c64
    decreases n,
{
    if n == 0 {
        a
    } else {
        c_mul(h_mat().m00, uni_amp((n - 1) as nat, a))
    }
}

/// A register spread over its lowest 2^j basis states: amplitude `w` there,
/// zero above.
pub open spec fn spread(s: Seq<c64>, j: nat, w: c64) -> bool {
    forall|idx: int|
        0 <= idx < s.len() ==> s[idx] == (if idx < pow2(j) {
            w
        } else {
            c64 { re: 0i64, im: 0i64 }
        })
}

/// Either row of any gate matrix sends the zero pair to zero.
proof fn lemma_row_zero(g: c64x4)
    ensures
        row0(g, c64 { re: 0i64, im: 0i64 }, c64 { re: 0i64, im: 0i64 }) == (c64 {
            re: 0i64,
            im: 0i64,
        }),
        row1(g, c64 { re: 0i64, im: 0i64 }, c64 { re: 0i64, im: 0i64 }) == (c64 {
            re: 0i64,
            im: 0i64,
        }),
{
    let z = c64 { re: 0i64, im: 0i64 };
    crate::fixed::lemma_fx_prod_zero(g.m00.re as int);
    crate::fixed::lemma_fx_prod_zero(g.m00.im as int);
    crate::fixed::lemma_fx_prod_zero(g.m01.re as int);
    crate::fixed::lemma_fx_prod_zero(g.m01.im as int);
    crate::fixed::lemma_fx_prod_zero(g.m10.re as int);
    crate::fixed::lemma_fx_prod_zero(g.m10.im as int);
    crate::fixed::lemma_fx_prod_zero(g.m11.re as int);
    crate::fixed::lemma_fx_prod_zero(g.m11.im as int);
    assert(c_mul(g.m00, z) == z);
    assert(c_mul(g.m01, z) == z);
    assert(c_mul(g.m10, z) == z);
    assert(c_mul(g.m11, z) == z);
    assert(c_add(z, z) == z);
}

/// How bit `j` relates an in-range index to the threshold 2^j.
proof fn lemma_bit_vs_range(idx: u64, j: u64, n: u64)
    requires
        j < n,
        n <= 63,
        idx < (1u64 << n),
    ensures
        bit_set(idx, j) ==> idx >= (1u64 << j),
        !bit_set(idx, j) && idx >= (1u64 << j) ==> idx >= 2 * (1u64 << j),
        bit_set(idx, j) ==> ((((idx - (1u64 << j)) as u64) < (1u64 << j)) <==> idx < 2 * (1u64
            << j)),
        !bit_set(idx, j) ==> idx + (1u64 << j) < (1u64 << n),
{
    assert({
        &&& (idx & (1u64 << j) != 0 ==> idx >= (1u64 << j))
        &&& (idx & (1u64 << j) == 0 && idx >= (1u64 << j) ==> idx >= 2 * (1u64 << j))
        &&& (idx & (1u64 << j) != 0 ==> ((((idx - (1u64 << j)) as u64) < (1u64 << j)) <==> idx < 2
            * (1u64 << j)))
        &&& (idx & (1u64 << j) == 0 ==> idx + (1u64 << j) < (1u64 << n))
    }) by (bit_vector)
        requires
            j < n,
            n <= 63,
            idx < (1u64 << n),
    ;
}

/// The partner of an index above the spread boundary stays above it: adding
/// or removing the target bit `t` does not touch the higher bit `j`.
proof fn lemma_bit_partner(idx: u64, j: u64, t: u64, n: u64)
    requires
        t < j,
        j < n,
        n <= 63,
        idx < (1u64 << n),
        bit_set(idx, j),
    ensures
        bit_set(idx, t) ==> bit_set((idx - (1u64 << t)) as u64, j),
        !bit_set(idx, t) ==> idx + (1u64 << t) < (1u64 << n) && bit_set(
            (idx + (1u64 << t)) as u64,
            j,
        ),
{
    assert({
        &&& (idx & (1u64 << t) != 0 ==> ((idx - (1u64 << t)) as u64) & (1u64 << j) != 0)
        &&& (idx & (1u64 << t) == 0 ==> idx + (1u64 << t) < (1u64 << n) && ((idx + (1u64
            << t)) as u64) & (1u64 << j) != 0)
    }) by (bit_vector)
        requires
            t < j,
            j < n,
            n <= 63,
            idx < (1u64 << n),
            idx & (1u64 << j) != 0,
    ;
}

/// A controlled gate whose control qubit is at or above the spread boundary
/// leaves a spread register unchanged: below the boundary the control bit is
/// clear, above it both halves of every pair are zero.
proof fn lemma_cgate_spread(s: Seq<c64>, j: nat, w: c64, n: nat, t: nat, g: c64x4)
    requires
        spread(s, j, w),
        s.len() == pow2(n),
        t < j,
        j < n,
        n <= 63,
    ensures
        cgate_applied(s, j as u64, t as u64, g) == s,
{
    lemma_shl_pow2(j);
    lemma_shl_pow2(t);
    lemma_shl_pow2(n);
    vstd::arithmetic::power2::lemma_pow2_strictly_increases(j, n);
    vstd::arithmetic::power2::lemma_pow2_adds(j, 1);
    vstd::arithmetic::power2::lemma2_to64();
    let r = cgate_applied(s, j as u64, t as u64, g);
    assert forall|idx: int| 0 <= idx < s.len() implies r[idx] == s[idx] by {
        lemma_bit_vs_range(idx as u64, j as u64, n as u64);
        if bit_set(idx as u64, j as u64) {
            lemma_bit_partner(idx as u64, j as u64, t as u64, n as u64);
            assert(idx >= pow2(j));
            assert(s[idx] == (c64 { re: 0i64, im: 0i64 }));
            if bit_set(idx as u64, t as u64) {
                lemma_bit_vs_range(idx as u64, t as u64, n as u64);
                assert(idx >= (1u64 << (t as u64)));
                let p = idx - (1u64 << (t as u64));
                assert(bit_set(p as u64, j as u64));
                lemma_bit_vs_range(p as u64, j as u64, n as u64);
                assert(p >= pow2(j));
                assert(s[p] == (c64 { re: 0i64, im: 0i64 }));
            } else {
                let p = idx + (1u64 << (t as u64));
                assert(p < s.len());
                assert(bit_set(p as u64, j as u64));
                lemma_bit_vs_range(p as u64, j as u64, n as u64);
                assert(p >= pow2(j));
                assert(s[p] == (c64 { re: 0i64, im: 0i64 }));
            }
            lemma_row_zero(g);
        }
    }
    assert(r =~= s);
}

/// The inner rotation loop leaves a register spread below bit `j`
/// unchanged.
proof fn lemma_inner_spread(s: Seq<c64>, j: nat, k: nat, w: c64, n: nat)
    requires
        spread(s, j, w),
        s.len() == pow2(n),
        k <= j,
        j < n,
        n <= 63,
    ensures
        qft_inner(s, j, k) == s,
    decreases k,
{
    if k > 0 {
        lemma_inner_spread(s, j, (k - 1) as nat, w, n);
        lemma_cgate_spread(s, j, w, n, (k - 1) as nat, cp_gate_fx((j - (k - 1)) as nat));
    }
}

/// A Hadamard on the first qubit above the spread boundary doubles the
/// spread: both rows scale the spread amplitude by sqrt(1/2).
proof fn lemma_h_spread(s: Seq<c64>, j: nat, w: c64, n: nat)
    requires
        spread(s, j, w),
        s.len() == pow2(n),
        j < n,
        n <= 63,
    ensures
        spread(gate_applied(s, j as u64, h_mat()), (j + 1) as nat, c_mul(h_mat().m00, w)),
{
    lemma_shl_pow2(j);
    lemma_shl_pow2((j + 1) as nat);
    lemma_shl_pow2(n);
    vstd::arithmetic::power2::lemma_pow2_strictly_increases(j, n);
    vstd::arithmetic::power2::lemma_pow2_adds(j, 1);
    vstd::arithmetic::power2::lemma2_to64();
    let r = gate_applied(s, j as u64, h_mat());
    let w2 = c_mul(h_mat().m00, w);
    let z = c64 { re: 0i64, im: 0i64 };
    assert forall|idx: int| 0 <= idx < r.len() implies r[idx] == (if idx < pow2((j + 1) as nat) {
        w2
    } else {
        z
    }) by {
        lemma_bit_vs_range(idx as u64, j as u64, n as u64);
        lemma_row_zero(h_mat());
        assert(c_mul(h_mat().m01, z) == z);
        assert(c_mul(h_mat().m11, z) == z);
        assert(c_add(c_mul(h_mat().m00, w), z) == c_mul(h_mat().m00, w));
        assert(c_mul(h_mat().m10, w) == c_mul(h_mat().m00, w));
        assert(c_add(c_mul(h_mat().m10, w), z) == c_mul(h_mat().m00, w));
        if bit_set(idx as u64, j as u64) {
            let p = idx - (1u64 << (j as u64));
            assert(r[idx] == row1(h_mat(), s[p], s[idx]));
            assert(s[idx] == z);
            if idx < 2 * pow2(j) {
                assert(p < pow2(j));
                assert(s[p] == w);
            } else {
                assert(p >= pow2(j));
                assert(s[p] == z);
            }
        } else {
            let p = idx + (1u64 << (j as u64));
            assert(r[idx] == row0(h_mat(), s[idx], s[p]));
            assert(p < s.len());
            assert(p >= pow2(j));
            assert(s[p] == z);
            if idx < pow2(j) {
                assert(s[idx] == w);
            } else {
                assert(idx >= 2 * pow2(j));
                assert(s[idx] == z);
            }
        }
    }
}

/// After transforming the first `j` qubits of a delta state, the register is
/// spread uniformly over its lowest 2^j basis states.
proof fn lemma_prefix_spread(n: nat, a: c64, j: nat)
    requires
        j <= n,
        n <= 63,
    ensures
        qft_prefix(delta_seq(n, a), j).len() == pow2(n),
        spread(qft_prefix(delta_seq(n, a), j), j, uni_amp(j, a)),
    decreases j,
{
    vstd::arithmetic::power2::lemma_pow2_pos(n);
    lemma_qft_prefix_len(delta_seq(n, a), j);
    if j == 0 {
        vstd::arithmetic::power2::lemma2_to64();
    } else {
        let jm = (j - 1) as nat;
        lemma_prefix_spread(n, a, jm);
        let base = qft_prefix(delta_seq(n, a), jm);
        lemma_inner_spread(base, jm, jm, uni_amp(jm, a), n);
        lemma_h_spread(base, jm, uni_amp(jm, a), n);
    }
}

/// The transform of a delta state (all weight on basis state 0) is the
/// uniform superposition: every amplitude of the result is the same value,
/// the input amplitude scaled by sqrt(1/2) once per qubit, so no basis state
/// carries a relative phase.
pub proof fn lemma_qft_delta_uniform(n: nat, a: c64)
    requires
        n <= 63,
    ensures
        forall|idx: int|
            0 <= idx < pow2(n) ==> #[trigger] qft_spec(delta_seq(n, a), n)[idx] == uni_amp(n, a),
{
    lemma_prefix_spread(n, a, n);
}

/// A 2x2 unitary gate acting on one target qubit.
pub struct QGate {
    pub m: c64x4,
}

impl QGate {
    /// A gate from its four entries in row-major order.
    pub fn new(z11: c64, z12: c64, z21: c64, z22: c64) -> (r: QGate)
        ensures
            r.m == (c64x4 { m00: z11, m01: z12, m10: z21, m11: z22 }),
    {
        QGate { m: c64x4::new(z11, z12, z21, z22) }
    }

    /// The Hadamard gate: rotates one qubit into the even/odd superposition
    /// basis; every entry sqrt(1/2), the bottom-right negated.
    pub fn h() -> (r: QGate)
        ensures
            r.m == h_mat(),
    {
        QGate::new(
            c64::new(FRAC_1_SQRT_2_FX, 0),
            c64::new(FRAC_1_SQRT_2_FX, 0),
            c64::new(FRAC_1_SQRT_2_FX, 0),
            c64::new(-FRAC_1_SQRT_2_FX, 0),
        )
    }

    /// A controlled-phase gate from the fixed-point cosine and sine of its
    /// angle: identity on the zero half, a phase rotation on the one half.
    pub fn cp(cos_theta: i64, sin_theta: i64) -> (r: QGate)
        ensures
            r.m == cp_mat(cos_theta, sin_theta),
    {
        QGate::new(
            c64::new(0x1_0000_0000i64, 0),
            c64::new(0, 0),
            c64::new(0, 0),
            c64::new(cos_theta, sin_theta),
        )
    }
}

/// The register after the inner rotation loop of the transform: controlled
/// phases with control qubit `j` onto targets `0 .. k`, the phase angle for
/// target `k0` being pi / 2^(j - k0).
pub open spec fn qft_inner(s: Seq<c64>, j: nat, k: nat) -> Seq<c64>
    decreases k,
{
    if k == 0 {
        s
    } else {
        cgate_applied(
            qft_inner(s, j, (k - 1) as nat),
            j as u64,
            (k - 1) as u64,
            cp_gate_fx((j - (k - 1)) as nat),
        )
    }
}

/// The register after the first `j` qubits have been transformed: for each
/// qubit, the inner rotation loop and then a Hadamard.
pub open spec fn qft_prefix(s: Seq<c64>, j: nat) -> Seq<c64>
    decreases j,
{
    if j == 0 {
        s
    } else {
        gate_applied(
            qft_inner(qft_prefix(s, (j - 1) as nat), (j - 1) as nat, (j - 1) as nat),
            (j - 1) as u64,
            h_mat(),
        )
    }
}

/// The full transform of an n-qubit register, in bit-reversed qubit order.
pub open spec fn qft_spec(s: Seq<c64>, n: nat) -> Seq<c64> {
    qft_prefix(s, n)
}

/// The inner rotation loop keeps the register length.
pub proof fn lemma_qft_inner_len(s: Seq<c64>, j: nat, k: nat)
    ensures
        qft_inner(s, j, k).len() == s.len(),
    decreases k,
{
    if k > 0 {
        lemma_qft_inner_len(s, j, (k - 1) as nat);
    }
}

/// The transform keeps the register length.
pub proof fn lemma_qft_prefix_len(s: Seq<c64>, j: nat)
    ensures
        qft_prefix(s, j).len() == s.len(),
    decreases j,
{
    if j > 0 {
        lemma_qft_prefix_len(s, (j - 1) as nat);
        lemma_qft_inner_len(qft_prefix(s, (j - 1) as nat), (j - 1) as nat, (j - 1) as nat);
    }
}

/// A controlled gate leaves every amplitude whose own control bit is clear
/// unchanged, whatever gate matrix and target are used.
pub proof fn lemma_cgate_clear_control(s: Seq<c64>, c: u64, t: u64, g: c64x4)
    ensures
        forall|j: int|
            0 <= j < s.len() && !bit_set(j as u64, c) ==> #[trigger] cgate_applied(s, c, t, g)[j]
                == s[j],
{
}

/// On a single-qubit register the transform is exactly one Hadamard
/// application.
pub proof fn lemma_qft_single_qubit(s: Seq<c64>)
    ensures
        qft_spec(s, 1) == gate_applied(s, 0, h_mat()),
{
    assert(qft_inner(qft_prefix(s, 0), 0, 0) == s);
}


/// The full register: 2^n complex amplitudes, index bits selecting the
/// classical basis state.
pub struct QRegister {
    amps: Vec<c64>,
}

impl View for QRegister {
    type V = Seq<c64>;

    closed spec fn view(&self) -> Seq<c64> {
        self.amps@
    }
}

impl QRegister {
    /// A register from an initial amplitude sequence.
    pub fn new(states: Vec<c64>) -> (r: QRegister)
        ensures
            r@ == states@,
    {
        QRegister { amps: states }
    }

    /// Number of amplitudes.
    pub fn len(&self) -> (n: usize)
        ensures
            n == self@.len(),
    {
        self.amps.len()
    }

    /// The amplitude at basis state `i`.
    pub fn amplitude(&self, i: usize) -> (a: c64)
        requires
            i < self@.len(),
        ensures
            a == self@[i as int],
    {
        self.amps[i]
    }

    /// Apply `gate` to target qubit `t`, sequentially: every pair of
    /// amplitudes differing exactly in bit `t` is replaced by `gate`'s row
    /// combinations of its old values.
    pub fn apply_gate(&mut self, t: usize, gate: &QGate)
        requires
            valid_target(old(self)@.len() as nat, t as nat),
        ensures
            final (self)@ == gate_applied(old(self)@, t as u64, gate.m),
    {
        let ghost s0: Seq<c64> = self@;
        let ghost g: c64x4 = gate.m;
        let len: usize = self.amps.len();
        let ghost n: nat = choose|n: nat| len as nat == pow2(n) && (t as nat) < n;
        proof {
            lemma_qubits_bounded(len as nat, n);
            lemma_shl_pow2(n);
            lemma_shl_pow2(t as nat);
            vstd::arithmetic::power2::lemma_pow2_pos(t as nat);
            vstd::arithmetic::power2::lemma_pow2_adds((n - 1) as nat, 1);
            vstd::arithmetic::power2::lemma2_to64();
        }
        let tt: u64 = t as u64;
        let m: u64 = (1u64 << tt) - 1;
        let step: u64 = 1u64 << tt;
        let half: usize = len / 2;
        let mut i: usize = 0;
        while i < half
            invariant
                self@.len() == len,
                s0.len() == len,
                len as nat == pow2(n),
                (t as nat) < n,
                n <= 63,
                tt == t as u64,
                step == (1u64 << tt),
                m == ((1u64 << tt) - 1) as u64,
                len as u64 == (1u64 << (n as u64)),
                2 * half == len,
                i <= half,
                g == gate.m,
                gate_applied(s0, tt, g).len() == len,
                forall|j: int|
                    0 <= j < len ==> #[trigger] self@[j] == if (pair_of(j as u64, tt) as int)
                        < i as int {
                        gate_applied(s0, tt, g)[j]
                    } else {
                        s0[j]
                    },
            decreases half - i,
        {
            let iu: u64 = i as u64;
            proof {
                lemma_pair_shape(n as u64, tt, iu);
            }
            let z64: u64 = (iu & m) | ((iu & !m) << 1);
            let o64: u64 = z64 | step;
            assert(z64 == zero_state_of(iu, tt));
            assert(o64 == one_state_of(iu, tt));
            let z: usize = z64 as usize;
            let o: usize = o64 as usize;
            let za: c64 = self.amps[z];
            let oa: c64 = self.amps[o];
            assert(za == s0[z as int] && oa == s0[o as int]);
            let nz: c64 = gate.m.m00.mul(za).add(gate.m.m01.mul(oa));
            let no: c64 = gate.m.m10.mul(za).add(gate.m.m11.mul(oa));
            self.amps.set(z, nz);
            self.amps.set(o, no);
            proof {
                assert(nz == gate_applied(s0, tt, g)[z as int]);
                assert(no == gate_applied(s0, tt, g)[o as int]);
                assert forall|j: int|
                    0 <= j < len implies #[trigger] self@[j] == if (pair_of(j as u64, tt) as int)
                    < i as int + 1 {
                    gate_applied(s0, tt, g)[j]
                } else {
                    s0[j]
                } by {
                    lemma_pair_cover(n as u64, tt, j as u64);
                }
            }
            i = i + 1;
        }
        proof {
            assert forall|j: int| 0 <= j < len implies (#[trigger] pair_of(j as u64, tt) as int)
                < half as int by {
                lemma_pair_cover(n as u64, tt, j as u64);
            }
            assert(self@ =~= gate_applied(s0, tt, g));
        }
    }

    /// Apply `gate` with control qubit `c` and target qubit `t`,
    /// sequentially: each half of a pair is rewritten only when its own
    /// control bit is set; both old values are always read.
    pub fn apply_controlled_gate(&mut self, c: usize, t: usize, gate: &QGate)
        requires
            valid_target(old(self)@.len() as nat, t as nat),
            valid_target(old(self)@.len() as nat, c as nat),
        ensures
            final (self)@ == cgate_applied(old(self)@, c as u64, t as u64, gate.m),
    {
        let ghost s0: Seq<c64> = self@;
        let ghost g: c64x4 = gate.m;
        let len: usize = self.amps.len();
        let ghost n: nat = choose|n: nat| len as nat == pow2(n) && (t as nat) < n;
        let ghost nc: nat = choose|n: nat| len as nat == pow2(n) && (c as nat) < n;
        proof {
            lemma_qubits_bounded(len as nat, n);
            lemma_qubits_bounded(len as nat, nc);
            if n != nc {
                vstd::arithmetic::power2::lemma_pow2_strictly_increases(
                    if n < nc {
                        n
                    } else {
                        nc
                    },
                    if n < nc {
                        nc
                    } else {
                        n
                    },
                );
            }
            lemma_shl_pow2(n);
            lemma_shl_pow2(t as nat);
            lemma_shl_pow2(c as nat);
            vstd::arithmetic::power2::lemma_pow2_pos(t as nat);
            vstd::arithmetic::power2::lemma_pow2_adds((n - 1) as nat, 1);
            vstd::arithmetic::power2::lemma2_to64();
        }
        let tt: u64 = t as u64;
        let cc: u64 = c as u64;
        let m: u64 = (1u64 << tt) - 1;
        let step: u64 = 1u64 << tt;
        let cbit: u64 = 1u64 << cc;
        let half: usize = len / 2;
        let mut i: usize = 0;
        while i < half
            invariant
                self@.len() == len,
                s0.len() == len,
                len as nat == pow2(n),
                (t as nat) < n,
                (c as nat) < n,
                n <= 63,
                tt == t as u64,
                cc == c as u64,
                step == (1u64 << tt),
                cbit == (1u64 << cc),
                m == ((1u64 << tt) - 1) as u64,
                len as u64 == (1u64 << (n as u64)),
                2 * half == len,
                i <= half,
                g == gate.m,
                cgate_applied(s0, cc, tt, g).len() == len,
                forall|j: int|
                    0 <= j < len ==> #[trigger] self@[j] == if (pair_of(j as u64, tt) as int)
                        < i as int {
                        cgate_applied(s0, cc, tt, g)[j]
                    } else {
                        s0[j]
                    },
            decreases half - i,
        {
            let iu: u64 = i as u64;
            proof {
                lemma_pair_shape(n as u64, tt, iu);
            }
            let z64: u64 = (iu & m) | ((iu & !m) << 1);
            let o64: u64 = z64 | step;
            assert(z64 == zero_state_of(iu, tt));
            assert(o64 == one_state_of(iu, tt));
            let z: usize = z64 as usize;
            let o: usize = o64 as usize;
            let za: c64 = self.amps[z];
            let oa: c64 = self.amps[o];
            assert(za == s0[z as int] && oa == s0[o as int]);
            if (z64 & cbit) > 0 {
                let nz: c64 = gate.m.m00.mul(za).add(gate.m.m01.mul(oa));
                self.amps.set(z, nz);
                assert(bit_set(z64, cc));
                assert(nz == cgate_applied(s0, cc, tt, g)[z as int]);
            } else {
                assert(!bit_set(z64, cc));
                assert(s0[z as int] == cgate_applied(s0, cc, tt, g)[z as int]);
            }
            if (o64 & cbit) > 0 {
                let no: c64 = gate.m.m10.mul(za).add(gate.m.m11.mul(oa));
                self.amps.set(o, no);
                assert(bit_set(o64, cc));
                assert(no == cgate_applied(s0, cc, tt, g)[o as int]);
            } else {
                assert(!bit_set(o64, cc));
                assert(s0[o as int] == cgate_applied(s0, cc, tt, g)[o as int]);
            }
            proof {
                assert forall|j: int|
                    0 <= j < len implies #[trigger] self@[j] == if (pair_of(j as u64, tt) as int)
                    < i as int + 1 {
                    cgate_applied(s0, cc, tt, g)[j]
                } else {
                    s0[j]
                } by {
                    lemma_pair_cover(n as u64, tt, j as u64);
                }
            }
            i = i + 1;
        }
        proof {
            assert forall|j: int| 0 <= j < len implies (#[trigger] pair_of(j as u64, tt) as int)
                < half as int by {
                lemma_pair_cover(n as u64, tt, j as u64);
            }
            assert(self@ =~= cgate_applied(s0, cc, tt, g));
        }
    }


    /// Apply `gate` to target qubit `t` across parallel workers: the pairs
    /// are gathered by the same addressing scheme, transformed concurrently
    /// (each worker owns disjoint pairs, by the partition property), and
    /// scattered back. The result is identical to `apply_gate`.
    pub fn apply_gate_par(&mut self, t: usize, gate: &QGate)
        requires
            valid_target(old(self)@.len() as nat, t as nat),
        ensures
            final (self)@ == gate_applied(old(self)@, t as u64, gate.m),
    {
        let ghost s0: Seq<c64> = self@;
        let ghost g: c64x4 = gate.m;
        let len: usize = self.amps.len();
        let ghost n: nat = choose|n: nat| len as nat == pow2(n) && (t as nat) < n;
        proof {
            lemma_qubits_bounded(len as nat, n);
            lemma_shl_pow2(n);
            lemma_shl_pow2(t as nat);
            vstd::arithmetic::power2::lemma_pow2_pos(t as nat);
            vstd::arithmetic::power2::lemma_pow2_adds((n - 1) as nat, 1);
            vstd::arithmetic::power2::lemma2_to64();
        }
        let tt: u64 = t as u64;
        let m: u64 = (1u64 << tt) - 1;
        let step: u64 = 1u64 << tt;
        let half: usize = len / 2;
        let mut pairs: Vec<(c64, c64)> = Vec::new();
        let mut i: usize = 0;
        while i < half
            invariant
                self@ == s0,
                s0.len() == len,
                n <= 63,
                (t as nat) < n,
                tt == t as u64,
                step == (1u64 << tt),
                m == ((1u64 << tt) - 1) as u64,
                len as u64 == (1u64 << (n as u64)),
                2 * half == len,
                i <= half,
                pairs@.len() == i,
                forall|ii: int|
                    0 <= ii < i ==> #[trigger] pairs@[ii] == (
                        s0[zero_state_of(ii as u64, tt) as int],
                        s0[one_state_of(ii as u64, tt) as int],
                    ),
            decreases half - i,
        {
            let iu: u64 = i as u64;
            proof {
                lemma_pair_shape(n as u64, tt, iu);
            }
            let z64: u64 = (iu & m) | ((iu & !m) << 1);
            let o64: u64 = z64 | step;
            assert(z64 == zero_state_of(iu, tt));
            assert(o64 == one_state_of(iu, tt));
            let za: c64 = self.amps[z64 as usize];
            let oa: c64 = self.amps[o64 as usize];
            pairs.push((za, oa));
            i = i + 1;
        }
        let out: Vec<(c64, c64)> = par_map_gate_pairs(pairs, gate);
        let mut i: usize = 0;
        while i < half
            invariant
                self@.len() == len,
                s0.len() == len,
                n <= 63,
                (t as nat) < n,
                tt == t as u64,
                step == (1u64 << tt),
                m == ((1u64 << tt) - 1) as u64,
                len as u64 == (1u64 << (n as u64)),
                2 * half == len,
                i <= half,
                g == gate.m,
                out@.len() == half,
                forall|ii: int|
                    0 <= ii < half ==> #[trigger] out@[ii] == gate_pair(
                        g,
                        (
                            s0[zero_state_of(ii as u64, tt) as int],
                            s0[one_state_of(ii as u64, tt) as int],
                        ),
                    ),
                gate_applied(s0, tt, g).len() == len,
                forall|j: int|
                    0 <= j < len ==> #[trigger] self@[j] == if (pair_of(j as u64, tt) as int)
                        < i as int {
                        gate_applied(s0, tt, g)[j]
                    } else {
                        s0[j]
                    },
            decreases half - i,
        {
            let iu: u64 = i as u64;
            proof {
                lemma_pair_shape(n as u64, tt, iu);
            }
            let z64: u64 = (iu & m) | ((iu & !m) << 1);
            let o64: u64 = z64 | step;
            assert(z64 == zero_state_of(iu, tt));
            assert(o64 == one_state_of(iu, tt));
            let z: usize = z64 as usize;
            let o: usize = o64 as usize;
            let p: (c64, c64) = out[i];
            self.amps.set(z, p.0);
            self.amps.set(o, p.1);
            proof {
                assert(p.0 == gate_applied(s0, tt, g)[z as int]);
                assert(p.1 == gate_applied(s0, tt, g)[o as int]);
                assert forall|j: int|
                    0 <= j < len implies #[trigger] self@[j] == if (pair_of(j as u64, tt) as int)
                    < i as int + 1 {
                    gate_applied(s0, tt, g)[j]
                } else {
                    s0[j]
                } by {
                    lemma_pair_cover(n as u64, tt, j as u64);
                }
            }
            i = i + 1;
        }
        proof {
            assert forall|j: int| 0 <= j < len implies (#[trigger] pair_of(j as u64, tt) as int)
                < half as int by {
                lemma_pair_cover(n as u64, tt, j as u64);
            }
            assert(self@ =~= gate_applied(s0, tt, g));
        }
    }

    /// Apply `gate` with control qubit `c` and target qubit `t` across
    /// parallel workers; each worker owns disjoint pairs and tests the
    /// control bit of each half itself. The result is identical to
    /// `apply_controlled_gate`.
    pub fn apply_controlled_gate_par(&mut self, c: usize, t: usize, gate: &QGate)
        requires
            valid_target(old(self)@.len() as nat, t as nat),
            valid_target(old(self)@.len() as nat, c as nat),
        ensures
            final (self)@ == cgate_applied(old(self)@, c as u64, t as u64, gate.m),
    {
        let ghost s0: Seq<c64> = self@;
        let ghost g: c64x4 = gate.m;
        let len: usize = self.amps.len();
        let ghost n: nat = choose|n: nat| len as nat == pow2(n) && (t as nat) < n;
        let ghost nc: nat = choose|n: nat| len as nat == pow2(n) && (c as nat) < n;
        proof {
            lemma_qubits_bounded(len as nat, n);
            lemma_qubits_bounded(len as nat, nc);
            if n != nc {
                vstd::arithmetic::power2::lemma_pow2_strictly_increases(
                    if n < nc {
                        n
                    } else {
                        nc
                    },
                    if n < nc {
                        nc
                    } else {
                        n
                    },
                );
            }
            lemma_shl_pow2(n);
            lemma_shl_pow2(t as nat);
            lemma_shl_pow2(c as nat);
            vstd::arithmetic::power2::lemma_pow2_pos(t as nat);
            vstd::arithmetic::power2::lemma_pow2_adds((n - 1) as nat, 1);
            vstd::arithmetic::power2::lemma2_to64();
        }
        let tt: u64 = t as u64;
        let cc: u64 = c as u64;
        let m: u64 = (1u64 << tt) - 1;
        let step: u64 = 1u64 << tt;
        let half: usize = len / 2;
        let mut entries: Vec<(u64, u64, c64, c64)> = Vec::new();
        let mut i: usize = 0;
        while i < half
            invariant
                self@ == s0,
                s0.len() == len,
                n <= 63,
                (t as nat) < n,
                (c as nat) < n,
                tt == t as u64,
                cc == c as u64,
                step == (1u64 << tt),
                m == ((1u64 << tt) - 1) as u64,
                len as u64 == (1u64 << (n as u64)),
                2 * half == len,
                i <= half,
                entries@.len() == i,
                forall|ii: int|
                    0 <= ii < i ==> #[trigger] entries@[ii] == (
                        zero_state_of(ii as u64, tt),
                        one_state_of(ii as u64, tt),
                        s0[zero_state_of(ii as u64, tt) as int],
                        s0[one_state_of(ii as u64, tt) as int],
                    ),
            decreases half - i,
        {
            let iu: u64 = i as u64;
            proof {
                lemma_pair_shape(n as u64, tt, iu);
            }
            let z64: u64 = (iu & m) | ((iu & !m) << 1);
            let o64: u64 = z64 | step;
            assert(z64 == zero_state_of(iu, tt));
            assert(o64 == one_state_of(iu, tt));
            let za: c64 = self.amps[z64 as usize];
            let oa: c64 = self.amps[o64 as usize];
            entries.push((z64, o64, za, oa));
            i = i + 1;
        }
        let out: Vec<(c64, c64)> = par_map_cgate_pairs(entries, cc, gate);
        let mut i: usize = 0;
        while i < half
            invariant
                self@.len() == len,
                s0.len() == len,
                n <= 63,
                (t as nat) < n,
                (c as nat) < n,
                tt == t as u64,
                cc == c as u64,
                step == (1u64 << tt),
                m == ((1u64 << tt) - 1) as u64,
                len as u64 == (1u64 << (n as u64)),
                2 * half == len,
                i <= half,
                g == gate.m,
                out@.len() == half,
                forall|ii: int|
                    0 <= ii < half ==> #[trigger] out@[ii] == cgate_pair(
                        g,
                        cc,
                        (
                            zero_state_of(ii as u64, tt),
                            one_state_of(ii as u64, tt),
                            s0[zero_state_of(ii as u64, tt) as int],
                            s0[one_state_of(ii as u64, tt) as int],
                        ),
                    ),
                cgate_applied(s0, cc, tt, g).len() == len,
                forall|j: int|
                    0 <= j < len ==> #[trigger] self@[j] == if (pair_of(j as u64, tt) as int)
                        < i as int {
                        cgate_applied(s0, cc, tt, g)[j]
                    } else {
                        s0[j]
                    },
            decreases half - i,
        {
            let iu: u64 = i as u64;
            proof {
                lemma_pair_shape(n as u64, tt, iu);
            }
            let z64: u64 = (iu & m) | ((iu & !m) << 1);
            let o64: u64 = z64 | step;
            assert(z64 == zero_state_of(iu, tt));
            assert(o64 == one_state_of(iu, tt));
            let z: usize = z64 as usize;
            let o: usize = o64 as usize;
            let p: (c64, c64) = out[i];
            self.amps.set(z, p.0);
            self.amps.set(o, p.1);
            proof {
                assert(p.0 == cgate_applied(s0, cc, tt, g)[z as int]);
                assert(p.1 == cgate_applied(s0, cc, tt, g)[o as int]);
                assert forall|j: int|
                    0 <= j < len implies #[trigger] self@[j] == if (pair_of(j as u64, tt) as int)
                    < i as int + 1 {
                    cgate_applied(s0, cc, tt, g)[j]
                } else {
                    s0[j]
                } by {
                    lemma_pair_cover(n as u64, tt, j as u64);
                }
            }
            i = i + 1;
        }
        proof {
            assert forall|j: int| 0 <= j < len implies (#[trigger] pair_of(j as u64, tt) as int)
                < half as int by {
                lemma_pair_cover(n as u64, tt, j as u64);
            }
            assert(self@ =~= cgate_applied(s0, cc, tt, g));
        }
    }

    /// The magnitude of every amplitude, at the fixed-point scale.
    pub fn probabilities(&self) -> (p: Vec<u64>)
        ensures
            p@.len() == self@.len(),
            forall|i: int| 0 <= i < self@.len() ==> #[trigger] p@[i] as nat == c_abs(self@[i]),
    {
        let n: usize = self.amps.len();
        let mut p: Vec<u64> = Vec::new();
        let mut i: usize = 0;
        while i < n
            invariant
                i <= n,
                self@.len() == n,
                p@.len() == i,
                forall|k: int| 0 <= k < i ==> #[trigger] p@[k] as nat == c_abs(self@[k]),
            decreases n - i,
        {
            let a: u64 = self.amps[i].abs();
            p.push(a);
            i = i + 1;
        }
        p
    }

    /// The quantum Fourier transform: for each qubit `j`, controlled-phase
    /// rotations from `j` onto every lower target, then a Hadamard on `j`.
    /// Leaves the transform in bit-reversed qubit order.
    pub fn quantum_fourier_transform(&mut self, nqubits: usize)
        requires
            old(self)@.len() == pow2(nqubits as nat),
        ensures
            final (self)@ == qft_spec(old(self)@, nqubits as nat),
    {
        let ghost s0: Seq<c64> = self@;
        let h: QGate = QGate::h();
        let mut j: usize = 0;
        while j < nqubits
            invariant
                j <= nqubits,
                s0.len() == pow2(nqubits as nat),
                self@ == qft_prefix(s0, j as nat),
                self@.len() == pow2(nqubits as nat),
                h.m == h_mat(),
            decreases nqubits - j,
        {
            let ghost base: Seq<c64> = self@;
            let mut k: usize = 0;
            while k < j
                invariant
                    k <= j < nqubits,
                    s0.len() == pow2(nqubits as nat),
                    base == qft_prefix(s0, j as nat),
                    self@ == qft_inner(base, j as nat, k as nat),
                    self@.len() == pow2(nqubits as nat),
                decreases j - k,
            {
                let (cv, sv) = phase_rotation((j - k) as u64);
                let cpg = QGate::cp(cv, sv);
                proof {
                    lemma_trig_bounds((j - k) as nat);
                    assert(cpg.m == cp_gate_fx((j - k) as nat));
                    assert(self@.len() as nat == pow2(nqubits as nat) && (k as nat) < nqubits as nat);
                    assert(valid_target(self@.len() as nat, k as nat));
                    assert(valid_target(self@.len() as nat, j as nat));
                }
                self.apply_controlled_gate_par(j, k, &cpg);
                k = k + 1;
            }
            proof {
                assert(self@ == qft_inner(base, j as nat, j as nat));
                assert(valid_target(self@.len() as nat, j as nat)) by {
                    assert(self@.len() as nat == pow2(nqubits as nat) && (j as nat) < nqubits as nat);
                }
            }
            self.apply_gate_par(j, &h);
            proof {
                assert(self@ == qft_prefix(s0, (j + 1) as nat));
            }
            j = j + 1;
        }
    }
}

} // verus!
