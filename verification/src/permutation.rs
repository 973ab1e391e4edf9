use crate::bits::{lemma_xor_bit, Bit};
use crate::cube::{
    cube_bit, cube_map, cube_x, cube_y, cube_z, lemma_cube_coordinates, lemma_cube_map,
    lemma_lane_index, valid_state,
};
use vstd::arithmetic::div_mod::{
    lemma_fundamental_div_mod, lemma_fundamental_div_mod_converse, lemma_mod_bound,
    lemma_mod_multiples_vanish, lemma_mod_self_0, lemma_small_mod,
};
use vstd::arithmetic::power2::{
    lemma2_to64, lemma2_to64_rest, lemma_pow2_pos, lemma_pow2_strictly_increases,
    lemma_pow2_unfold, pow2,
};
use vstd::prelude::*;

verus! {

/// The largest `l` with `2^l <= w`; 0 for `w` of 0 or 1.
pub open spec fn log2_floor(w: nat) -> nat
    decreases w,
{
    if w <= 1 {
        0
    } else {
        1 + log2_floor(w / 2)
    }
}

/// The exclusive or of the five bits of column `(x, z)`.
pub open spec fn column_parity(s: Seq<Bit>, w: int, x: int, z: int) -> Bit {
    cube_bit(s, w, x, 0, z) ^ cube_bit(s, w, x, 1, z) ^ cube_bit(s, w, x, 2, z) ^ cube_bit(
        s,
        w,
        x,
        3,
        z,
    ) ^ cube_bit(s, w, x, 4, z)
}

/// What θ adds to every bit of column `(x, z)`: the parity of the column
/// to the left, and that of the column to the right one bit back along
/// the lane.
pub open spec fn theta_effect(s: Seq<Bit>, w: int, x: int, z: int) -> Bit {
    column_parity(s, w, (x - 1) % 5, z) ^ column_parity(s, w, (x + 1) % 5, (z - 1) % w)
}

/// The bit at `(x, y, z)` after θ.
pub open spec fn theta_bit(s: Seq<Bit>, w: int, x: int, y: int, z: int) -> Bit {
    cube_bit(s, w, x, y, z) ^ theta_effect(s, w, x, z)
}

/// The state after θ.
pub open spec fn theta(s: Seq<Bit>, w: int) -> Seq<Bit> {
    cube_map(w, theta_of(s, w))
}

/// θ as a function of the coordinate.
pub open spec fn theta_of(s: Seq<Bit>, w: int) -> spec_fn(int, int, int) -> Bit {
    |x: int, y: int, z: int| theta_bit(s, w, x, y, z)
}

/// The lane that ρ visits at step `t`: it starts at `(1, 0)` and goes from
/// `(x, y)` to `(y, (2x + 3y) mod 5)`.
pub open spec fn orbit(t: nat) -> (int, int)
    decreases t,
{
    if t == 0 {
        (1, 0)
    } else {
        let (x, y) = orbit((t - 1) as nat);
        (y, (2 * x + 3 * y) % 5)
    }
}

/// The step at which ρ visits lane `(x, y)`; -1 for lane `(0, 0)`, which
/// it never visits.
pub open spec fn lane_rank(x: int, y: int) -> int {
    if y == 0 {
        if x == 1 {
            0
        } else if x == 2 {
            18
        } else if x == 3 {
            6
        } else if x == 4 {
            12
        } else {
            -1
        }
    } else if y == 1 {
        if x == 0 {
            7
        } else if x == 1 {
            23
        } else if x == 2 {
            2
        } else if x == 3 {
            9
        } else {
            22
        }
    } else if y == 2 {
        if x == 0 {
            1
        } else if x == 1 {
            3
        } else if x == 2 {
            17
        } else if x == 3 {
            16
        } else {
            20
        }
    } else if y == 3 {
        if x == 0 {
            13
        } else if x == 1 {
            8
        } else if x == 2 {
            4
        } else if x == 3 {
            5
        } else {
            15
        }
    } else {
        if x == 0 {
            19
        } else if x == 1 {
            10
        } else if x == 2 {
            21
        } else if x == 3 {
            14
        } else {
            11
        }
    }
}

/// The number of lanes that ρ shifts: those of steps 0 to 22.
pub open spec fn rho_steps() -> int {
    23
}

/// By how many bits ρ shifts lane `(x, y)` of a cube of lane depth `w`:
/// `(t + 1)(t + 2) / 2 mod w` for the lane of step `t`, and not at all for
/// a lane that is not among the shifted ones.
pub open spec fn rho_offset(w: int, x: int, y: int) -> int {
    let t = lane_rank(x, y);
    if 0 <= t < rho_steps() {
        ((t + 1) * (t + 2) / 2) % w
    } else {
        0
    }
}

/// The bit at `(x, y, z)` after ρ.
pub open spec fn rho_bit(s: Seq<Bit>, w: int, x: int, y: int, z: int) -> Bit {
    cube_bit(s, w, x, y, (z - rho_offset(w, x, y)) % w)
}

/// The state after ρ.
pub open spec fn rho(s: Seq<Bit>, w: int) -> Seq<Bit> {
    cube_map(w, rho_of(s, w))
}

/// ρ as a function of the coordinate.
pub open spec fn rho_of(s: Seq<Bit>, w: int) -> spec_fn(int, int, int) -> Bit {
    |x: int, y: int, z: int| rho_bit(s, w, x, y, z)
}

/// The bit at `(x, y, z)` after π.
pub open spec fn pi_bit(s: Seq<Bit>, w: int, x: int, y: int, z: int) -> Bit {
    cube_bit(s, w, (x + 3 * y) % 5, x, z)
}

/// The state after π.
pub open spec fn pi(s: Seq<Bit>, w: int) -> Seq<Bit> {
    cube_map(w, pi_of(s, w))
}

/// π as a function of the coordinate.
pub open spec fn pi_of(s: Seq<Bit>, w: int) -> spec_fn(int, int, int) -> Bit {
    |x: int, y: int, z: int| pi_bit(s, w, x, y, z)
}

/// The bit at `(x, y, z)` after χ.
pub open spec fn chi_bit(s: Seq<Bit>, w: int, x: int, y: int, z: int) -> Bit {
    cube_bit(s, w, x, y, z) ^ ((cube_bit(s, w, (x + 1) % 5, y, z) ^ 1) & cube_bit(
        s,
        w,
        (x + 2) % 5,
        y,
        z,
    ))
}

/// The state after χ.
pub open spec fn chi(s: Seq<Bit>, w: int) -> Seq<Bit> {
    cube_map(w, chi_of(s, w))
}

/// χ as a function of the coordinate.
pub open spec fn chi_of(s: Seq<Bit>, w: int) -> spec_fn(int, int, int) -> Bit {
    |x: int, y: int, z: int| chi_bit(s, w, x, y, z)
}

/// One step of the eight-bit feedback register of the round constants:
/// a shift to the left, and where a bit falls out, it comes back into
/// places 0, 3, 4 and 5.
pub open spec fn lfsr_step(r: u8) -> u8 {
    if r >= 0x80 {
        (r << 1) ^ 0x39
    } else {
        r << 1
    }
}

/// The register after `n` steps from its seed, 1.
pub open spec fn lfsr(n: nat) -> u8
    decreases n,
{
    if n == 0 {
        1
    } else {
        lfsr_step(lfsr((n - 1) as nat))
    }
}

/// The round constant `t`: the lowest bit of the register after
/// `t mod 255` steps.
pub open spec fn round_constant(t: nat) -> Bit {
    lfsr(t % 255) & 1
}

/// The state after the first `j` injections of ι in round `round`:
/// injection `i` adds round constant `i + 7 * round` to bit `2^i - 1` of
/// lane `(0, 0)`.
pub open spec fn iota_upto(s: Seq<Bit>, round: nat, j: nat) -> Seq<Bit>
    decreases j,
{
    if j == 0 {
        s
    } else {
        let before = iota_upto(s, round, (j - 1) as nat);
        let z = pow2((j - 1) as nat) - 1;
        before.update(z, before[z] ^ round_constant((j - 1) as nat + 7 * round))
    }
}

/// The state after ι in round `round`, for a cube of lane depth `w`:
/// `log2_floor(w)` injections.
pub open spec fn iota(s: Seq<Bit>, w: int, round: nat) -> Seq<Bit> {
    iota_upto(s, round, log2_floor(w as nat))
}

/// The state after one round: θ, ρ, π, χ, and ι with the round's index.
pub open spec fn round(s: Seq<Bit>, w: int, index: nat) -> Seq<Bit> {
    iota(chi(pi(rho(theta(s, w), w), w), w), w, index)
}

/// The state after the `count` rounds that start with round `first`.
pub open spec fn rounds(s: Seq<Bit>, w: int, first: nat, count: nat) -> Seq<Bit>
    decreases count,
{
    if count == 0 {
        s
    } else {
        rounds(round(s, w, first), w, first + 1, (count - 1) as nat)
    }
}

/// The number of rounds of the full schedule for lane depth `w`.
pub open spec fn full_rounds(w: int) -> nat {
    12 + 2 * log2_floor(w as nat)
}

/// The state after the last `num_rounds` rounds of the full schedule.
pub open spec fn keccak(s: Seq<Bit>, w: int, num_rounds: nat) -> Seq<Bit> {
    rounds(s, w, (full_rounds(w) - num_rounds) as nat, num_rounds)
}

/// The state with a block added to it, bit by bit.
pub open spec fn xor_block(s: Seq<Bit>, block: Seq<Bit>) -> Seq<Bit> {
    Seq::new(s.len(), |i: int| s[i] ^ block[i])
}

/// The message, followed by as many zero bits as bring its length to a
/// multiple of `block`.
pub open spec fn padded(m: Seq<Bit>, block: int) -> Seq<Bit> {
    m + Seq::new(((block - (m.len() as int) % block) % block) as nat, |i: int| 0u8)
}

/// The state after absorbing a message block by block: each block of
/// `25 * w` bits is added to the state, which then goes through the full
/// schedule of rounds.
pub open spec fn absorb(s: Seq<Bit>, w: int, m: Seq<Bit>) -> Seq<Bit>
    decreases m.len(),
{
    if w <= 0 || m.len() < 25 * w {
        s
    } else {
        absorb(
            keccak(xor_block(s, m.take(25 * w)), w, full_rounds(w)),
            w,
            m.skip(25 * w),
        )
    }
}

/// The initial state for a message: its first `25 * w` bits, and zero
/// where the message has ended.
pub open spec fn seeded(m: Seq<Bit>, w: int) -> Seq<Bit> {
    Seq::new(
        (25 * w) as nat,
        |i: int|
            if i < m.len() {
                m[i]
            } else {
                0u8
            },
    )
}

/// `lane_rank` numbers the lanes as `orbit` visits them.
pub proof fn lemma_orbit_rank(t: nat)
    requires
        t < 24,
    ensures
        0 <= orbit(t).0 < 5,
        0 <= orbit(t).1 < 5,
        lane_rank(orbit(t).0, orbit(t).1) == t,
    decreases t,
{
    if t > 0 {
        lemma_orbit_rank((t - 1) as nat);
        let (x, y) = orbit((t - 1) as nat);
        lemma_rank_step(x, y);
    }
}

/// ρ along the orbit: the lane of step `t`, for `t` from 0 to 22, is the
/// old lane shifted by `(t + 1)(t + 2) / 2 mod w` bits; the lane of step
/// 23 and lane `(0, 0)` are the old lanes.
pub proof fn lemma_rho_on_orbit(s: Seq<Bit>, w: int, t: nat, z: int)
    requires
        t < 24,
        0 <= z < w,
    ensures
        t < 23 ==> cube_bit(rho(s, w), w, orbit(t).0, orbit(t).1, z) == cube_bit(
            s,
            w,
            orbit(t).0,
            orbit(t).1,
            (z - ((t + 1) * (t + 2) / 2) % (w as nat)) % w,
        ),
        t == 23 ==> cube_bit(rho(s, w), w, orbit(t).0, orbit(t).1, z) == cube_bit(
            s,
            w,
            orbit(t).0,
            orbit(t).1,
            z,
        ),
        cube_bit(rho(s, w), w, 0, 0, z) == cube_bit(s, w, 0, 0, z),
{
    lemma_orbit_rank(t);
    let (x, y) = orbit(t);
    lemma_cube_map(w, rho_of(s, w), x, y, z);
    lemma_cube_map(w, rho_of(s, w), 0, 0, z);
    lemma_small_mod(z as nat, w as nat);
}

/// One step along the orbit raises the rank by one.
pub proof fn lemma_rank_step(x: int, y: int)
    requires
        0 <= x < 5,
        0 <= y < 5,
        0 <= lane_rank(x, y) < 23,
    ensures
        lane_rank(y, (2 * x + 3 * y) % 5) == lane_rank(x, y) + 1,
{
}

/// A padded message has a whole number of blocks, and a message that had
/// one already is left as it was.
pub proof fn lemma_padded(m: Seq<Bit>, block: int)
    requires
        0 < block,
    ensures
        padded(m, block).len() % (block as nat) == 0,
        m.len() % (block as nat) == 0 ==> padded(m, block) == m,
        m.len() % (block as nat) != 0 ==> padded(m, block) == m + Seq::new(
            (block - m.len() % (block as nat)) as nat,
            |i: int| 0u8,
        ),
{
    let len = m.len() as int;
    let rest = len % block;
    lemma_mod_bound(len, block);
    lemma_fundamental_div_mod(len, block);
    if rest == 0 {
        lemma_mod_self_0(block);
        assert(padded(m, block) =~= m);
    } else {
        lemma_small_mod((block - rest) as nat, block as nat);
        let q = len / block;
        assert(len + (block - rest) == (q + 1) * block) by (nonlinear_arith)
            requires
                len == block * q + rest,
        ;
        lemma_fundamental_div_mod_converse(len + (block - rest), block, q + 1, 0);
    }
}

/// Going back `off` places along a lane of `w` bits, around its end.
pub proof fn lemma_lane_back(w: int, z: int, off: int)
    requires
        0 <= z < w,
        0 <= off <= w,
    ensures
        (z - off) % w == if z >= off {
            z - off
        } else {
            z + w - off
        },
        0 <= (z - off) % w < w,
{
    if z >= off {
        lemma_fundamental_div_mod_converse(z - off, w, 0, z - off);
    } else {
        lemma_fundamental_div_mod_converse(z - off, w, -1, z + w - off);
    }
}

/// A lane of 8 bits has the logarithm 3, and so 18 rounds.
pub proof fn lemma_full_rounds_8()
    ensures
        log2_floor(8) == 3,
        full_rounds(8) == 18,
{
    reveal_with_fuel(log2_floor, 4);
}

/// `2^log2_floor(w)` is at most `w`, and `w` is below twice that.
pub proof fn lemma_log2_floor(w: nat)
    requires
        w >= 1,
    ensures
        pow2(log2_floor(w)) <= w < 2 * pow2(log2_floor(w)),
        log2_floor(w) < 64 || w >= 0x1_0000_0000_0000_0000,
    decreases w,
{
    reveal(pow2);
    if w <= 1 {
        lemma2_to64();
    } else {
        lemma_log2_floor(w / 2);
        lemma_pow2_unfold(log2_floor(w));
    }
    if log2_floor(w) >= 64 {
        lemma2_to64_rest();
        if log2_floor(w) > 64 {
            lemma_pow2_strictly_increases(64, log2_floor(w));
        }
    }
}

/// The parity of a column of a valid state is a bit.
pub proof fn lemma_column_parity(s: Seq<Bit>, w: int, x: int, z: int)
    requires
        valid_state(s, w),
        0 <= x < 5,
        0 <= z < w,
    ensures
        column_parity(s, w, x, z) <= 1,
{
    lemma_lane_index(w, x, 0, z);
    lemma_lane_index(w, x, 1, z);
    lemma_lane_index(w, x, 2, z);
    lemma_lane_index(w, x, 3, z);
    lemma_lane_index(w, x, 4, z);
    let a = cube_bit(s, w, x, 0, z);
    let b = cube_bit(s, w, x, 1, z);
    let c = cube_bit(s, w, x, 2, z);
    let d = cube_bit(s, w, x, 3, z);
    let e = cube_bit(s, w, x, 4, z);
    lemma_xor_bit(a, b);
    lemma_xor_bit(a ^ b, c);
    lemma_xor_bit(a ^ b ^ c, d);
    lemma_xor_bit(a ^ b ^ c ^ d, e);
}

/// θ makes a valid state of a valid state.
pub proof fn lemma_theta_valid(s: Seq<Bit>, w: int)
    requires
        valid_state(s, w),
    ensures
        valid_state(theta(s, w), w),
{
    let t = theta(s, w);
    assert forall|i: int| 0 <= i < t.len() implies #[trigger] t[i] <= 1 by {
        lemma_cube_coordinates(w, i);
        let x = cube_x(w, i);
        let z = cube_z(w, i);
        lemma_lane_back(w, z, 1);
        lemma_column_parity(s, w, (x - 1) % 5, z);
        lemma_column_parity(s, w, (x + 1) % 5, (z - 1) % w);
        lemma_xor_bit(
            column_parity(s, w, (x - 1) % 5, z),
            column_parity(s, w, (x + 1) % 5, (z - 1) % w),
        );
        lemma_xor_bit(s[i], theta_effect(s, w, x, z));
    }
}

/// ρ makes a valid state of a valid state.
pub proof fn lemma_rho_valid(s: Seq<Bit>, w: int)
    requires
        valid_state(s, w),
    ensures
        valid_state(rho(s, w), w),
{
    let t = rho(s, w);
    assert forall|i: int| 0 <= i < t.len() implies #[trigger] t[i] <= 1 by {
        lemma_cube_coordinates(w, i);
        let x = cube_x(w, i);
        let y = cube_y(w, i);
        let z = cube_z(w, i);
        lemma_rho_offset(w, x, y);
        lemma_lane_back(w, z, rho_offset(w, x, y));
        lemma_lane_index(w, x, y, (z - rho_offset(w, x, y)) % w);
    }
}

/// The shift of a lane is shorter than the lane.
pub proof fn lemma_rho_offset(w: int, x: int, y: int)
    requires
        0 < w,
    ensures
        0 <= rho_offset(w, x, y) < w,
{
    let t = lane_rank(x, y);
    if 0 <= t < rho_steps() {
        lemma_mod_bound((t + 1) * (t + 2) / 2, w);
    }
}

/// π makes a valid state of a valid state.
pub proof fn lemma_pi_valid(s: Seq<Bit>, w: int)
    requires
        valid_state(s, w),
    ensures
        valid_state(pi(s, w), w),
{
    let t = pi(s, w);
    assert forall|i: int| 0 <= i < t.len() implies #[trigger] t[i] <= 1 by {
        lemma_cube_coordinates(w, i);
        let x = cube_x(w, i);
        let y = cube_y(w, i);
        let z = cube_z(w, i);
        lemma_lane_index(w, (x + 3 * y) % 5, x, z);
    }
}

/// χ makes a valid state of a valid state.
pub proof fn lemma_chi_valid(s: Seq<Bit>, w: int)
    requires
        valid_state(s, w),
    ensures
        valid_state(chi(s, w), w),
{
    let t = chi(s, w);
    assert forall|i: int| 0 <= i < t.len() implies #[trigger] t[i] <= 1 by {
        lemma_cube_coordinates(w, i);
        let x = cube_x(w, i);
        let y = cube_y(w, i);
        let z = cube_z(w, i);
        lemma_lane_index(w, (x + 1) % 5, y, z);
        lemma_lane_index(w, (x + 2) % 5, y, z);
        lemma_chi_bit(s[i], cube_bit(s, w, (x + 1) % 5, y, z), cube_bit(s, w, (x + 2) % 5, y, z));
    }
}

/// The first `j` injections of ι make a valid state of a valid state, as
/// long as their places lie in the first lane.
pub proof fn lemma_iota_valid(s: Seq<Bit>, w: int, round: nat, j: nat)
    requires
        valid_state(s, w),
        j <= log2_floor(w as nat),
    ensures
        valid_state(iota_upto(s, round, j), w),
    decreases j,
{
    if j > 0 {
        lemma_iota_valid(s, w, round, (j - 1) as nat);
        lemma_iota_place(w, (j - 1) as nat);
        let before = iota_upto(s, round, (j - 1) as nat);
        let z = pow2((j - 1) as nat) - 1;
        lemma_round_constant((j - 1) as nat + 7 * round);
        lemma_xor_bit(before[z], round_constant((j - 1) as nat + 7 * round));
    }
}

/// Injection `i` of ι, for `i` below `log2_floor(w)`, falls on a bit of
/// the first lane.
pub proof fn lemma_iota_place(w: int, i: nat)
    requires
        0 <= w,
        i < log2_floor(w as nat),
    ensures
        0 <= pow2(i) - 1 < w,
        2 * pow2(i) <= w,
{
    lemma_log2_floor(w as nat);
    lemma_pow2_pos(i);
    lemma_pow2_unfold(i + 1);
    if i + 1 < log2_floor(w as nat) {
        lemma_pow2_strictly_increases(i + 1, log2_floor(w as nat));
    }
}

/// The round constants repeat after 255: a round index may be taken
/// modulo 255 before it is used.
pub proof fn lemma_round_constant_period(i: nat, round: nat)
    ensures
        round_constant(i + 7 * (round % 255)) == round_constant(i + 7 * round),
{
    let q = round / 255;
    let m = round % 255;
    assert(i + 7 * round == 255 * (7 * q) + (i + 7 * m));
    lemma_mod_multiples_vanish(7 * q as int, (i + 7 * m) as int, 255);
}

/// A round constant is a bit.
pub proof fn lemma_round_constant(t: nat)
    ensures
        round_constant(t) <= 1,
{
    let r = lfsr(t % 255);
    assert(r & 1 <= 1) by (bit_vector);
}

/// What χ computes of three bits is a bit.
pub proof fn lemma_chi_bit(a: Bit, b: Bit, c: Bit)
    requires
        a <= 1,
        b <= 1,
        c <= 1,
    ensures
        a ^ ((b ^ 1) & c) <= 1,
{
    assert(a ^ ((b ^ 1) & c) <= 1) by (bit_vector)
        requires
            a <= 1,
            b <= 1,
            c <= 1,
    ;
}

/// A round makes a valid state of a valid state.
pub proof fn lemma_round_valid(s: Seq<Bit>, w: int, index: nat)
    requires
        valid_state(s, w),
    ensures
        valid_state(round(s, w, index), w),
{
    lemma_theta_valid(s, w);
    lemma_rho_valid(theta(s, w), w);
    lemma_pi_valid(rho(theta(s, w), w), w);
    lemma_chi_valid(pi(rho(theta(s, w), w), w), w);
    lemma_iota_valid(chi(pi(rho(theta(s, w), w), w), w), w, index, log2_floor(w as nat));
}

/// Any number of rounds make a valid state of a valid state.
pub proof fn lemma_rounds_valid(s: Seq<Bit>, w: int, first: nat, count: nat)
    requires
        valid_state(s, w),
    ensures
        valid_state(rounds(s, w, first, count), w),
    decreases count,
{
    if count > 0 {
        lemma_round_valid(s, w, first);
        lemma_rounds_valid(round(s, w, first), w, first + 1, (count - 1) as nat);
    }
}

} // verus!
