use crate::bit_stream::{lemma_container_by_bits, stream_bit, BitStream};
use crate::bits::{
    lemma_bit_mask, lemma_word_by_bits, lemma_word_of_bits, lemma_xor_bit, with_bit, word_bit,
    word_of_bits, Bit,
};
use crate::cube::{
    cube_bit, filled, in_cube, lane_index, lemma_filled_all, lemma_filled_fewer,
    lemma_filled_none, lemma_filled_step, lemma_first_lane, lemma_lane_index, valid_state,
};
use crate::error::KeccakError;
use crate::permutation::{
    absorb, chi, chi_of, column_parity, full_rounds, iota, iota_upto, keccak, lane_rank,
    lemma_chi_valid, lemma_iota_place, lemma_iota_valid, lemma_lane_back, lemma_log2_floor,
    lemma_padded, lemma_pi_valid, lemma_rank_step, lemma_rho_offset, lemma_rho_valid,
    lemma_round_constant_period, lemma_theta_valid, lfsr, log2_floor, padded, pi, pi_of, rho,
    rho_of, rho_offset, round_constant, rounds, seeded, theta, theta_effect, theta_of,
    xor_block,
};
use crate::vla::{is_default, VLA};
use vstd::arithmetic::div_mod::lemma_fundamental_div_mod;
use vstd::arithmetic::power2::{lemma2_to64, lemma_pow2_unfold, pow2};
use vstd::prelude::*;

verus! {

/// The coordinates that come before `(x, y, z)` where a step goes column
/// by column: `x` first, then `z`, then `y`.
spec fn by_column(x: int, z: int, y: int) -> spec_fn(int, int, int) -> bool {
    |a: int, b: int, c: int| a < x || (a == x && (c < z || (c == z && b < y)))
}

/// The coordinates that come before `(x, y, z)` where a step goes lane by
/// lane in the order of ρ, `(x, y)` being the lane of rank `rank`.
spec fn by_rank(rank: int, z: int) -> spec_fn(int, int, int) -> bool {
    |a: int, b: int, c: int| lane_rank(a, b) < rank || (lane_rank(a, b) == rank && c < z)
}

/// The coordinates that come before `(x, y, z)` where a step goes lane by
/// lane: `x` first, then `y`, then `z`.
spec fn by_lane(x: int, y: int, z: int) -> spec_fn(int, int, int) -> bool {
    |a: int, b: int, c: int| a < x || (a == x && (b < y || (b == y && c < z)))
}

/// `buffer` is what `VLA::new` hands out for `n` bits: the buffer, all
/// zero, or a failure.
pub open spec fn fresh_buffer(buffer: Result<VLA<Bit>, KeccakError>, n: int) -> bool {
    buffer matches Ok(v) ==> v@.len() == n && forall|i: int|
        0 <= i < n ==> is_default(#[trigger] v@[i])
}

/// The state of the permutation: a cube of 5 by 5 lanes of `depth()` bits
/// each. Beside the state it keeps a second buffer of the same size, into
/// which each step writes its result before the two change places.
pub struct Keccak {
    state: VLA<Bit>,
    state1: VLA<Bit>,
    w: usize,
    l: u64,
}

impl View for Keccak {
    type V = Seq<Bit>;

    /// The bits of the state: the bit at `(x, y, z)` is bit
    /// `lane_index(depth, x, y, z)`.
    closed spec fn view(&self) -> Seq<Bit> {
        self.state@
    }
}

impl Keccak {
    /// The lane depth, as contracts name it.
    pub closed spec fn spec_depth(&self) -> usize {
        self.w
    }

    /// Both buffers have the size of the cube, and the logarithm that is
    /// kept is that of the lane depth.
    pub closed spec fn inv(&self) -> bool {
        &&& 25 * self.w <= usize::MAX
        &&& self.state@.len() == 25 * self.w
        &&& self.state1@.len() == 25 * self.w
        &&& self.l == log2_floor(self.w as nat)
    }

    /// The buffers fit the lane depth, and the state is one of bits.
    pub open spec fn wf(&self) -> bool {
        &&& self.inv()
        &&& valid_state(self@, self.spec_depth() as int)
    }

    /// The lane depth: the number of bits of each lane.
    #[verifier::when_used_as_spec(spec_depth)]
    pub fn depth(&self) -> (w: usize)
        ensures
            w == self.depth(),
    {
        self.w
    }

    /// The largest `l` with `2^l <= w`; 0 for `w` of 0 or 1.
    pub fn log2(w: usize) -> (l: u64)
        ensures
            l == log2_floor(w as nat),
    {
        let mut l: u64 = 0;
        let mut p: usize = w;
        while p > 1
            invariant
                l + log2_floor(p as nat) == log2_floor(w as nat),
                l + p <= w,
            decreases p,
        {
            p = p / 2;
            l = l + 1;
        }
        l
    }

    /// A state whose lane depth is the message's length divided by 25,
    /// rounded down, and which holds the first `25 * depth` bits of the
    /// message.
    ///
    /// The two buffers come from the allocator: where it refuses one, the
    /// result is `AllocationFailure`.
    pub fn new(message: &BitStream) -> (r: Result<Self, KeccakError>)
        requires
            message.wf(),
        ensures
            r matches Ok(k) ==> k.wf() && k.depth() == message@.len() / 25 && k@ == seeded(
                message@,
                k.depth() as int,
            ),
            r matches Err(e) ==> e == KeccakError::AllocationFailure,
    {
        Self::new_sized(message, message.len() / 25)
    }

    /// A state of lane depth `size` that holds the first `25 * size` bits
    /// of the message, and zero where the message is shorter.
    ///
    /// A cube whose size is beyond `usize` cannot be had; otherwise the two
    /// buffers come from the allocator, and where it refuses one, the
    /// result is `AllocationFailure` too.
    pub fn new_sized(message: &BitStream, size: usize) -> (r: Result<Self, KeccakError>)
        requires
            message.wf(),
        ensures
            r matches Ok(k) ==> k.wf() && k.depth() == size && k@ == seeded(
                message@,
                size as int,
            ),
            r matches Err(e) ==> e == KeccakError::AllocationFailure,
            25 * size > usize::MAX ==> r.is_err(),
    {
        if size > usize::MAX / 25 {
            return Err(KeccakError::AllocationFailure);
        }
        let state = VLA::<Bit>::new(25 * size);
        let state1 = VLA::<Bit>::new(25 * size);
        Self::with_buffers(message, size, state, state1)
    }

    /// Finishes what `new_sized` began: `state` and `state1` are what the
    /// allocator gave for the two buffers. Where both are there, the
    /// result is the state seeded with the message; where one is missing,
    /// it is `AllocationFailure`.
    pub fn with_buffers(
        message: &BitStream,
        size: usize,
        state: Result<VLA<Bit>, KeccakError>,
        state1: Result<VLA<Bit>, KeccakError>,
    ) -> (r: Result<Self, KeccakError>)
        requires
            message.wf(),
            25 * size <= usize::MAX,
            fresh_buffer(state, 25 * size),
            fresh_buffer(state1, 25 * size),
        ensures
            state.is_ok() && state1.is_ok() ==> r.is_ok() && r.unwrap().wf() && r.unwrap().depth()
                == size && r.unwrap()@ == seeded(message@, size as int),
            state.is_err() || state1.is_err() ==> r == Err::<Self, KeccakError>(
                KeccakError::AllocationFailure,
            ),
    {
        match (state, state1) {
            (Ok(state), Ok(state1)) => {
                let mut state = state;
                let n = if message.len() < 25 * size {
                    message.len()
                } else {
                    25 * size
                };
                let mut idx: usize = 0;
                while idx < n
                    invariant
                        message.wf(),
                        idx <= n,
                        n <= message@.len(),
                        n <= 25 * size,
                        state@.len() == 25 * size,
                        forall|i: int| 0 <= i < idx ==> #[trigger] state@[i] == message@[i],
                        forall|i: int| idx <= i < 25 * size ==> #[trigger] state@[i] == 0,
                    decreases n - idx,
                {
                    state.write(idx, message.bit(idx));
                    idx = idx + 1;
                }
                let k = Keccak { state, state1, w: size, l: Self::log2(size) };
                proof {
                    assert(k@ =~= seeded(message@, size as int));
                }
                Ok(k)
            },
            _ => Err(KeccakError::AllocationFailure),
        }
    }

    /// The bits of lane `(x, y)`, from `z = 0` on, or `OutOfRange` where
    /// `x` or `y` is not below 5.
    pub fn get_lane(&self, x: usize, y: usize) -> (r: Result<Vec<Bit>, KeccakError>)
        requires
            self.wf(),
        ensures
            x < 5 && y < 5 ==> r.is_ok() && r.unwrap()@ == Seq::new(
                self.depth() as nat,
                |z: int| cube_bit(self@, self.depth() as int, x as int, y as int, z),
            ),
            x >= 5 || y >= 5 ==> r == Err::<Vec<Bit>, KeccakError>(KeccakError::OutOfRange),
    {
        if x >= 5 || y >= 5 {
            return Err(KeccakError::OutOfRange);
        }
        let mut lane: Vec<Bit> = Vec::new();
        let mut z: usize = 0;
        while z < self.w
            invariant
                self.inv(),
                x < 5,
                y < 5,
                z <= self.w,
                lane@ == Seq::new(
                    z as nat,
                    |c: int| cube_bit(self@, self.w as int, x as int, y as int, c),
                ),
            decreases self.w - z,
        {
            lane.push(self.get(x, y, z));
            z = z + 1;
        }
        Ok(lane)
    }

    /// The bit at `(x, y, z)`, or `OutOfRange` where the coordinate lies
    /// outside the cube: `x` or `y` not below 5, or `z` not below the lane
    /// depth.
    pub fn bit(&self, x: usize, y: usize, z: usize) -> (r: Result<Bit, KeccakError>)
        requires
            self.wf(),
        ensures
            in_cube(self.depth() as int, x as int, y as int, z as int) ==> r == Ok::<
                Bit,
                KeccakError,
            >(cube_bit(self@, self.depth() as int, x as int, y as int, z as int)),
            !in_cube(self.depth() as int, x as int, y as int, z as int) ==> r == Err::<
                Bit,
                KeccakError,
            >(KeccakError::OutOfRange),
    {
        if x >= 5 || y >= 5 || z >= self.w {
            return Err(KeccakError::OutOfRange);
        }
        Ok(self.get(x, y, z))
    }

    /// A copy of the state as a container of `25 * depth` bits.
    pub fn get_state(&self) -> (r: BitStream)
        requires
            self.wf(),
        ensures
            r.wf(),
            r@ == self@,
    {
        let n = self.state.len();
        let mut tmp = BitStream::new(n);
        let mut idx: usize = 0;
        while idx < n
            invariant
                self.wf(),
                tmp.wf(),
                idx <= n,
                n == self@.len(),
                tmp@.len() == n,
                forall|i: int| 0 <= i < idx ==> #[trigger] tmp@[i] == self@[i],
            decreases n - idx,
        {
            let b = self.state.read(idx);
            proof {
                lemma_bit_mask(b);
            }
            tmp.put(idx, b);
            idx = idx + 1;
        }
        proof {
            assert(tmp@ =~= self@);
        }
        tmp
    }

    /// The offset of the bit at `(x, y, z)` in the state.
    fn get_idx(&self, x: usize, y: usize, z: usize) -> (i: usize)
        requires
            self.inv(),
            in_cube(self.w as int, x as int, y as int, z as int),
        ensures
            i == lane_index(self.w as int, x as int, y as int, z as int),
            i < 25 * self.w,
    {
        let lane = 5 * y + x;
        proof {
            lemma_lane_index(self.w as int, x as int, y as int, z as int);
            assert(self.w * lane <= 24 * self.w) by (nonlinear_arith)
                requires
                    lane <= 24,
            ;
        }
        self.w * lane + z
    }

    /// The bit of the state at `(x, y, z)`.
    fn get(&self, x: usize, y: usize, z: usize) -> (b: Bit)
        requires
            self.inv(),
            in_cube(self.w as int, x as int, y as int, z as int),
        ensures
            b == cube_bit(self@, self.w as int, x as int, y as int, z as int),
    {
        self.state.read(self.get_idx(x, y, z))
    }

    /// Writes the bit at `(x, y, z)` of the second buffer.
    fn set(&mut self, x: usize, y: usize, z: usize, val: Bit)
        requires
            old(self).inv(),
            in_cube(old(self).w as int, x as int, y as int, z as int),
        ensures
            final(self).inv(),
            final(self).w == old(self).w,
            final(self)@ == old(self)@,
            final(self).state1@ == old(self).state1@.update(
                lane_index(old(self).w as int, x as int, y as int, z as int),
                val,
            ),
    {
        let i = self.get_idx(x, y, z);
        self.state1.write(i, val);
    }

    /// Writes the bit at `(x, y, z)` of the state.
    fn set_state(&mut self, x: usize, y: usize, z: usize, val: Bit)
        requires
            old(self).inv(),
            in_cube(old(self).w as int, x as int, y as int, z as int),
        ensures
            final(self).inv(),
            final(self).w == old(self).w,
            final(self).state1@ == old(self).state1@,
            final(self)@ == old(self)@.update(
                lane_index(old(self).w as int, x as int, y as int, z as int),
                val,
            ),
    {
        let i = self.get_idx(x, y, z);
        self.state.write(i, val);
    }

    /// The parity of column `(x, z)` of the state.
    fn column_parity(&self, x: usize, z: usize) -> (b: Bit)
        requires
            self.inv(),
            x < 5,
            z < self.w,
        ensures
            b == column_parity(self@, self.w as int, x as int, z as int),
    {
        self.get(x, 0, z) ^ self.get(x, 1, z) ^ self.get(x, 2, z) ^ self.get(x, 3, z) ^ self.get(
            x,
            4,
            z,
        )
    }

    /// θ: every bit takes up the parities of two neighbouring columns.
    pub fn theta(&mut self)
        requires
            old(self).wf(),
        ensures
            final(self).wf(),
            final(self).depth() == old(self).depth(),
            final(self)@ == theta(old(self)@, old(self).depth() as int),
    {
        let w = self.w;
        let ghost s = self@;
        let ghost wi = w as int;
        let ghost f = theta_of(s, wi);
        proof {
            lemma_filled_none(self.state1@, wi, f, by_column(0, 0, 0));
        }
        let mut x: usize = 0;
        while x < 5
            invariant
                x <= 5,
                self.inv(),
                self.w == w,
                wi == w,
                self@ == s,
                f == theta_of(s, wi),
                filled(self.state1@, wi, f, by_column(x as int, 0, 0)),
            decreases 5 - x,
        {
            let left = if x == 0 {
                4
            } else {
                x - 1
            };
            let right = if x == 4 {
                0
            } else {
                x + 1
            };
            let mut z: usize = 0;
            while z < w
                invariant
                    x < 5,
                    z <= w,
                    left == (x - 1) % 5,
                    right == (x + 1) % 5,
                    self.inv(),
                    self.w == w,
                    wi == w,
                    self@ == s,
                    f == theta_of(s, wi),
                    filled(self.state1@, wi, f, by_column(x as int, z as int, 0)),
                decreases w - z,
            {
                let back = if z == 0 {
                    w - 1
                } else {
                    z - 1
                };
                proof {
                    lemma_lane_back(wi, z as int, 1);
                }
                let effect = self.column_parity(left, z) ^ self.column_parity(right, back);
                let mut y: usize = 0;
                while y < 5
                    invariant
                        x < 5,
                        y <= 5,
                        z < w,
                        effect == theta_effect(s, wi, x as int, z as int),
                        self.inv(),
                        self.w == w,
                        wi == w,
                        self@ == s,
                        f == theta_of(s, wi),
                        filled(self.state1@, wi, f, by_column(x as int, z as int, y as int)),
                    decreases 5 - y,
                {
                    let ghost before = self.state1@;
                    let bit = self.get(x, y, z) ^ effect;
                    self.set(x, y, z, bit);
                    proof {
                        lemma_filled_step(
                            before,
                            self.state1@,
                            wi,
                            f,
                            by_column(x as int, z as int, y as int),
                            by_column(x as int, z as int, y + 1),
                            x as int,
                            y as int,
                            z as int,
                        );
                    }
                    y = y + 1;
                }
                proof {
                    lemma_filled_fewer(
                        self.state1@,
                        wi,
                        f,
                        by_column(x as int, z as int, 5),
                        by_column(x as int, z + 1, 0),
                    );
                }
                z = z + 1;
            }
            proof {
                lemma_filled_fewer(
                    self.state1@,
                    wi,
                    f,
                    by_column(x as int, w as int, 0),
                    by_column(x + 1, 0, 0),
                );
            }
            x = x + 1;
        }
        proof {
            lemma_filled_all(self.state1@, wi, f, by_column(5, 0, 0));
            lemma_theta_valid(s, wi);
        }
        self.swap();
    }

    /// ρ: the lanes of the first 23 steps of the orbit are shifted along
    /// `z`, each by its own offset; the other two lanes stay as they are.
    pub fn rho(&mut self)
        requires
            old(self).wf(),
        ensures
            final(self).wf(),
            final(self).depth() == old(self).depth(),
            final(self)@ == rho(old(self)@, old(self).depth() as int),
    {
        let w = self.w;
        let ghost s = self@;
        let ghost wi = w as int;
        let ghost f = rho_of(s, wi);
        proof {
            lemma_filled_none(self.state1@, wi, f, by_rank(-1, 0));
        }
        self.shift_lane(0, 0, 0);
        proof {
            lemma_filled_fewer(self.state1@, wi, f, by_rank(-1, wi), by_rank(0, 0));
        }
        let mut x: usize = 1;
        let mut y: usize = 0;
        let mut t: usize = 0;
        while t < 23
            invariant
                t <= 23,
                x < 5,
                y < 5,
                lane_rank(x as int, y as int) == t,
                self.inv(),
                self.w == w,
                wi == w,
                self@ == s,
                f == rho_of(s, wi),
                filled(self.state1@, wi, f, by_rank(t as int, 0)),
            decreases 23 - t,
        {
            assert((t + 1) * (t + 2) <= 600) by (nonlinear_arith)
                requires
                    t < 23,
            ;
            let off = if w > 0 {
                ((t + 1) * (t + 2) / 2) % w
            } else {
                0
            };
            self.shift_lane(x, y, off);
            proof {
                lemma_rank_step(x as int, y as int);
                lemma_filled_fewer(
                    self.state1@,
                    wi,
                    f,
                    by_rank(t as int, wi),
                    by_rank(t + 1, 0),
                );
            }
            let next = (2 * x + 3 * y) % 5;
            x = y;
            y = next;
            t = t + 1;
        }
        self.shift_lane(x, y, 0);
        proof {
            lemma_filled_all(self.state1@, wi, f, by_rank(23, wi));
            lemma_rho_valid(s, wi);
        }
        self.swap();
    }

    /// Writes lane `(x, y)` of the state into the second buffer, shifted
    /// by `off` bits along `z`.
    fn shift_lane(&mut self, x: usize, y: usize, off: usize)
        requires
            old(self).inv(),
            x < 5,
            y < 5,
            old(self).w > 0 ==> off == rho_offset(old(self).w as int, x as int, y as int),
            filled(
                old(self).state1@,
                old(self).w as int,
                rho_of(old(self)@, old(self).w as int),
                by_rank(lane_rank(x as int, y as int), 0),
            ),
        ensures
            final(self).inv(),
            final(self).w == old(self).w,
            final(self)@ == old(self)@,
            filled(
                final(self).state1@,
                old(self).w as int,
                rho_of(old(self)@, old(self).w as int),
                by_rank(lane_rank(x as int, y as int), old(self).w as int),
            ),
    {
        let w = self.w;
        let ghost s = self@;
        let ghost wi = w as int;
        let ghost f = rho_of(s, wi);
        let ghost rank = lane_rank(x as int, y as int);
        let mut z: usize = 0;
        while z < w
            invariant
                z <= w,
                x < 5,
                y < 5,
                w > 0 ==> off == rho_offset(wi, x as int, y as int),
                rank == lane_rank(x as int, y as int),
                self.inv(),
                self.w == w,
                wi == w,
                self@ == s,
                f == rho_of(s, wi),
                filled(self.state1@, wi, f, by_rank(rank, z as int)),
            decreases w - z,
        {
            proof {
                lemma_rho_offset(wi, x as int, y as int);
                lemma_lane_back(wi, z as int, off as int);
            }
            let from = if z >= off {
                z - off
            } else {
                z + w - off
            };
            let ghost before = self.state1@;
            let bit = self.get(x, y, from);
            self.set(x, y, z, bit);
            proof {
                lemma_filled_step(
                    before,
                    self.state1@,
                    wi,
                    f,
                    by_rank(rank, z as int),
                    by_rank(rank, z + 1),
                    x as int,
                    y as int,
                    z as int,
                );
            }
            z = z + 1;
        }
    }

    /// π: the lanes change places: lane `(x, y)` takes what lane
    /// `((x + 3y) mod 5, x)` held.
    pub fn pi(&mut self)
        requires
            old(self).wf(),
        ensures
            final(self).wf(),
            final(self).depth() == old(self).depth(),
            final(self)@ == pi(old(self)@, old(self).depth() as int),
    {
        let w = self.w;
        let ghost s = self@;
        let ghost wi = w as int;
        let ghost f = pi_of(s, wi);
        proof {
            lemma_filled_none(self.state1@, wi, f, by_lane(0, 0, 0));
        }
        let mut x: usize = 0;
        while x < 5
            invariant
                x <= 5,
                self.inv(),
                self.w == w,
                wi == w,
                self@ == s,
                f == pi_of(s, wi),
                filled(self.state1@, wi, f, by_lane(x as int, 0, 0)),
            decreases 5 - x,
        {
            let mut y: usize = 0;
            while y < 5
                invariant
                    x < 5,
                    y <= 5,
                    self.inv(),
                    self.w == w,
                    wi == w,
                    self@ == s,
                    f == pi_of(s, wi),
                    filled(self.state1@, wi, f, by_lane(x as int, y as int, 0)),
                decreases 5 - y,
            {
                let mut z: usize = 0;
                while z < w
                    invariant
                        x < 5,
                        y < 5,
                        z <= w,
                        self.inv(),
                        self.w == w,
                        wi == w,
                        self@ == s,
                        f == pi_of(s, wi),
                        filled(self.state1@, wi, f, by_lane(x as int, y as int, z as int)),
                    decreases w - z,
                {
                    let ghost before = self.state1@;
                    let bit = self.get((x + 3 * y) % 5, x, z);
                    self.set(x, y, z, bit);
                    proof {
                        lemma_filled_step(
                            before,
                            self.state1@,
                            wi,
                            f,
                            by_lane(x as int, y as int, z as int),
                            by_lane(x as int, y as int, z + 1),
                            x as int,
                            y as int,
                            z as int,
                        );
                    }
                    z = z + 1;
                }
                proof {
                    lemma_filled_fewer(
                        self.state1@,
                        wi,
                        f,
                        by_lane(x as int, y as int, wi),
                        by_lane(x as int, y + 1, 0),
                    );
                }
                y = y + 1;
            }
            proof {
                lemma_filled_fewer(
                    self.state1@,
                    wi,
                    f,
                    by_lane(x as int, 5, 0),
                    by_lane(x + 1, 0, 0),
                );
            }
            x = x + 1;
        }
        proof {
            lemma_filled_all(self.state1@, wi, f, by_lane(5, 0, 0));
            lemma_pi_valid(s, wi);
        }
        self.swap();
    }

    /// χ: every bit takes up a combination of the next two bits of its row.
    pub fn chi(&mut self)
        requires
            old(self).wf(),
        ensures
            final(self).wf(),
            final(self).depth() == old(self).depth(),
            final(self)@ == chi(old(self)@, old(self).depth() as int),
    {
        let w = self.w;
        let ghost s = self@;
        let ghost wi = w as int;
        let ghost f = chi_of(s, wi);
        proof {
            lemma_filled_none(self.state1@, wi, f, by_lane(0, 0, 0));
        }
        let mut x: usize = 0;
        while x < 5
            invariant
                x <= 5,
                self.inv(),
                self.w == w,
                wi == w,
                self@ == s,
                f == chi_of(s, wi),
                filled(self.state1@, wi, f, by_lane(x as int, 0, 0)),
            decreases 5 - x,
        {
            let mut y: usize = 0;
            while y < 5
                invariant
                    x < 5,
                    y <= 5,
                    self.inv(),
                    self.w == w,
                    wi == w,
                    self@ == s,
                    f == chi_of(s, wi),
                    filled(self.state1@, wi, f, by_lane(x as int, y as int, 0)),
                decreases 5 - y,
            {
                let mut z: usize = 0;
                while z < w
                    invariant
                        x < 5,
                        y < 5,
                        z <= w,
                        self.inv(),
                        self.w == w,
                        wi == w,
                        self@ == s,
                        f == chi_of(s, wi),
                        filled(self.state1@, wi, f, by_lane(x as int, y as int, z as int)),
                    decreases w - z,
                {
                    let ghost before = self.state1@;
                    let bit = self.get(x, y, z) ^ ((self.get((x + 1) % 5, y, z) ^ 1) & self.get(
                        (x + 2) % 5,
                        y,
                        z,
                    ));
                    self.set(x, y, z, bit);
                    proof {
                        lemma_filled_step(
                            before,
                            self.state1@,
                            wi,
                            f,
                            by_lane(x as int, y as int, z as int),
                            by_lane(x as int, y as int, z + 1),
                            x as int,
                            y as int,
                            z as int,
                        );
                    }
                    z = z + 1;
                }
                proof {
                    lemma_filled_fewer(
                        self.state1@,
                        wi,
                        f,
                        by_lane(x as int, y as int, wi),
                        by_lane(x as int, y + 1, 0),
                    );
                }
                y = y + 1;
            }
            proof {
                lemma_filled_fewer(
                    self.state1@,
                    wi,
                    f,
                    by_lane(x as int, 5, 0),
                    by_lane(x + 1, 0, 0),
                );
            }
            x = x + 1;
        }
        proof {
            lemma_filled_all(self.state1@, wi, f, by_lane(5, 0, 0));
            lemma_chi_valid(s, wi);
        }
        self.swap();
    }

    /// Round constant `t`.
    pub fn rc(t: u64) -> (b: Bit)
        ensures
            b == round_constant(t as nat),
            t % 255 == 0 ==> b == 1,
    {
        let n = t % 255;
        let mut state: u8 = 1;
        let mut i: u64 = 0;
        while i < n
            invariant
                i <= n,
                state == lfsr(i as nat),
            decreases n - i,
        {
            state = if state >= 0x80 {
                (state << 1) ^ 0x39
            } else {
                state << 1
            };
            i = i + 1;
        }
        assert(1u8 & 1 == 1) by (bit_vector);
        state & 1
    }

    /// ι: the round constants of round `round` are added to the bits
    /// `2^j - 1` of lane `(0, 0)`, for `j` below the logarithm of the lane
    /// depth.
    pub fn iota(&mut self, round: u64)
        requires
            old(self).wf(),
        ensures
            final(self).wf(),
            final(self).depth() == old(self).depth(),
            final(self)@ == iota(old(self)@, old(self).depth() as int, round as nat),
    {
        let w = self.w;
        let l = self.l;
        let ghost s = self@;
        let ghost wi = w as int;
        proof {
            if w >= 1 {
                lemma_log2_floor(w as nat);
            }
            assert(pow2(0) == 1) by {
                lemma2_to64();
            }
        }
        let mut j: u64 = 0;
        let mut place: usize = 0;
        while j < l
            invariant
                j <= l,
                l == log2_floor(w as nat),
                l < 64,
                place == pow2(j as nat) - 1,
                self.inv(),
                self.w == w,
                wi == w,
                self@ == iota_upto(s, round as nat, j as nat),
                valid_state(s, wi),
            decreases l - j,
        {
            proof {
                lemma_iota_place(wi, j as nat);
                lemma_lane_index(wi, 0, 0, place as int);
                lemma_pow2_unfold((j + 1) as nat);
                lemma_round_constant_period(j as nat, round as nat);
            }
            let ghost before = self@;
            let constant = Self::rc(j + 7 * (round % 255));
            let bit = self.get(0, 0, place) ^ constant;
            self.set_state(0, 0, place, bit);
            proof {
                lemma_first_lane(wi, place as int);
                assert(constant == round_constant((j + 7 * round) as nat));
                assert(self@ == before.update(
                    place as int,
                    before[place as int] ^ round_constant((j + 7 * round) as nat),
                ));
                assert(iota_upto(s, round as nat, (j + 1) as nat) == before.update(
                    place as int,
                    before[place as int] ^ round_constant((j + 7 * round) as nat),
                ));
            }
            place = 2 * place + 1;
            j = j + 1;
        }
        proof {
            lemma_iota_valid(s, wi, round as nat, l as nat);
        }
    }

    /// The number of rounds of the full schedule: 12 and twice the
    /// logarithm of the lane depth.
    pub fn rounds(&self) -> (n: u64)
        requires
            self.wf(),
        ensures
            n == full_rounds(self.depth() as int),
    {
        proof {
            if self.w >= 1 {
                lemma_log2_floor(self.w as nat);
            }
        }
        12 + 2 * self.l
    }

    /// The last `num_rounds` rounds of the full schedule, each of them θ,
    /// ρ, π, χ and ι: with `rounds()` for `num_rounds` that is the whole
    /// permutation, with less the first rounds are left out.
    pub fn keccak(&mut self, num_rounds: u64)
        requires
            old(self).wf(),
            num_rounds <= full_rounds(old(self).depth() as int),
        ensures
            final(self).wf(),
            final(self).depth() == old(self).depth(),
            final(self)@ == keccak(old(self)@, old(self).depth() as int, num_rounds as nat),
    {
        let total = self.rounds();
        let ghost s = self@;
        let ghost wi = self.w as int;
        let mut r: u64 = total - num_rounds;
        while r < total
            invariant
                total - num_rounds <= r <= total,
                total == full_rounds(wi),
                self.wf(),
                self.depth() == wi,
                rounds(self@, wi, r as nat, (total - r) as nat) == keccak(s, wi, num_rounds as nat),
            decreases total - r,
        {
            self.theta();
            self.rho();
            self.pi();
            self.chi();
            self.iota(r);
            r = r + 1;
        }
    }

    /// The first 64 bits of the state as one word, the first bit in the
    /// most significant place; `OutOfRange` where the state has fewer
    /// than 64 bits.
    pub fn copy_to_u64(&self) -> (r: Result<u64, KeccakError>)
        requires
            self.wf(),
        ensures
            self@.len() >= 64 ==> r == Ok::<u64, KeccakError>(word_of_bits(self@, 64))
                && forall|k: int| 0 <= k < 64 ==> word_bit(r.unwrap(), k) == #[trigger] self@[k],
            self@.len() < 64 ==> r == Err::<u64, KeccakError>(KeccakError::OutOfRange),
    {
        if self.state.len() < 64 {
            return Err(KeccakError::OutOfRange);
        }
        let mut temp: u64 = 0;
        let mut idx: usize = 0;
        while idx < 64
            invariant
                idx <= 64,
                self@.len() >= 64,
                temp == word_of_bits(self@, idx as nat),
            decreases 64 - idx,
        {
            temp = with_bit(temp, idx, self.state.read(idx));
            idx = idx + 1;
        }
        proof {
            assert forall|k: int| 0 <= k < 64 implies word_bit(temp, k) == #[trigger] self@[k] by {
                lemma_word_of_bits(self@, 64, k);
            }
        }
        Ok(temp)
    }

    /// Absorbs a message: it is first brought to a whole number of blocks
    /// of `25 * depth` bits by zero bits at its end, which stay in
    /// `message`; then each block in turn is added to the state, and the
    /// state goes through the full schedule of rounds.
    pub fn sponge_absorb(&mut self, message: &mut BitStream)
        requires
            old(self).wf(),
            old(message).wf(),
            old(self).depth() > 0,
            padded(old(message)@, 25 * old(self).depth()).len() <= usize::MAX,
        ensures
            final(self).wf(),
            final(self).depth() == old(self).depth(),
            final(message).wf(),
            final(message)@ == padded(old(message)@, 25 * old(self).depth()),
            final(self)@ == absorb(old(self)@, old(self).depth() as int, final(message)@),
    {
        let block = self.state.len();
        let ghost s = self@;
        let ghost wi = self.w as int;
        let rest = message.len() % block;
        proof {
            lemma_padded(message@, block as int);
        }
        if rest != 0 {
            message.pad(block - rest);
        }
        proof {
            assert(message@ =~= padded(old(message)@, block as int));
        }
        let blocks = message.len() / block;
        let full = self.rounds();
        let ghost m = message@;
        proof {
            lemma_fundamental_div_mod(m.len() as int, block as int);
            assert(block * blocks == blocks * block) by (nonlinear_arith);
            assert(m.skip(0) =~= m);
        }
        let mut done: usize = 0;
        while done < blocks
            invariant
                done <= blocks,
                block == 25 * wi,
                wi > 0,
                m.len() == blocks * block,
                m.len() <= usize::MAX,
                message@ == m,
                message.wf(),
                full == full_rounds(wi),
                self.wf(),
                self.depth() == wi,
                absorb(self@, wi, m.skip(done * block)) == absorb(s, wi, m),
            decreases blocks - done,
        {
            proof {
                assert(done * block + block <= blocks * block) by (nonlinear_arith)
                    requires
                        done < blocks,
                        0 <= block,
                ;
            }
            let base = done * block;
            let ghost before = self@;
            let mut idx: usize = 0;
            while idx < block
                invariant
                    idx <= block,
                    block == 25 * wi,
                    base + block <= m.len(),
                    m.len() <= usize::MAX,
                    message@ == m,
                    message.wf(),
                    self.inv(),
                    self.w == wi,
                    valid_state(before, wi),
                    self@.len() == block,
                    forall|i: int| 0 <= i < idx ==> #[trigger] self@[i] == before[i] ^ m[base + i],
                    forall|i: int| idx <= i < block ==> #[trigger] self@[i] == before[i],
                decreases block - idx,
            {
                let bit = self.state.read(idx) ^ message.bit(base + idx);
                self.state.write(idx, bit);
                idx = idx + 1;
            }
            proof {
                let rest_of = m.skip(base as int);
                let added = xor_block(before, rest_of.take(block as int));
                assert(self@ =~= added);
                assert forall|i: int| 0 <= i < added.len() implies #[trigger] added[i] <= 1 by {
                    lemma_xor_bit(before[i], m[base + i]);
                }
                assert(rest_of.skip(block as int) =~= m.skip((done + 1) * block)) by {
                    assert((done + 1) * block == base + block) by (nonlinear_arith)
                        requires
                            base == done * block,
                    ;
                }
            }
            self.keccak(full);
            done = done + 1;
        }
        proof {
            assert(m.skip(done * block).len() == 0);
        }
    }

    /// The second buffer becomes the state, and the state the second
    /// buffer.
    fn swap(&mut self)
        requires
            old(self).inv(),
        ensures
            final(self).inv(),
            final(self).w == old(self).w,
            final(self)@ == old(self).state1@,
            final(self).state1@ == old(self)@,
    {
        core::mem::swap(&mut self.state, &mut self.state1);
    }
}

/// A state made from a message gives the message back: the snapshot of a
/// state that `new` or `new_sized` has seeded holds the bits of the
/// message as far as the state reaches, and zero after the message's end.
pub proof fn lemma_seeded_snapshot(message: BitStream, state: Keccak, snapshot: BitStream)
    requires
        state@ == seeded(message@, state.depth() as int),
        snapshot@ == state@,
    ensures
        snapshot@.len() == 25 * state.depth(),
        message@.len() <= 25 * state.depth() ==> snapshot@ == message@ + Seq::new(
            (25 * state.depth() - message@.len()) as nat,
            |i: int| 0u8,
        ),
        message@.len() >= 25 * state.depth() ==> snapshot@ == message@.take(25 * state.depth()),
        message@.len() == 25 * state.depth() ==> snapshot@ == message@,
{
    let size = 25 * state.depth();
    if message@.len() <= size {
        assert(snapshot@ =~= message@ + Seq::new(
            (size - message@.len()) as nat,
            |i: int| 0u8,
        ));
    }
    if message@.len() >= size {
        assert(snapshot@ =~= message@.take(size));
    }
    if message@.len() == size {
        assert(message@.take(size) =~= message@);
    }
}

/// The permutation has no memory and draws on nothing but its state: two
/// states seeded with one message at one lane depth, each taken through
/// the same number of rounds, have equal snapshots, bit for bit and word
/// for word.
pub proof fn lemma_same_seed_same_state(
    message: BitStream,
    size: usize,
    num_rounds: u64,
    first: Keccak,
    second: Keccak,
    first_after: Keccak,
    second_after: Keccak,
    first_snapshot: BitStream,
    second_snapshot: BitStream,
)
    requires
        first.depth() == size,
        second.depth() == size,
        first@ == seeded(message@, size as int),
        second@ == seeded(message@, size as int),
        first_after@ == keccak(first@, first.depth() as int, num_rounds as nat),
        second_after@ == keccak(second@, second.depth() as int, num_rounds as nat),
        first_snapshot.wf(),
        second_snapshot.wf(),
        first_snapshot@ == first_after@,
        second_snapshot@ == second_after@,
    ensures
        first_snapshot@ == second_snapshot@,
        first_snapshot.words() == second_snapshot.words(),
{
    lemma_container_by_bits(first_snapshot, second_snapshot);
}

/// The word that `copy_to_u64` reads from a state is the first backing
/// word of the state's snapshot; and where the state was seeded with a
/// message of at least one word, it is the first word of the message.
pub proof fn lemma_first_word(message: BitStream, state: Keccak, snapshot: BitStream, word: u64)
    requires
        message.wf(),
        snapshot.wf(),
        state.wf(),
        state@.len() >= 64,
        snapshot@ == state@,
        word == word_of_bits(state@, 64),
    ensures
        word == snapshot.words()[0],
        state@ == seeded(message@, state.depth() as int) && message@.len() >= 64 ==> word
            == message.words()[0],
{
    assert forall|k: int| 0 <= k < 64 implies #[trigger] word_bit(word, k) == word_bit(
        snapshot.words()[0],
        k,
    ) by {
        lemma_word_of_bits(state@, 64, k);
        assert(snapshot@[k] == stream_bit(snapshot.words(), k));
    }
    lemma_word_by_bits(word, snapshot.words()[0]);
    if state@ == seeded(message@, state.depth() as int) && message@.len() >= 64 {
        assert forall|k: int| 0 <= k < 64 implies #[trigger] word_bit(word, k) == word_bit(
            message.words()[0],
            k,
        ) by {
            lemma_word_of_bits(state@, 64, k);
            assert(message@[k] == stream_bit(message.words(), k));
        }
        lemma_word_by_bits(word, message.words()[0]);
    }
}

} // verus!
