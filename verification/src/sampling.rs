use crate::bit_stream::BitStream;
use crate::bits::{word_of_bits, Bit};
use crate::error::KeccakError;
use crate::keccak::Keccak;
use crate::permutation::{full_rounds, keccak, lemma_full_rounds_8, seeded};
use crate::word::packed;
use vstd::prelude::*;

verus! {

/// The lane depth of the state that samples are drawn from.
pub const SAMPLE_DEPTH: usize = 8;

/// The number of rounds between two samples: the full schedule for the
/// lane depth of the sampling state.
pub const SAMPLE_ROUNDS: u64 = 18;

/// A sampling state after `i` draws: `SAMPLE_ROUNDS` rounds follow each
/// draw.
pub open spec fn state_after(s: Seq<Bit>, i: nat) -> Seq<Bit>
    decreases i,
{
    if i == 0 {
        s
    } else {
        keccak(state_after(s, (i - 1) as nat), SAMPLE_DEPTH as int, SAMPLE_ROUNDS as nat)
    }
}

/// The state from which sample `i` is drawn: the state seeded with the
/// one word `seed`, after `i` draws.
pub open spec fn sample_state(seed: u64, i: nat) -> Seq<Bit> {
    state_after(seeded(packed(seq![seed]), SAMPLE_DEPTH as int), i)
}

/// Sample `i`: the first word of its state, reduced modulo `range_max`.
pub open spec fn sample(seed: u64, range_max: u64, i: nat) -> u64 {
    word_of_bits(sample_state(seed, i), 64) % range_max
}

/// `size` samples below `range_max`, drawn from the state that `seed`
/// gives. Nothing but the seed goes into them; the result is
/// `AllocationFailure` where the state cannot be had.
pub fn gen_sample(size: u64, range_max: u64, seed: u64) -> (r: Result<Vec<u64>, KeccakError>)
    requires
        range_max > 0,
    ensures
        r matches Ok(v) ==> v@ == Seq::new(size as nat, |i: int| sample(seed, range_max, i as nat)),
        r matches Ok(v) ==> forall|i: int| 0 <= i < v@.len() ==> #[trigger] v@[i] < range_max,
        r matches Err(e) ==> e == KeccakError::AllocationFailure,
{
    let mut words: Vec<u64> = Vec::new();
    words.push(seed);
    let message = BitStream::from_u64(words.as_slice());
    proof {
        assert(words@ =~= seq![seed]);
    }
    let r = draw(Keccak::new_sized(&message, SAMPLE_DEPTH), size, range_max);
    proof {
        if r.is_ok() {
            assert(r.unwrap()@ =~= Seq::new(
                size as nat,
                |i: int| sample(seed, range_max, i as nat),
            ));
        }
    }
    r
}

/// The samples that a sampling state gives: `size` times its first word,
/// reduced modulo `range_max`, with `SAMPLE_ROUNDS` rounds after each.
/// `generator` is what making the state came to: a failure is handed on as
/// it is.
pub fn draw(generator: Result<Keccak, KeccakError>, size: u64, range_max: u64) -> (r: Result<
    Vec<u64>,
    KeccakError,
>)
    requires
        range_max > 0,
        generator matches Ok(k) ==> k.wf() && k.depth() == SAMPLE_DEPTH,
    ensures
        generator matches Ok(k) ==> r.is_ok() && r.unwrap()@ == Seq::new(
            size as nat,
            |i: int| word_of_bits(state_after(k@, i as nat), 64) % range_max,
        ),
        generator matches Err(e) ==> r == Err::<Vec<u64>, KeccakError>(e),
        r matches Ok(v) ==> forall|i: int| 0 <= i < v@.len() ==> #[trigger] v@[i] < range_max,
{
    let mut generator = match generator {
        Ok(generator) => generator,
        Err(e) => {
            return Err(e);
        },
    };
    let ghost start = generator@;
    proof {
        lemma_full_rounds_8();
    }
    let mut temp: Vec<u64> = Vec::new();
    let mut i: u64 = 0;
    while i < size
        invariant
            i <= size,
            range_max > 0,
            full_rounds(SAMPLE_DEPTH as int) == SAMPLE_ROUNDS,
            generator.wf(),
            generator.depth() == SAMPLE_DEPTH,
            generator@ == state_after(start, i as nat),
            temp@ == Seq::new(
                i as nat,
                |j: int| word_of_bits(state_after(start, j as nat), 64) % range_max,
            ),
        decreases size - i,
    {
        let word = generator.copy_to_u64().unwrap();
        temp.push(word % range_max);
        generator.keccak(SAMPLE_ROUNDS);
        i = i + 1;
        proof {
            assert(temp@ =~= Seq::new(
                i as nat,
                |j: int| word_of_bits(state_after(start, j as nat), 64) % range_max,
            ));
        }
    }
    Ok(temp)
}

} // verus!
