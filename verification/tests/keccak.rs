use rand_keccak::BitStream;
use rand_keccak::Keccak;
use rand_keccak::KeccakError;
use rand_keccak::VLA;

fn twenty_five() -> Keccak {
    Keccak::new(&BitStream::from_str("twenty-five-characters ! ")).unwrap()
}

fn lanes(k: &Keccak) -> Vec<u64> {
    let mut out = Vec::new();
    for y in 0..5 {
        for x in 0..5 {
            let mut v: u64 = 0;
            for bit in k.get_lane(x, y).unwrap() {
                v = (v << 1) | bit as u64;
            }
            out.push(v);
        }
    }
    out
}

#[test]
fn test_keccak_new() {
    // create 200 bit, 5*5*8 state array
    let state = Keccak::new(&BitStream::from_str("abcdefghijklmnopqrstuvwxy")).unwrap();
    assert_eq!(state.get_lane(0, 0).unwrap(), vec!(0, 1, 1, 0, 0, 0, 0, 1));
    assert_eq!(state.get_lane(4, 4).unwrap(), vec!(0, 1, 1, 1, 1, 0, 0, 1))
}

#[test]
fn test_keccak() {
    let bits = BitStream::from_str("twenty-five-characters ! ");
    let mut k1 = Keccak::new(&bits).unwrap();
    let mut k2 = Keccak::new(&bits).unwrap();
    assert_eq!(k1.depth(), 8);
    assert_eq!(k2.depth(), 8);
    k1.keccak(18);
    k2.keccak(18);
    assert_eq!(k1.get_state().as_vec_u64(), k2.get_state().as_vec_u64());
}

#[test]
fn test_theta() {
    let mut k = Keccak::new(&BitStream::from_str(
        "1\0\0\0\01\0\0\0\01\0\0\0\01\0\0\0\01\0\0\0\0",
    ))
    .unwrap();
    // the parity of the first column reaches the second column at the same
    // depth and the fifth one bit further on, around the end of the lane
    let k1 = Keccak::new(&BitStream::from_val(&[
        0x31, 0x31, 0x00, 0x00, 0x98, 0x31, 0x31, 0x00, 0x00, 0x98, 0x31, 0x31, 0x00, 0x00,
        0x98, 0x31, 0x31, 0x00, 0x00, 0x98, 0x31, 0x31, 0x00, 0x00, 0x98_u8,
    ]))
    .unwrap();
    k.theta();
    assert_eq!(k.get_state(), k1.get_state());
}

#[test]
fn new_derives_the_depth_from_the_length() {
    assert_eq!(Keccak::new(&BitStream::new(0)).unwrap().depth(), 0);
    assert_eq!(Keccak::new(&BitStream::new(24)).unwrap().depth(), 0);
    assert_eq!(Keccak::new(&BitStream::new(25)).unwrap().depth(), 1);
    assert_eq!(Keccak::new(&BitStream::new(199)).unwrap().depth(), 7);
    assert_eq!(Keccak::new(&BitStream::new(200)).unwrap().depth(), 8);
    assert_eq!(Keccak::new(&BitStream::new(1600)).unwrap().depth(), 64);
    assert_eq!(Keccak::new(&BitStream::new(199)).unwrap().get_state().len(), 175);
}

#[test]
fn new_keeps_the_bits_that_fit_and_drops_the_rest() {
    let message = BitStream::from_u64(&[0xDEAD_BEEF_1234_5678, 0x0F0F_0F0F_0F0F_0F0F, u64::MAX]);
    let state = Keccak::new(&message).unwrap();
    assert_eq!(state.depth(), 7);
    let snapshot = state.get_state();
    assert_eq!(snapshot.len(), 175);
    for idx in 0..175 {
        assert_eq!(snapshot.get(idx), message.get(idx));
    }
    assert_eq!(
        snapshot.as_vec_u64(),
        vec![0xDEAD_BEEF_1234_5678, 0x0F0F_0F0F_0F0F_0F0F, 0xFFFF_FFFF_FFFE_0000]
    );
}

#[test]
fn new_sized_fills_a_short_message_with_zero() {
    let message = BitStream::from_u64(&[0xDEAD_BEEF_1234_5678]);
    let state = Keccak::new_sized(&message, 8).unwrap();
    assert_eq!(state.depth(), 8);
    assert_eq!(state.get_state().len(), 200);
    assert_eq!(state.get_state().as_vec_u64(), vec![0xDEAD_BEEF_1234_5678, 0, 0, 0]);
    let cut = Keccak::new_sized(&message, 2).unwrap();
    assert_eq!(cut.get_state().len(), 50);
    assert_eq!(cut.get_state().as_vec_u64(), vec![0xDEAD_BEEF_1234_4000]);
    let none = Keccak::new_sized(&message, 0).unwrap();
    assert_eq!(none.get_state().len(), 0);
}

#[test]
fn a_state_of_whole_blocks_gives_the_message_back() {
    let message = BitStream::from_str("twenty-five-characters ! ");
    let state = Keccak::new(&message).unwrap();
    assert_eq!(state.get_state(), message);
    let longer = BitStream::from_str("twenty-five-characters ! twenty-five-characters ? ");
    let first = Keccak::new_sized(&longer, 8).unwrap();
    assert_eq!(first.get_state(), message);
    let whole = Keccak::new(&longer).unwrap();
    assert_eq!(whole.depth(), 16);
    assert_eq!(whole.get_state(), longer);
}

#[test]
fn new_sized_refuses_a_cube_beyond_the_address_space() {
    let message = BitStream::new(0);
    assert!(matches!(
        Keccak::new_sized(&message, usize::MAX / 25 + 1),
        Err(KeccakError::AllocationFailure)
    ));
    assert!(matches!(
        Keccak::new_sized(&message, usize::MAX),
        Err(KeccakError::AllocationFailure)
    ));
    assert!(matches!(
        Keccak::new_sized(&message, usize::MAX / 25),
        Err(KeccakError::AllocationFailure)
    ));
}

#[test]
fn with_buffers_reports_a_missing_buffer() {
    let message = BitStream::from_u64(&[1]);
    assert!(matches!(
        Keccak::with_buffers(
            &message,
            8,
            Err(KeccakError::AllocationFailure),
            VLA::new(200)
        ),
        Err(KeccakError::AllocationFailure)
    ));
    assert!(matches!(
        Keccak::with_buffers(
            &message,
            8,
            VLA::new(200),
            Err(KeccakError::AllocationFailure)
        ),
        Err(KeccakError::AllocationFailure)
    ));
    let state = Keccak::with_buffers(&message, 8, VLA::new(200), VLA::new(200)).unwrap();
    assert_eq!(state.get_state().as_vec_u64(), vec![1, 0, 0, 0]);
}

#[test]
fn log2_rounds_down() {
    assert_eq!(Keccak::log2(0), 0);
    assert_eq!(Keccak::log2(1), 0);
    assert_eq!(Keccak::log2(2), 1);
    assert_eq!(Keccak::log2(3), 1);
    assert_eq!(Keccak::log2(4), 2);
    assert_eq!(Keccak::log2(7), 2);
    assert_eq!(Keccak::log2(8), 3);
    assert_eq!(Keccak::log2(64), 6);
    assert_eq!(Keccak::log2(65), 6);
    assert_eq!(Keccak::log2(usize::MAX), (usize::BITS - 1) as u64);
}

#[test]
fn rounds_are_twelve_and_twice_the_logarithm() {
    assert_eq!(Keccak::new_sized(&BitStream::new(0), 1).unwrap().rounds(), 12);
    assert_eq!(Keccak::new_sized(&BitStream::new(0), 2).unwrap().rounds(), 14);
    assert_eq!(Keccak::new_sized(&BitStream::new(0), 5).unwrap().rounds(), 16);
    assert_eq!(Keccak::new_sized(&BitStream::new(0), 8).unwrap().rounds(), 18);
    assert_eq!(Keccak::new_sized(&BitStream::new(0), 64).unwrap().rounds(), 24);
    assert_eq!(Keccak::new_sized(&BitStream::new(0), 0).unwrap().rounds(), 12);
}

#[test]
fn get_lane_rejects_a_lane_outside_the_cube() {
    let state = twenty_five();
    for (x, y) in [(5, 0), (0, 5), (5, 5), (usize::MAX, 0), (0, usize::MAX), (7, 1)] {
        assert_eq!(state.get_lane(x, y), Err(KeccakError::OutOfRange));
    }
    for x in 0..5 {
        for y in 0..5 {
            assert_eq!(state.get_lane(x, y).unwrap().len(), 8);
        }
    }
    assert_eq!(state.get_lane(1, 0).unwrap(), vec![0, 1, 1, 1, 0, 1, 1, 1]);
    assert_eq!(state.get_lane(0, 1).unwrap(), vec![0, 1, 1, 1, 1, 0, 0, 1]);
}

#[test]
fn theta_on_a_full_state() {
    let mut k = twenty_five();
    k.theta();
    assert_eq!(
        k.get_state().as_vec_u64(),
        vec![0xe08e1d5e7aedd41e, 0x5978f1d41b586fe6, 0x981b446be68a5811, 0x2e00000000000000]
    );
    let mut k = Keccak::new(&BitStream::from_val(&[
        1u8, 2, 3, 4, 5, 6, 7, 8, 9, 10, 11, 12, 13, 14, 15, 16, 17, 18, 19, 20, 21, 22, 23, 24,
        25,
    ]))
    .unwrap();
    k.theta();
    assert_eq!(
        lanes(&k),
        vec![
            0xb, 0x8a, 0x9, 0x81, 0x89, 0xc, 0x8f, 0x2, 0x8c, 0x86, 0x1, 0x84, 0x7, 0x8b, 0x83,
            0x1a, 0x99, 0x18, 0x96, 0x98, 0x1f, 0x9e, 0x1d, 0x9d, 0x95
        ]
    );
}

#[test]
fn rho_shifts_each_lane_by_its_offset() {
    let mut k = Keccak::new(&BitStream::from_val(&[0x80u8; 25])).unwrap();
    k.rho();
    assert_eq!(
        lanes(&k),
        vec![
            0x80, 0x40, 0x02, 0x08, 0x10, 0x08, 0x80, 0x02, 0x01, 0x08, 0x10, 0x20, 0x10, 0x40,
            0x01, 0x40, 0x04, 0x01, 0x04, 0x80, 0x20, 0x20, 0x04, 0x80, 0x02
        ]
    );
    let mut k = twenty_five();
    k.rho();
    assert_eq!(
        k.get_state().as_vec_u64(),
        vec![0x74bb95e68e972d99, 0xd267ac4b6c34c239, 0x0bc6a3659cdc0121, 0x8000000000000000]
    );
}

#[test]
fn pi_moves_the_lanes() {
    let mut k = Keccak::new(&BitStream::from_val(&[
        1u8, 2, 3, 4, 5, 6, 7, 8, 9, 10, 11, 12, 13, 14, 15, 16, 17, 18, 19, 20, 21, 22, 23, 24,
        25,
    ]))
    .unwrap();
    k.pi();
    assert_eq!(
        lanes(&k),
        vec![
            1, 7, 13, 19, 25, 4, 10, 11, 17, 23, 2, 8, 14, 20, 21, 5, 6, 12, 18, 24, 3, 9, 15,
            16, 22
        ]
    );
    let mut k = twenty_five();
    k.pi();
    assert_eq!(
        k.get_state().as_vec_u64(),
        vec![0x742d6374206e7665, 0x6120776668657274, 0x792d632165696172, 0x7300000000000000]
    );
}

#[test]
fn chi_mixes_each_row() {
    let mut k = Keccak::new(&BitStream::from_val(&[
        1u8, 2, 3, 4, 5, 6, 7, 8, 9, 10, 11, 12, 13, 14, 15, 16, 17, 18, 19, 20, 21, 22, 23, 24,
        25,
    ]))
    .unwrap();
    k.chi();
    assert_eq!(
        lanes(&k),
        vec![
            0x0, 0x6, 0x2, 0x4, 0x7, 0xe, 0x6, 0xa, 0xd, 0xb, 0xa, 0xe, 0xc, 0xe, 0xb, 0x12,
            0x10, 0x16, 0x13, 0x15, 0x14, 0x1e, 0x16, 0x1c, 0x1b
        ]
    );
    let mut k = twenty_five();
    k.chi();
    assert_eq!(
        k.get_state().as_vec_u64(),
        vec![0x747d756e773b2470, 0x60722725626c6970, 0x7562666472722073, 0x2100000000000000]
    );
}

#[test]
fn round_constants_follow_the_register() {
    let table = [
        1, 0, 0, 0, 0, 0, 0, 0, 1, 0, 0, 1, 1, 1, 1, 0, 0, 1, 0, 0, 0, 0, 0, 0, 0, 1, 0, 0, 1, 1,
        1,
    ];
    for t in 0..31 {
        assert_eq!(Keccak::rc(t), table[t as usize]);
    }
    assert_eq!(Keccak::rc(0), 1);
    assert_eq!(Keccak::rc(255), 1);
    assert_eq!(Keccak::rc(510), 1);
    assert_eq!(Keccak::rc(254), 0);
    for t in 0..300 {
        assert_eq!(Keccak::rc(t), Keccak::rc(t + 255));
    }
    assert_eq!(Keccak::rc(u64::MAX), Keccak::rc(u64::MAX % 255));
}

#[test]
fn iota_adds_the_round_constants_to_the_first_lane() {
    let mut k = twenty_five();
    k.iota(0);
    assert_eq!(
        k.get_state().as_vec_u64(),
        vec![0xf477656e74792d66, 0x6976652d63686172, 0x6163746572732021, 0x2000000000000000]
    );
    let mut k = twenty_five();
    k.iota(5);
    assert_eq!(k.get_state(), twenty_five().get_state());
    let mut k = twenty_five();
    k.iota(4);
    assert_eq!(k.get_lane(0, 0).unwrap(), vec![1, 0, 1, 0, 0, 1, 0, 0]);
    let mut k = twenty_five();
    k.iota(u64::MAX);
    k.iota(u64::MAX % 255);
    assert_eq!(k.get_state(), twenty_five().get_state());
}

#[test]
fn keccak_runs_the_last_rounds_of_the_schedule() {
    let mut k = twenty_five();
    k.keccak(0);
    assert_eq!(k.get_state(), twenty_five().get_state());
    let mut k = twenty_five();
    k.keccak(1);
    assert_eq!(
        k.get_state().as_vec_u64(),
        vec![0x43d4fb62acdd473c, 0xe1c0433bbc2d816e, 0xdc34788138935e27, 0x2000000000000000]
    );
    let mut k = twenty_five();
    k.keccak(5);
    assert_eq!(
        k.get_state().as_vec_u64(),
        vec![0x274bf31ccdeaeff6, 0x1a7b32c253635742, 0x42998250f82b77d2, 0xb200000000000000]
    );
    let mut k = twenty_five();
    k.keccak(18);
    assert_eq!(
        k.get_state().as_vec_u64(),
        vec![0xe7ea8f1f17fe64f6, 0x6654915ab6489111, 0x70ffb40c2e61954c, 0xd500000000000000]
    );
}

#[test]
fn keccak_is_its_steps_in_turn() {
    let mut whole = twenty_five();
    whole.keccak(2);
    let mut steps = twenty_five();
    for round in 16..18 {
        steps.theta();
        steps.rho();
        steps.pi();
        steps.chi();
        steps.iota(round);
    }
    assert_eq!(whole.get_state(), steps.get_state());
    let mut split = twenty_five();
    let mut k = twenty_five();
    k.keccak(18);
    for round in 0..18 {
        split.theta();
        split.rho();
        split.pi();
        split.chi();
        split.iota(round);
    }
    assert_eq!(k.get_state(), split.get_state());
}

#[test]
fn keccak_on_other_lane_depths() {
    let message =
        BitStream::from_u64(&[0xDEADBEEF12345678, 0x0F0F0F0F0F0F0F0F, 0x8000000000000001]);
    let mut k = Keccak::new_sized(&message, 1).unwrap();
    k.keccak(12);
    assert_eq!(k.get_state().as_vec_u64(), vec![0xcf23678000000000]);
    let mut k = Keccak::new_sized(&message, 3).unwrap();
    k.keccak(14);
    assert_eq!(k.get_state().as_vec_u64(), vec![0xadf006943c9ae925, 0xcfa0000000000000]);
    let mut k = Keccak::new_sized(&message, 5).unwrap();
    k.theta();
    assert_eq!(k.get_state().as_vec_u64(), vec![0x6a3593355e22bb5e, 0x04799c0ab4468dd0]);
    let mut k = Keccak::new_sized(&message, 5).unwrap();
    k.rho();
    assert_eq!(k.get_state().as_vec_u64(), vec![0xdb6cff7709361a74, 0x318f0f268f446f20]);
    let mut k = Keccak::new_sized(&message, 5).unwrap();
    k.keccak(16);
    assert_eq!(k.get_state().as_vec_u64(), vec![0x43288e2ba0b31e36, 0xb5500505a28fc150]);
    let mut k = Keccak::new_sized(&message, 0).unwrap();
    k.keccak(12);
    assert_eq!(k.get_state().len(), 0);
}

#[test]
fn the_first_lane_gives_its_seed_word_back() {
    let state = Keccak::new_sized(&BitStream::from_u64(&[0x1234CDEF]), 64).unwrap();
    let snapshot = state.get_state();
    let mut word: u64 = 0;
    for idx in 0..64 {
        word |= (snapshot.get(idx).unwrap() as u64) << (63 - idx);
    }
    assert_eq!(word, 0x1234CDEF);
    assert_eq!(state.copy_to_u64(), Ok(0x1234CDEF));
    let mut lane: u64 = 0;
    for bit in state.get_lane(0, 0).unwrap() {
        lane = (lane << 1) | bit as u64;
    }
    assert_eq!(lane, 0x1234CDEF);
    let mut state = state;
    state.keccak(24);
    assert_eq!(state.copy_to_u64(), Ok(0xeba7fbabef32bd02));
    assert_eq!(state.get_state().as_vec_u64()[1], 0xd44e24d13e86b56d);
}

#[test]
fn copy_to_u64_needs_sixty_four_bits() {
    let message = BitStream::from_u64(&[u64::MAX]);
    assert_eq!(
        Keccak::new_sized(&message, 0).unwrap().copy_to_u64(),
        Err(KeccakError::OutOfRange)
    );
    assert_eq!(
        Keccak::new_sized(&message, 2).unwrap().copy_to_u64(),
        Err(KeccakError::OutOfRange)
    );
    assert_eq!(
        Keccak::new_sized(&message, 3).unwrap().copy_to_u64(),
        Ok(0xFFFF_FFFF_FFFF_FFFF)
    );
    assert_eq!(twenty_five().copy_to_u64(), Ok(0x7477656e74792d66));
}

#[test]
fn sponge_absorb_pads_the_message_in_place() {
    let mut state = Keccak::new_sized(&BitStream::new(0), 8).unwrap();
    let mut message = BitStream::from_str("hello");
    state.sponge_absorb(&mut message);
    assert_eq!(message.len(), 200);
    assert_eq!(message.as_vec_u64(), vec![0x68656c6c6f000000, 0, 0, 0]);
    assert_eq!(
        state.get_state().as_vec_u64(),
        vec![0x4500786058d8b508, 0x015050174ce94991, 0xf79f2e88571f64a0, 0x2e00000000000000]
    );
}

#[test]
fn sponge_absorb_takes_a_whole_block_as_it_is() {
    let mut state = Keccak::new_sized(&BitStream::new(0), 8).unwrap();
    let mut message = BitStream::from_str("twenty-five-characters ! ");
    state.sponge_absorb(&mut message);
    assert_eq!(message, BitStream::from_str("twenty-five-characters ! "));
    let mut once = twenty_five();
    once.keccak(18);
    assert_eq!(state.get_state(), once.get_state());
}

#[test]
fn sponge_absorb_runs_once_for_each_block() {
    let mut state = Keccak::new(&BitStream::from_str("abcdefghijklmnopqrstuvwxy")).unwrap();
    let bytes: Vec<u8> = (0..60).collect();
    let mut message = BitStream::from_val(&bytes);
    state.sponge_absorb(&mut message);
    assert_eq!(message.len(), 600);
    assert_eq!(
        message.as_vec_u64(),
        vec![
            0x0001020304050607,
            0x08090a0b0c0d0e0f,
            0x1011121314151617,
            0x18191a1b1c1d1e1f,
            0x2021222324252627,
            0x28292a2b2c2d2e2f,
            0x3031323334353637,
            0x38393a3b00000000,
            0,
            0
        ]
    );
    assert_eq!(
        state.get_state().as_vec_u64(),
        vec![0xd129bee1bc3017b2, 0x5037a06f97eaf105, 0x9c67f524a7128623, 0xf000000000000000]
    );
}

#[test]
fn sponge_absorb_of_nothing_changes_nothing() {
    let mut state = twenty_five();
    let mut message = BitStream::new(0);
    state.sponge_absorb(&mut message);
    assert_eq!(message.len(), 0);
    assert_eq!(state.get_state(), twenty_five().get_state());
}

#[test]
fn equal_states_stay_equal() {
    for rounds in [0u64, 1, 7, 18] {
        for depth in [1usize, 4, 8] {
            let message = BitStream::from_str("twenty-five-characters ! ");
            let mut a = Keccak::new_sized(&message, depth).unwrap();
            let mut b = Keccak::new_sized(&message, depth).unwrap();
            let n = if rounds > a.rounds() { a.rounds() } else { rounds };
            a.keccak(n);
            b.keccak(n);
            assert_eq!(a.get_state(), b.get_state());
            assert_eq!(a.get_state().as_vec_u64(), b.get_state().as_vec_u64());
        }
    }
}

#[test]
fn bit_rejects_a_coordinate_outside_the_cube() {
    let state = twenty_five();
    assert_eq!(state.bit(0, 0, 0), Ok(0));
    assert_eq!(state.bit(0, 0, 1), Ok(1));
    assert_eq!(state.bit(4, 4, 7), Ok(0));
    assert_eq!(state.bit(4, 4, 2), Ok(1));
    for (x, y, z) in [
        (5, 0, 0),
        (0, 5, 0),
        (0, 0, 8),
        (4, 4, 8),
        (6, 1, 3),
        (usize::MAX, 0, 0),
        (0, usize::MAX, 0),
        (0, 0, usize::MAX),
    ] {
        assert_eq!(state.bit(x, y, z), Err(KeccakError::OutOfRange));
    }
    for y in 0..5 {
        for x in 0..5 {
            let lane = state.get_lane(x, y).unwrap();
            for z in 0..8 {
                assert_eq!(state.bit(x, y, z), Ok(lane[z]));
            }
        }
    }
    let empty = Keccak::new(&BitStream::new(0)).unwrap();
    assert_eq!(empty.bit(0, 0, 0), Err(KeccakError::OutOfRange));
    assert_eq!(empty.get_lane(0, 0), Ok(vec![]));
}
