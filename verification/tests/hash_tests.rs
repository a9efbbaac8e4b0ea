use beacon::HashState;

fn lane(a: u8, b: u8) -> u8 {
    let x1 = a.wrapping_add(b.wrapping_mul(2));
    let x2 = a.wrapping_mul(2).wrapping_add(b.wrapping_mul(2)).wrapping_add(x1);
    let x3 = a.wrapping_mul(2).wrapping_add(b).wrapping_add(x2);
    a.wrapping_add(x1).wrapping_add(x2).wrapping_add(x3.wrapping_mul(2))
}

#[test]
fn hash_two_small_values() {
    let state = HashState::new([0u8; 16], [1u8; 16], [2u8; 16]);
    let digest = state.hash_two([1u8; 32], [2u8; 32]);
    assert_eq!(digest, [47u8; 32]);
}

#[test]
fn hash_two_wraps_modulo_256() {
    let state = HashState::new([7u8; 16], [8u8; 16], [9u8; 16]);
    let digest = state.hash_two([255u8; 32], [255u8; 32]);
    assert_eq!(digest, [225u8; 32]);
}

#[test]
fn hash_two_matches_round_formulas_lane_by_lane() {
    let state = HashState::new([3u8; 16], [4u8; 16], [5u8; 16]);
    let mut one = [0u8; 32];
    let mut two = [0u8; 32];
    for j in 0..32 {
        one[j] = (j as u8).wrapping_mul(37).wrapping_add(11);
        two[j] = (j as u8).wrapping_mul(91).wrapping_add(200);
    }
    let digest = state.hash_two(one, two);
    for j in 0..32 {
        assert_eq!(digest[j], lane(one[j], two[j]));
        assert_eq!(digest[j] as u32, (15 * one[j] as u32 + 16 * two[j] as u32) % 256);
    }
}

#[test]
fn hash_two_does_not_depend_on_keys() {
    let a = HashState::new([0u8; 16], [0u8; 16], [0u8; 16]);
    let b = HashState::new([0xAAu8; 16], [0x55u8; 16], [0x13u8; 16]);
    let mut one = [0u8; 32];
    let mut two = [0u8; 32];
    for j in 0..32 {
        one[j] = j as u8;
        two[j] = 255 - j as u8;
    }
    assert_eq!(a.hash_two(one, two), b.hash_two(one, two));
}

#[test]
fn hash_two_lanes_are_independent_of_position() {
    let state = HashState::new([1u8; 16], [2u8; 16], [3u8; 16]);
    let mut one = [0u8; 32];
    let two = [0u8; 32];
    one[0] = 1;
    one[31] = 1;
    let digest = state.hash_two(one, two);
    assert_eq!(digest[0], 15);
    assert_eq!(digest[31], 15);
    assert_eq!(digest[1], 0);
    assert_eq!(digest[16], 0);
}
