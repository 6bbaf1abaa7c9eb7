use die_roll::{die_roll, random_int_from_byte};

#[test]
fn die_roll_of_zero_is_one() {
    assert_eq!(die_roll(0), 1);
}

#[test]
fn die_roll_of_the_largest_integer() {
    assert_eq!(u32::MAX % 6, 3);
    assert_eq!(die_roll(u32::MAX), 4);
}

#[test]
fn die_roll_is_remainder_plus_one() {
    let expected = [1, 2, 3, 4, 5, 6, 1, 2, 3, 4, 5, 6, 1];
    for random_int in 0..13u32 {
        assert_eq!(die_roll(random_int), expected[random_int as usize]);
    }
    assert_eq!(die_roll(4_294_967_290), 5);
    assert_eq!(die_roll(4_294_967_291), 6);
    assert_eq!(die_roll(4_294_967_292), 1);
    assert_eq!(die_roll(1_000_000_007), 1_000_000_007 % 6 + 1);
}

#[test]
fn die_roll_stays_on_the_die() {
    let mut random_int: u32 = 0;
    loop {
        let face = die_roll(random_int);
        assert!((1..=6).contains(&face));
        assert_eq!(face, random_int % 6 + 1);
        match random_int.checked_add(65_521) {
            Some(next) => random_int = next,
            None => break,
        }
    }
    for random_int in (u32::MAX - 12)..=u32::MAX {
        assert!((1..=6).contains(&die_roll(random_int)));
    }
}

#[test]
fn each_face_is_reachable_from_a_masked_byte() {
    let mut seen = [false; 7];
    for random_int in 0..8u32 {
        seen[die_roll(random_int) as usize] = true;
    }
    assert_eq!(seen, [false, true, true, true, true, true, true]);
}

#[test]
fn random_int_keeps_the_three_low_bits() {
    assert_eq!(random_int_from_byte(0), 0);
    assert_eq!(random_int_from_byte(7), 7);
    assert_eq!(random_int_from_byte(8), 0);
    assert_eq!(random_int_from_byte(9), 1);
    assert_eq!(random_int_from_byte(0b1010_1101), 0b101);
    assert_eq!(random_int_from_byte(0b1111_1000), 0);
    assert_eq!(random_int_from_byte(0xff), 7);
}

#[test]
fn random_int_is_below_eight_for_every_byte() {
    for byte in 0..=u8::MAX {
        let random_int = random_int_from_byte(byte);
        assert!(random_int < 8);
        assert_eq!(random_int, u32::from(byte & 0b0000_0111));
        assert_eq!(random_int, u32::from(byte) % 8);
    }
}

#[test]
fn masked_bytes_roll_one_and_two_twice_as_often() {
    let mut rolled = [0u32; 7];
    for byte in 0..=u8::MAX {
        rolled[die_roll(random_int_from_byte(byte)) as usize] += 1;
    }
    assert_eq!(rolled, [0, 64, 64, 32, 32, 32, 32]);
}
