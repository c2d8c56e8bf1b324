use dice_mapper::character::{Character, DiceError, Roll};
use dice_mapper::partition::Partition;

fn ceil_split(dice: u32) -> Vec<u8> {
    (1..=20u32).map(|x| ((x * dice + 19) / 20) as u8).collect()
}

fn label_sum(m: &[u8]) -> u32 {
    m.iter().map(|&l| l as u32).sum()
}

fn assert_valid(m: &[u8], dice: u8) {
    assert_eq!(m.len(), 20);
    for &l in m {
        assert!(l >= 1 && l <= dice);
    }
    for w in m.windows(2) {
        assert!(w[0] <= w[1]);
    }
}

fn sizes(p: &Partition) -> Vec<usize> {
    p.bags.iter().map(|b| b.len()).collect()
}

#[test]
fn six_sided_even_split() {
    let m = Character::derive_d20_map(6, 0).unwrap();
    assert_eq!(m, vec![1, 1, 1, 2, 2, 2, 3, 3, 3, 3, 4, 4, 4, 5, 5, 5, 6, 6, 6, 6]);
}

#[test]
fn six_sided_bias_three_skews_upward() {
    for _ in 0..50 {
        let m = Character::derive_d20_map(6, 3).unwrap();
        assert_valid(&m, 6);
        for label in 1..=6u8 {
            assert!(m.contains(&label));
        }
        assert_eq!(label_sum(&m), label_sum(&ceil_split(6)) + 3);
    }
}

#[test]
fn six_sided_negative_bias_skews_downward() {
    for _ in 0..50 {
        let m = Character::derive_d20_map(6, -3).unwrap();
        assert_valid(&m, 6);
        assert_eq!(label_sum(&m), label_sum(&ceil_split(6)) - 3);
    }
}

#[test]
fn zero_dice_is_rejected() {
    for b in -50..=50i8 {
        assert_eq!(Character::derive_d20_map(0, b), Err(DiceError::InvalidDiceCount));
    }
    assert!(matches!(Character::new(0, 3), Err(DiceError::InvalidDiceCount)));
}

#[test]
fn every_mapping_covers_and_is_monotone() {
    for dice in 1..=255u8 {
        for b in -50..=50i8 {
            let m = Character::derive_d20_map(dice, b).unwrap();
            assert_valid(&m, dice);
        }
    }
}

#[test]
fn zero_bias_is_the_unbiased_split() {
    for dice in 1..=255u8 {
        let m = Character::derive_d20_map(dice, 0).unwrap();
        let p = Character::derive_dice_map(dice, false);
        assert_eq!(m, Character::dice_map_to_d20_map(&p));
        assert_eq!(m, ceil_split(dice as u32));
    }
}

#[test]
fn saturated_bias_is_fixed() {
    let two = vec![1, 2, 2, 2, 2, 2, 2, 2, 2, 2, 2, 2, 2, 2, 2, 2, 2, 2, 2, 2];
    assert_eq!(Character::derive_d20_map(2, 9).unwrap(), two);
    assert_eq!(Character::derive_d20_map(2, 50).unwrap(), two);
    let mut three = vec![3u8; 20];
    three[0] = 1;
    three[1] = 2;
    for b in [16i8, 17, 50, 127] {
        assert_eq!(Character::derive_d20_map(3, b).unwrap(), three);
    }
    let mut low = vec![1u8; 20];
    low[18] = 2;
    low[19] = 3;
    for b in [-18i8, -50, -128] {
        assert_eq!(Character::derive_d20_map(3, b).unwrap(), low);
    }
}

#[test]
fn one_sided_die_maps_everything_to_one() {
    assert_eq!(Character::derive_d20_map(1, 40).unwrap(), vec![1u8; 20]);
}

#[test]
fn twenty_or_more_sides_never_redistribute() {
    for dice in 20..=255u8 {
        assert_eq!(Character::derive_d20_map(dice, 50).unwrap(), ceil_split(dice as u32));
        assert_eq!(Character::derive_d20_map(dice, -50).unwrap(), ceil_split(dice as u32));
    }
}

#[test]
fn unbiased_partition_layout() {
    let p = Character::derive_dice_map(6, false);
    assert_eq!(p.labels, vec![1, 2, 3, 4, 5, 6]);
    assert_eq!(sizes(&p), vec![3, 3, 4, 3, 3, 4]);
    assert_eq!(p.bags[0], vec![1, 2, 3]);
    let q = Character::derive_dice_map(6, true);
    assert_eq!(q.labels, vec![6, 5, 4, 3, 2, 1]);
    assert_eq!(q.bags[0], vec![20, 19, 18, 17]);
    assert_eq!(q.bags[5], vec![3, 2, 1]);
}

#[test]
fn partition_holds_each_face_once() {
    for dice in 1..=30u8 {
        let p = Character::derive_dice_map(dice, dice % 2 == 0);
        let mut seen = vec![0u32; 21];
        for bag in &p.bags {
            for &f in bag {
                seen[f as usize] += 1;
            }
        }
        assert!(seen[1..].iter().all(|&c| c == 1));
    }
}

#[test]
fn increment_with_moves_top_face_up() {
    let mut p = Character::derive_dice_map(6, false);
    assert!(Character::increment_with(&mut p, 0));
    assert_eq!(p.bags[0], vec![1, 2]);
    assert_eq!(p.bags[1], vec![3, 4, 5, 6]);
    assert!(Character::increment_with(&mut p, 4));
    assert_eq!(p.bags[4], vec![14, 15]);
    assert_eq!(p.bags[5], vec![16, 17, 18, 19, 20]);
    assert_eq!(
        Character::dice_map_to_d20_map(&p),
        vec![1, 1, 2, 2, 2, 2, 3, 3, 3, 3, 4, 4, 4, 5, 5, 6, 6, 6, 6, 6]
    );
}

#[test]
fn increment_with_descending_moves_low_face_down() {
    let mut p = Character::derive_dice_map(6, true);
    assert!(Character::increment_with(&mut p, 0));
    assert_eq!(p.bags[0], vec![20, 19, 18]);
    assert_eq!(p.bags[1], vec![17, 16, 15, 14]);
    assert_eq!(Character::dice_map_to_d20_map(&p)[16], 5);
}

#[test]
fn increment_with_without_donor_changes_nothing() {
    let mut p = Character::derive_dice_map(20, false);
    assert!(!Character::increment_with(&mut p, 0));
    assert_eq!(Character::dice_map_to_d20_map(&p), ceil_split(20));
}

#[test]
fn do_increments_stops_when_saturated() {
    let mut p = Character::derive_dice_map(2, false);
    Character::do_increments(&mut p, 200);
    assert_eq!(sizes(&p), vec![1, 19]);
    let mut q = Character::derive_dice_map(4, false);
    Character::do_increments(&mut q, 0);
    assert_eq!(sizes(&q), vec![5, 5, 5, 5]);
}

#[test]
fn roll_with_fixed_face() {
    let c = Character::new(6, 2).unwrap();
    let r = c.roll_with(4);
    assert_eq!(r.d20, 6);
    let flat = Character::new(6, 0).unwrap();
    let r = flat.roll_with(4);
    assert_eq!((r.d20, r.dice), (4, 2));
    let r = flat.roll_with(20);
    assert_eq!((r.d20, r.dice), (20, 6));
    let high = Character::new(20, 127).unwrap();
    let r = high.roll_with(20);
    assert_eq!((r.d20, r.dice), (147, 20));
}

#[test]
fn roll_stays_on_the_map() {
    let c = Character::new(8, -5).unwrap();
    for _ in 0..200 {
        let r = c.roll();
        let face = r.d20 + 5;
        assert!((1..=20).contains(&face));
        assert_eq!(r.dice, c.d20_map()[(face - 1) as usize]);
    }
}

#[test]
fn roll_new_keeps_fields() {
    let r = Roll::new(-3, 7);
    assert_eq!((r.d20, r.dice), (-3, 7));
}

#[test]
fn map_string_unbiased() {
    let c = Character::new(6, 0).unwrap();
    let s = c.d20_map_string();
    let lines: Vec<&str> = s.lines().collect();
    assert_eq!(lines.len(), 20);
    assert_eq!(lines[0], " 1 ->  1");
    assert_eq!(lines[9], "10 ->  3");
    assert_eq!(lines[19], "20 ->  6");
    assert!(s.ends_with('\n'));
}

#[test]
fn map_string_shifted() {
    let c = Character::new(2, -50).unwrap();
    let s = c.d20_map_string();
    let mut expected = String::new();
    for face in 1..=20i32 {
        let label = if face == 20 { 2 } else { 1 };
        expected.push_str(&format!("{:2} -> {:2}\n", face - 50, label));
    }
    assert_eq!(s, expected);
    let big = Character::new(200, 100).unwrap();
    let first = big.d20_map_string().lines().next().unwrap().to_string();
    assert_eq!(first, "101 -> 10");
}

#[test]
fn setters_rebuild_the_map() {
    let mut c = Character::new(6, 0).unwrap();
    assert_eq!(c.set_dice(0), Err(DiceError::InvalidDiceCount));
    assert_eq!(c.dice(), 6);
    assert_eq!(c.d20_map(), &ceil_split(6));
    assert_eq!(c.set_dice(2), Ok(()));
    assert_eq!(c.d20_map(), &ceil_split(2));
    c.set_soh(-20);
    assert_eq!(c.soh(), -20);
    let mut low = vec![1u8; 20];
    low[19] = 2;
    assert_eq!(c.d20_map(), &low);
}
