use bool_formula::bits::{adder, multiplier};
use bool_formula::powerset::powerset;

#[test]
fn adder_test_adder() {
    for i in 0u32..10 {
        for j in 0u32..10 {
            assert_eq!(adder(i, j), i + j);
        }
    }
}

#[test]
fn ex00_adder_test_adder() {
    for i in 0u32..10 {
        for j in 0u32..10 {
            assert_eq!(adder(i, j), i + j, "{i} + {j}");
        }
    }
    assert_eq!(adder(u32::MAX, u32::MAX), u32::MAX.wrapping_add(u32::MAX));
}

#[test]
fn multiplier_test_multiplier() {
    for i in 0u32..10 {
        for j in 0u32..10 {
            assert_eq!(multiplier(i, j), i * j);
        }
    }
}

#[test]
fn ex01_multiplier_test_multiplier() {
    for i in 0u32..10 {
        for j in 0u32..10 {
            assert_eq!(multiplier(i, j), i * j);
        }
    }
    assert_eq!(
        multiplier(u32::MAX, u32::MAX),
        u32::MAX.wrapping_mul(u32::MAX)
    );
}

#[test]
fn adder_carries_through_every_bit() {
    assert_eq!(adder(u32::MAX, 1), 0);
    assert_eq!(adder(1, u32::MAX), 0);
    assert_eq!(adder(0x7fff_ffff, 1), 0x8000_0000);
    assert_eq!(adder(0, 0), 0);
    assert_eq!(adder(0xdead_beef, 0x1234_5678), 0xdead_beefu32.wrapping_add(0x1234_5678));
}

#[test]
fn multiplier_wraps_around() {
    assert_eq!(multiplier(0x1_0000, 0x1_0000), 0);
    assert_eq!(multiplier(0xffff, 0x1_0001), 0xffff_ffff);
    assert_eq!(multiplier(123_456, 0), 0);
    assert_eq!(multiplier(0, 123_456), 0);
    assert_eq!(multiplier(0xdead_beef, 0x1234_5678), 0xdead_beefu32.wrapping_mul(0x1234_5678));
}

#[test]
fn ex08_powerset_default() {
    assert_eq!(powerset(&[]), vec![vec![]]);
    assert_eq!(powerset(&[1]), vec![vec![], vec![1]]);

    assert_eq!(
        powerset(&[1, 2, 3]),
        vec![
            vec![],
            vec![1],
            vec![2],
            vec![1, 2],
            vec![3],
            vec![1, 3],
            vec![2, 3],
            vec![1, 2, 3],
        ]
    );
}

#[test]
fn powerset_has_a_subset_for_each_mask() {
    let set = [5, -7, 5, 11, 0, 3];
    let subsets = powerset(&set);
    assert_eq!(subsets.len(), 64);
    for (mask, subset) in subsets.iter().enumerate() {
        let expected: Vec<i32> = (0..set.len())
            .filter(|place| mask & (1 << place) != 0)
            .map(|place| set[place])
            .collect();
        assert_eq!(subset, &expected);
    }
}
