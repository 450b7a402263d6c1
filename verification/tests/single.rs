use walker_rl::lanes::{copied, filled, pick};
use walker_rl::numbers;
use walker_rl::rounding::round_to_single;
use walker_rl::single::{Single, INFINITY_BITS, MINUS_ONE, MINUS_ZERO, ONE, ZERO};

fn single(x: f32) -> Single {
    Single { bits: x.to_bits() }
}

fn samples() -> Vec<f32> {
    vec![
        0.0,
        -0.0,
        1.0,
        -1.0,
        f32::MIN_POSITIVE,
        -f32::MIN_POSITIVE,
        f32::from_bits(1),
        f32::from_bits(0x8000_0001),
        f32::from_bits(0x007f_ffff),
        f32::MAX,
        f32::MIN,
        f32::INFINITY,
        f32::NEG_INFINITY,
        f32::NAN,
        f32::from_bits(0xffc0_0000),
        f32::from_bits(0x7f80_0001),
        0.1,
        1.3,
        1.3000001,
        -2.3,
        10.0,
        9.999999,
    ]
}

#[test]
fn order_is_that_of_the_machine() {
    for a in samples() {
        for b in samples() {
            assert_eq!(single(a).less_than(single(b)), a < b, "{} < {}", a, b);
            assert_eq!(single(a).at_most(single(b)), a <= b, "{} <= {}", a, b);
            assert_eq!(single(a).equals(single(b)), a == b, "{} == {}", a, b);
        }
    }
}

#[test]
fn numbers_are_ordered_in_one_way() {
    for a in samples() {
        for b in samples() {
            let (x, y) = (single(a), single(b));
            let ways = x.less_than(y) as u32 + y.less_than(x) as u32 + x.equals(y) as u32;
            if a.is_nan() || b.is_nan() {
                assert_eq!(ways, 0);
            } else {
                assert_eq!(ways, 1);
            }
        }
    }
}

#[test]
fn not_a_number_is_told_apart() {
    for a in samples() {
        assert_eq!(single(a).is_nan(), a.is_nan());
    }
    assert!(!Single { bits: INFINITY_BITS }.is_nan());
    assert!(Single { bits: INFINITY_BITS + 1 }.is_nan());
}

#[test]
fn absolute_value_clears_the_sign() {
    for a in samples() {
        assert_eq!(single(a).abs().bits, a.abs().to_bits());
    }
}

#[test]
fn negating_turns_the_sign() {
    for a in samples() {
        assert_eq!(single(a).negate().bits, (-a).to_bits());
        assert_eq!(single(a).negate().negate(), single(a));
    }
}

#[test]
fn flooring_raises_what_is_less() {
    assert_eq!(single(-1.0).at_least(single(1e-6)), single(1e-6));
    assert_eq!(single(0.0).at_least(single(1e-6)), single(1e-6));
    assert_eq!(single(1e-6).at_least(single(1e-6)), single(1e-6));
    assert_eq!(single(2.0).at_least(single(1e-6)), single(2.0));
    assert!(single(f32::NAN).at_least(single(1e-6)).is_nan());
}

#[test]
fn sanitizing_replaces_only_what_is_not_a_number() {
    for a in samples() {
        let clean = single(a).sanitize();
        if a.is_nan() {
            assert_eq!(clean.bits, ZERO);
        } else {
            assert_eq!(clean.bits, a.to_bits());
        }
        assert_eq!(clean.sanitize(), clean);
        assert!(!clean.is_nan());
    }
}

#[test]
fn limiting_draws_into_the_range() {
    let (low, high) = (single(-0.7), single(1.4));
    assert_eq!(single(-2.0).limit(low, high), low);
    assert_eq!(single(2.0).limit(low, high), high);
    assert_eq!(single(0.25).limit(low, high), single(0.25));
    assert_eq!(single(-0.7).limit(low, high), low);
    assert!(single(f32::NAN).limit(low, high).is_nan());
    assert_eq!(single(0.0).limit(single(1.0), single(-1.0)), single(-1.0));
}

#[test]
fn constants_are_the_numbers_they_are_named_after() {
    assert_eq!(ZERO, 0.0f32.to_bits());
    assert_eq!(ONE, 1.0f32.to_bits());
    assert_eq!(MINUS_ZERO, (-0.0f32).to_bits());
    assert_eq!(MINUS_ONE, (-1.0f32).to_bits());
    assert_eq!(INFINITY_BITS, f32::INFINITY.to_bits());
    let named: Vec<(u32, f32)> = vec![
        (numbers::MINUS_5, -5.0),
        (numbers::MINUS_4, -4.0),
        (numbers::MINUS_2_3, -2.3),
        (numbers::MINUS_HALF_TURN, -std::f32::consts::PI),
        (numbers::HALF_TURN, std::f32::consts::PI),
        (numbers::RIGHT_ANGLE, std::f32::consts::PI / 2.0),
        (numbers::MINUS_RIGHT_ANGLE, -std::f32::consts::PI / 2.0),
        (numbers::MINUS_1_2, -1.2),
        (numbers::MINUS_0_8, -0.8),
        (numbers::MINUS_0_7, -0.7),
        (numbers::MINUS_0_5, -0.5),
        (numbers::MINUS_0_333, -0.333),
        (numbers::MINUS_0_1, -0.1),
        (numbers::ONE_HUNDRED_MILLIONTH, 1e-8),
        (numbers::ONE_MILLIONTH, 1e-6),
        (numbers::ONE_TEN_THOUSANDTH, 1e-4),
        (numbers::ONE_HUNDREDTH, 0.01),
        (numbers::ONE_SIXTIETH, 1.0 / 60.0),
        (numbers::PLUS_0_193, 0.193),
        (numbers::PLUS_0_2, 0.2),
        (numbers::PLUS_0_3, 0.3),
        (numbers::PLUS_0_4, 0.4),
        (numbers::PLUS_0_5, 0.5),
        (numbers::PLUS_0_6, 0.6),
        (numbers::PLUS_0_8, 0.8),
        (numbers::PLUS_0_95, 0.95),
        (numbers::PLUS_0_99, 0.99),
        (numbers::PLUS_1_2, 1.2),
        (numbers::PLUS_1_3, 1.3),
        (numbers::PLUS_1_4, 1.4),
        (numbers::PLUS_1_5, 1.5),
        (numbers::PLUS_1_6, 1.6),
        (numbers::LOG_TWO_PI, (2.0 * std::f32::consts::PI).ln()),
        (numbers::PLUS_2, 2.0),
        (numbers::PLUS_2_2, 2.2),
        (numbers::PLUS_2_5, 2.5),
        (numbers::PLUS_3_5, 3.5),
        (numbers::PLUS_5, 5.0),
        (numbers::PLUS_9_8, 9.8),
        (numbers::PLUS_10, 10.0),
        (numbers::PLUS_20, 20.0),
        (numbers::PLUS_35, 35.0),
        (numbers::PLUS_80, 80.0),
        (numbers::PLUS_120, 120.0),
        (numbers::PLUS_150, 150.0),
    ];
    for (bits, number) in named {
        assert_eq!(bits, number.to_bits(), "{}", number);
    }
    assert_eq!(numbers::LEARNING_RATE, 3e-4f64.to_bits());
}

#[test]
fn picking_follows_the_mask() {
    let mask = vec![true, false, false, true];
    assert_eq!(pick(&mask, vec![1, 2, 3, 4], vec![10, 20, 30, 40]), vec![10, 2, 3, 40]);
    assert_eq!(pick(&vec![false; 4], vec![1, 2, 3, 4], vec![10, 20, 30, 40]), vec![1, 2, 3, 4]);
    assert_eq!(pick(&vec![true; 4], vec![1, 2, 3, 4], vec![10, 20, 30, 40]), vec![10, 20, 30, 40]);
    let once = pick(&mask, vec![1, 2, 3, 4], vec![10, 20, 30, 40]);
    assert_eq!(pick(&mask, once.clone(), vec![10, 20, 30, 40]), once);
    assert!(pick(&vec![], Vec::<u8>::new(), vec![]).is_empty());
}

#[test]
fn lanes_are_filled_and_copied() {
    assert_eq!(filled(3, single(1.5)), vec![single(1.5); 3]);
    assert_eq!(filled(0, single(1.5)), vec![]);
    assert_eq!(copied(&vec![single(1.0), single(2.0)]), vec![single(1.0), single(2.0)]);
}

#[test]
fn rounding_is_that_of_the_machine() {
    let mut counts: Vec<u64> = vec![0, 1, 2, 131072, u64::MAX, u64::MAX / 2, u64::MAX - 1];
    for power in 23..64u32 {
        let base = 1u64 << power;
        for step in [0u64, 1, 2, 3, 4, 5, 6, 7, 8, 9, 255, 256, 257] {
            counts.push(base.saturating_add(step));
            counts.push(base - step);
        }
    }
    for n in counts.iter() {
        assert_eq!(round_to_single(*n), (*n as f32) as u128, "{}", n);
    }
    counts.sort();
    for pair in counts.windows(2) {
        assert!(round_to_single(pair[0]) <= round_to_single(pair[1]));
    }
}

#[test]
fn numbers_of_twenty_four_bits_are_exact() {
    assert_eq!(round_to_single(16_777_216), 16_777_216);
    assert_eq!(round_to_single(16_777_217), 16_777_216);
    assert_eq!(round_to_single(16_777_219), 16_777_220);
}
