use waterui_gtk::single::Single;

/// A spread of bit patterns: every exponent with several fractions, both signs.
fn samples() -> Vec<u32> {
    let mut bits = vec![0, 1, 2, 3, 0x7f_ffff, 0x80_0000, 0x80_0001, 0x7f7f_ffff, 0x7f80_0000];
    let mut seed: u32 = 12345;
    for exponent in 0..=254u32 {
        for _ in 0..3 {
            seed = seed.wrapping_mul(1_664_525).wrapping_add(1_013_904_223);
            bits.push((exponent << 23) | (seed >> 9));
        }
        bits.push(exponent << 23);
        bits.push((exponent << 23) | 0x7f_ffff);
    }
    for value in [0.5f32, 1.5, 2.5, 100.0, 255.0, 16.0, 0.1, 33.3, 2_147_483_500.0, 8_388_607.5] {
        bits.push(value.to_bits());
    }
    let negated: Vec<u32> = bits.iter().map(|b| b | 0x8000_0000).collect();
    bits.extend(negated);
    bits.push(f32::NAN.to_bits());
    bits
}

fn same(ours: Single, theirs: f32) -> bool {
    if theirs.is_nan() {
        ours.is_nan()
    } else {
        ours.to_bits() == theirs.to_bits()
    }
}

#[test]
fn bits_are_kept() {
    assert_eq!(Single::from_bits(1.5f32.to_bits()).to_bits(), 1.5f32.to_bits());
}

#[test]
fn arithmetic_agrees_with_the_machine() {
    let all = samples();
    let some: Vec<u32> = all.iter().copied().step_by(7).collect();
    for &a in &all {
        for &b in &some {
            let (x, y) = (f32::from_bits(a), f32::from_bits(b));
            let (p, q) = (Single::from_bits(a), Single::from_bits(b));
            assert!(same(p.plus(q), x + y), "{x:e} + {y:e}");
            assert!(same(p.minus(q), x - y), "{x:e} - {y:e}");
            assert!(same(p.times(q), x * y), "{x:e} * {y:e}");
            assert_eq!(p.is_less(q), x < y, "{x:e} < {y:e}");
            let larger = p.max(q);
            let smaller = p.min(q);
            if x != y || x.is_nan() {
                assert!(same(larger, x.max(y)), "max {x:e} {y:e}");
                assert!(same(smaller, x.min(y)), "min {x:e} {y:e}");
            }
        }
    }
}

#[test]
fn conversions_agree_with_the_machine() {
    for &a in &samples() {
        let x = f32::from_bits(a);
        let p = Single::from_bits(a);
        assert_eq!(p.round_i32(), x.round() as i32, "round {x:e}");
        assert_eq!(p.trunc_i32(), x as i32, "trunc {x:e}");
        assert_eq!(p.ceil_i32(), x.ceil() as i32, "ceil {x:e}");
        assert_eq!(p.is_nan(), x.is_nan());
        assert_eq!(p.is_finite(), x.is_finite());
        assert_eq!(p.negate().to_bits(), (-x).to_bits());
    }
    for i in [0, 1, -1, 7, -300, 16_777_217, -16_777_219, i32::MAX, i32::MIN, 2_147_483_583] {
        assert!(same(Single::from_i32(i), i as f32), "{i}");
    }
    for n in [0usize, 1, 3, 16_777_217, usize::MAX] {
        assert!(same(Single::from_usize(n), n as f32), "{n}");
    }
}
