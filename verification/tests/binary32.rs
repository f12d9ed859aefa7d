use optical_flow_lk::binary32::Binary32;

fn number(bits: u32) -> Binary32 {
    Binary32::from_bits(bits)
}

fn same(ours: Binary32, theirs: f32) -> bool {
    if theirs.is_nan() {
        f32::from_bits(ours.to_bits()).is_nan()
    } else {
        ours.to_bits() == theirs.to_bits()
    }
}

/// Patterns from every part of the range, with neighbours of powers of two.
fn patterns() -> Vec<u32> {
    let mut out: Vec<u32> = Vec::new();
    let mut exponent: u32 = 0;
    while exponent < 256 {
        for mantissa in [0u32, 1, 2, 0x2a_aaab, 0x40_0000, 0x55_5555, 0x7f_fffe, 0x7f_ffff] {
            out.push(exponent << 23 | mantissa);
            out.push(0x8000_0000 | exponent << 23 | mantissa);
        }
        exponent += 9;
    }
    out.push(0x7f80_0000);
    out.push(0xff80_0000);
    out.push(0x7fc0_0000);
    out.push(0x3f80_0000);
    out.push(0xbf80_0000);
    out
}

struct Stream {
    state: u64,
}

impl Stream {
    fn next(&mut self) -> u32 {
        self.state = self.state.wrapping_mul(6364136223846793005).wrapping_add(1442695040888963407);
        (self.state >> 32) as u32
    }
}

fn check_pair(a: u32, b: u32) {
    let (x, y) = (f32::from_bits(a), f32::from_bits(b));
    let (p, q) = (number(a), number(b));
    assert!(same(p.plus(q), x + y), "{a:#x} + {b:#x}");
    assert!(same(p.minus(q), x - y), "{a:#x} - {b:#x}");
    assert!(same(p.times(q), x * y), "{a:#x} * {b:#x}");
    assert!(same(p.over(q), x / y), "{a:#x} / {b:#x}");
    assert_eq!(p.lt(q), x < y, "{a:#x} < {b:#x}");
    assert_eq!(p.le(q), x <= y, "{a:#x} <= {b:#x}");
    assert_eq!(p == q, x == y, "{a:#x} == {b:#x}");
    if x != y {
        assert!(same(p.max(q), x.max(y)), "max {a:#x} {b:#x}");
    }
}

fn check_single(a: u32) {
    let x = f32::from_bits(a);
    let p = number(a);
    assert!(same(p.sqrt(), x.sqrt()), "sqrt {a:#x}");
    assert!(same(p.abs(), x.abs()), "abs {a:#x}");
    assert!(same(p.negate(), -x), "negate {a:#x}");
    assert_eq!(p.floor_to_i32(), x.floor() as i32, "floor {a:#x}");
    assert_eq!(p.to_u32(), x as u32, "to_u32 {a:#x}");
}

#[test]
fn operations_agree_with_hardware_on_chosen_patterns() {
    let all = patterns();
    for &a in &all {
        check_single(a);
        for &b in &all {
            check_pair(a, b);
        }
    }
}

#[test]
fn operations_agree_with_hardware_on_many_patterns() {
    let mut stream = Stream { state: 7 };
    for _ in 0..200_000 {
        let a = stream.next();
        let b = stream.next();
        check_pair(a, b);
        check_single(a);
    }
}

#[test]
fn operations_agree_with_hardware_on_moderate_numbers() {
    let mut stream = Stream { state: 11 };
    for _ in 0..200_000 {
        let a = (stream.next() % 0x0600_0000) + 0x3c00_0000 | (stream.next() & 0x8000_0000);
        let b = (stream.next() % 0x0600_0000) + 0x3c00_0000 | (stream.next() & 0x8000_0000);
        check_pair(a, b);
        check_single(a & 0x7fff_ffff);
        check_single(a);
    }
}

#[test]
fn integers_round_as_hardware_does() {
    let mut stream = Stream { state: 3 };
    for _ in 0..50_000 {
        let n = stream.next() as i32;
        assert!(same(Binary32::from_int(n as i64), n as f32), "{n}");
        let m = n >> (stream.next() % 31);
        assert!(same(Binary32::from_int(m as i64), m as f32), "{m}");
    }
    for n in [0i64, 1, -1, 16_777_215, 16_777_216, 16_777_217, 16_777_219, -16_777_217] {
        assert!(same(Binary32::from_int(n), n as f32), "{n}");
    }
}

#[test]
fn powers_of_two_are_exact_until_they_overflow() {
    for n in 0..127u32 {
        assert!(same(Binary32::power_of_two(n), 2f32.powi(n as i32)), "{n}");
    }
    assert!(same(Binary32::power_of_two(127), 2f32.powi(127)));
    assert!(same(Binary32::power_of_two(128), f32::INFINITY));
    assert!(same(Binary32::power_of_two(4000), f32::INFINITY));
}

#[test]
fn a_sum_rounds_half_way_cases_to_even() {
    // 2^24 + 1 lies half way between two numbers.
    let big = Binary32::from_int(16_777_216);
    let one = Binary32::from_int(1);
    assert_eq!(big.plus(one).to_bits(), big.to_bits());
    let next = Binary32::from_int(16_777_218);
    assert_eq!(next.plus(one).to_bits(), Binary32::from_int(16_777_220).to_bits());
}
