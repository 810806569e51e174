use raytracer::Binary32;

fn soft(x: f32) -> Binary32 {
    Binary32::from_bits(x.to_bits())
}

fn hard(x: Binary32) -> f32 {
    f32::from_bits(x.to_bits())
}

/// Bitwise agreement, with every not-a-number counted as one value.
fn agree(got: Binary32, want: f32) -> bool {
    if want.is_nan() {
        hard(got).is_nan()
    } else {
        got.to_bits() == want.to_bits()
    }
}

struct Patterns {
    state: u64,
}

impl Patterns {
    fn next(&mut self) -> u32 {
        self.state = self
            .state
            .wrapping_mul(6364136223846793005)
            .wrapping_add(1442695040888963407);
        (self.state >> 32) as u32
    }

    /// A pattern whose exponent stays within `spread` of that of one.
    fn near_one(&mut self, spread: u32) -> u32 {
        let raw = self.next();
        let exp = 127 - spread + (self.next() % (2 * spread + 1));
        (raw & 0x807f_ffff) | (exp << 23)
    }
}

const EDGES: [u32; 24] = [
    0x0000_0000,
    0x8000_0000,
    0x0000_0001,
    0x8000_0001,
    0x0000_0002,
    0x007f_ffff,
    0x0080_0000,
    0x0080_0001,
    0x00ff_ffff,
    0x0100_0000,
    0x3f00_0000,
    0x3f80_0000,
    0xbf80_0000,
    0x3f80_0001,
    0x3fff_ffff,
    0x4000_0000,
    0x4b00_0000,
    0x4b80_0000,
    0x7f7f_ffff,
    0xff7f_ffff,
    0x7f80_0000,
    0xff80_0000,
    0x7fc0_0000,
    0x7f80_0001,
];

#[test]
fn add_matches_hardware_on_edges() {
    for &a in EDGES.iter() {
        for &b in EDGES.iter() {
            let got = Binary32::from_bits(a).add(Binary32::from_bits(b));
            let want = f32::from_bits(a) + f32::from_bits(b);
            assert!(agree(got, want), "{:#x} + {:#x}: {:#x} vs {:#x}", a, b, got.to_bits(), want.to_bits());
        }
    }
}

#[test]
fn sub_matches_hardware_on_edges() {
    for &a in EDGES.iter() {
        for &b in EDGES.iter() {
            let got = Binary32::from_bits(a).sub(Binary32::from_bits(b));
            let want = f32::from_bits(a) - f32::from_bits(b);
            assert!(agree(got, want), "{:#x} - {:#x}: {:#x} vs {:#x}", a, b, got.to_bits(), want.to_bits());
        }
    }
}

#[test]
fn mul_matches_hardware_on_edges() {
    for &a in EDGES.iter() {
        for &b in EDGES.iter() {
            let got = Binary32::from_bits(a).mul(Binary32::from_bits(b));
            let want = f32::from_bits(a) * f32::from_bits(b);
            assert!(agree(got, want), "{:#x} * {:#x}: {:#x} vs {:#x}", a, b, got.to_bits(), want.to_bits());
        }
    }
}

#[test]
fn add_matches_hardware_on_random_patterns() {
    let mut p = Patterns { state: 1 };
    for i in 0..200000 {
        let (a, b) = if i % 2 == 0 { (p.next(), p.next()) } else { (p.near_one(30), p.near_one(30)) };
        let got = Binary32::from_bits(a).add(Binary32::from_bits(b));
        let want = f32::from_bits(a) + f32::from_bits(b);
        assert!(agree(got, want), "{:#x} + {:#x}: {:#x} vs {:#x}", a, b, got.to_bits(), want.to_bits());
    }
}

#[test]
fn mul_matches_hardware_on_random_patterns() {
    let mut p = Patterns { state: 2 };
    for i in 0..200000 {
        let (a, b) = if i % 2 == 0 { (p.next(), p.next()) } else { (p.near_one(70), p.near_one(70)) };
        let got = Binary32::from_bits(a).mul(Binary32::from_bits(b));
        let want = f32::from_bits(a) * f32::from_bits(b);
        assert!(agree(got, want), "{:#x} * {:#x}: {:#x} vs {:#x}", a, b, got.to_bits(), want.to_bits());
    }
}

#[test]
fn from_u32_matches_hardware() {
    let mut p = Patterns { state: 3 };
    for v in [0u32, 1, 2, 255, 0xff_ffff, 0x100_0000, 0x100_0001, 0x100_0003, u32::MAX, u32::MAX - 64, u32::MAX - 128] {
        assert_eq!(Binary32::from_u32(v).to_bits(), (v as f32).to_bits());
    }
    for _ in 0..100000 {
        let v = p.next() >> (p.next() % 32);
        assert_eq!(Binary32::from_u32(v).to_bits(), (v as f32).to_bits());
    }
}

#[test]
fn comparisons_match_hardware() {
    let mut p = Patterns { state: 4 };
    for &a in EDGES.iter() {
        for &b in EDGES.iter() {
            let (x, y) = (Binary32::from_bits(a), Binary32::from_bits(b));
            let (fx, fy) = (f32::from_bits(a), f32::from_bits(b));
            assert_eq!(x.lt(y), fx < fy);
            assert_eq!(x.le(y), fx <= fy);
            assert_eq!(x.gt(y), fx > fy);
            assert_eq!(x.ge(y), fx >= fy);
        }
    }
    for _ in 0..100000 {
        let (a, b) = (p.next(), p.next());
        assert_eq!(Binary32::from_bits(a).lt(Binary32::from_bits(b)), f32::from_bits(a) < f32::from_bits(b));
    }
}

#[test]
fn neg_flips_the_sign() {
    assert_eq!(hard(soft(1.5).neg()), -1.5);
    assert_eq!(soft(0.0).neg().to_bits(), 0x8000_0000);
    assert!(hard(Binary32::from_bits(0xffc0_0001).neg()).is_nan());
}

#[test]
fn div_matches_hardware_on_edges() {
    for &a in EDGES.iter() {
        for &b in EDGES.iter() {
            let got = Binary32::from_bits(a).div(Binary32::from_bits(b));
            let want = f32::from_bits(a) / f32::from_bits(b);
            assert!(agree(got, want), "{:#x} / {:#x}: {:#x} vs {:#x}", a, b, got.to_bits(), want.to_bits());
        }
    }
}

#[test]
fn div_matches_hardware_on_random_patterns() {
    let mut p = Patterns { state: 5 };
    for i in 0..200000 {
        let (a, b) = if i % 2 == 0 { (p.next(), p.next()) } else { (p.near_one(70), p.near_one(70)) };
        let got = Binary32::from_bits(a).div(Binary32::from_bits(b));
        let want = f32::from_bits(a) / f32::from_bits(b);
        assert!(agree(got, want), "{:#x} / {:#x}: {:#x} vs {:#x}", a, b, got.to_bits(), want.to_bits());
    }
}

#[test]
fn recip_matches_hardware() {
    let mut p = Patterns { state: 6 };
    for &a in EDGES.iter() {
        assert!(agree(Binary32::from_bits(a).recip(), f32::from_bits(a).recip()));
    }
    for _ in 0..100000 {
        let a = p.next();
        assert!(agree(Binary32::from_bits(a).recip(), f32::from_bits(a).recip()), "{:#x}", a);
    }
}

#[test]
fn sqrt_matches_hardware() {
    let mut p = Patterns { state: 7 };
    for &a in EDGES.iter() {
        assert!(agree(Binary32::from_bits(a).sqrt(), f32::from_bits(a).sqrt()), "{:#x}", a);
    }
    for v in 0..5000u32 {
        let a = (v as f32).to_bits();
        assert!(agree(Binary32::from_bits(a).sqrt(), f32::from_bits(a).sqrt()), "{:#x}", a);
    }
    for _ in 0..200000 {
        let a = p.next() & 0x7fff_ffff;
        assert!(agree(Binary32::from_bits(a).sqrt(), f32::from_bits(a).sqrt()), "{:#x}", a);
    }
}

#[test]
fn to_u8_matches_a_cast() {
    let mut p = Patterns { state: 8 };
    for &a in EDGES.iter() {
        assert_eq!(Binary32::from_bits(a).to_u8(), f32::from_bits(a) as u8, "{:#x}", a);
    }
    for x in [0.0f32, 0.5, 0.999, 1.0, 1.5, 127.99, 254.999, 255.0, 255.5, 255.999, 256.0, 1e9, -0.5, -3.0] {
        assert_eq!(soft(x).to_u8(), x as u8);
    }
    for _ in 0..100000 {
        let a = p.near_one(12);
        assert_eq!(Binary32::from_bits(a).to_u8(), f32::from_bits(a) as u8, "{:#x}", a);
    }
}
