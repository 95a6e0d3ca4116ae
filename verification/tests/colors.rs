use rastar::colors::Color;
use rastar::fixed::FX_ONE;

#[test]
fn pack_unpack_round_trips_many_channel_triples() {
    let samples: Vec<u32> = {
        let mut s = vec![0, 1, 127, 128, 254, 255];
        let mut v = 3u32;
        while v <= 255 {
            s.push(v);
            v += 15;
        }
        s
    };
    for &r in &samples {
        for &g in &samples {
            for &b in &samples {
                let w = (r << 16) | (g << 8) | b;
                assert_eq!(Color::new(w).as_u32(), w);
            }
        }
    }
}

#[test]
fn unpack_uses_only_the_low_24_bits() {
    let c = Color::new(0xAB12_3456);
    assert_eq!(c.as_u32(), 0x12_3456);
    assert_eq!(c.r, 0x12);
    assert_eq!(c.g, 0x34);
    assert_eq!(c.b, 0x56);
}

#[test]
fn scaled_by_one_is_identity() {
    for w in [0x000000u32, 0xffffff, 0x804020, 0x0a0b0c, 0x123456] {
        let c = Color::new(w);
        assert_eq!(c.scaled(FX_ONE).as_u32(), w);
    }
}

#[test]
fn scaled_by_zero_is_black() {
    for w in [0x000000u32, 0xffffff, 0x804020] {
        let c = Color::new(w);
        assert_eq!(c.scaled(0).as_u32(), 0);
    }
}

#[test]
fn scaled_above_one_clamps_at_255_and_never_wraps() {
    let c = Color::new(0xFF8001);
    let s = c.scaled(3 * FX_ONE);
    assert_eq!(s.r, 255);
    assert_eq!(s.g, 255);
    assert_eq!(s.b, 3);
    let t = Color::new(0xFFFFFF).scaled(1000 * FX_ONE);
    assert_eq!(t.as_u32(), 0xFFFFFF);
}

#[test]
fn scaled_exact_halving() {
    let c = Color::new(0x804020);
    let s = c.scaled(FX_ONE / 2);
    assert_eq!(s.r, 64);
    assert_eq!(s.g, 32);
    assert_eq!(s.b, 16);
}

#[test]
fn scaled_rounds_halves_away_from_zero() {
    let c = Color::new(0x010305);
    let s = c.scaled(FX_ONE / 2);
    assert_eq!(s.r, 1);
    assert_eq!(s.g, 2);
    assert_eq!(s.b, 3);
}

#[test]
fn scaled_negative_factor_clamps_to_black() {
    let c = Color::new(0x804020);
    assert_eq!(c.scaled(-FX_ONE).as_u32(), 0);
}
