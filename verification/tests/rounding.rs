use page_converter::rounding::{
    link_stroke_thickness, scale_coord, scale_factors_match, shrink_sides, ScaleFactor,
};

fn factor(f: f32) -> ScaleFactor {
    ScaleFactor { bits: f.to_bits() }
}

struct Lcg(u64);

impl Lcg {
    fn next(&mut self) -> u64 {
        self.0 = self.0.wrapping_mul(6364136223846793005).wrapping_add(1442695040888963407);
        self.0 ^ (self.0 >> 29)
    }
}

#[test]
fn scaled_coordinates_have_exact_values() {
    assert_eq!(scale_coord(10, factor(1.5)), 15);
    assert_eq!(scale_coord(3, factor(0.5)), 2);
    assert_eq!(scale_coord(1, factor(0.5)), 1);
    assert_eq!(scale_coord(1, factor(0.49)), 0);
    assert_eq!(scale_coord(100, factor(1.37)), 137);
    assert_eq!(scale_coord(u32::MAX, factor(2.0)), u32::MAX);
    assert_eq!(scale_coord(7, factor(-1.0)), 0);
    assert_eq!(scale_coord(7, factor(f32::NAN)), 0);
    assert_eq!(scale_coord(7, factor(f32::INFINITY)), u32::MAX);
    assert_eq!(scale_coord(0, factor(f32::INFINITY)), 0);
}

#[test]
fn scaling_agrees_with_floating_point() {
    let mut rng = Lcg(7);
    for i in 0..200_000u32 {
        let bits = match i % 3 {
            0 => rng.next() as u32,
            1 => 0x3f00_0000 + (rng.next() as u32 % 0x0200_0000),
            _ => 0x3000_0000 + (rng.next() as u32 % 0x2000_0000),
        };
        let v = (rng.next() as u32) >> (i % 31);
        let scale = f32::from_bits(bits);
        let want = (f64::from(v) * f64::from(scale)).round() as u32;
        assert_eq!(scale_coord(v, ScaleFactor { bits }), want, "v={v} bits={bits:#x}");
    }
}

#[test]
fn matching_agrees_with_floating_point() {
    let mut rng = Lcg(11);
    for i in 0..200_000u32 {
        let a = match i % 4 {
            0 => f32::from_bits(rng.next() as u32),
            1 => f32::from_bits(0x3800_0000 + (rng.next() as u32 % 0x0400_0000)),
            2 => f32::from_bits(0x3f00_0000 + (rng.next() as u32 % 0x0400_0000)),
            _ => f32::from_bits(0x4600_0000 + (rng.next() as u32 % 0x0200_0000)),
        };
        let nudge = (rng.next() % 2001) as f32 / 1_000_000.0 - 0.001;
        let b = match i % 5 {
            0 => a,
            1 => a + nudge,
            2 => a + 0.001,
            3 => f32::from_bits(a.to_bits().wrapping_add(rng.next() as u32 % 16)),
            _ => -a,
        };
        let want = (a - b).abs() < 0.001;
        assert_eq!(scale_factors_match(factor(a), factor(b)), want, "a={a:e} b={b:e}");
    }
    assert!(scale_factors_match(factor(1.0), factor(1.0005)));
    assert!(!scale_factors_match(factor(1.0), factor(1.002)));
    assert!(scale_factors_match(factor(0.0), factor(-0.0)));
    assert!(!scale_factors_match(factor(f32::INFINITY), factor(f32::INFINITY)));
    assert!(!scale_factors_match(factor(f32::NAN), factor(f32::NAN)));
}

#[test]
fn link_strokes_agree_with_floating_point() {
    assert_eq!(link_stroke_thickness(0), 1);
    assert_eq!(link_stroke_thickness(29), 1);
    assert_eq!(link_stroke_thickness(30), 2);
    assert_eq!(link_stroke_thickness(100), 5);
    let mut rng = Lcg(13);
    for i in 0..200_000u32 {
        let h = if i < 100_000 { i } else { (rng.next() as u32) >> (i % 20) };
        let want = (h as f32 * 0.05).round().max(1.0) as u32;
        assert_eq!(link_stroke_thickness(h), want, "h={h}");
    }
}

#[test]
fn shrinking_agrees_with_floating_point() {
    assert_eq!(shrink_sides(20, 10, 50, 200), (10, 5));
    assert_eq!(shrink_sides(1, 1000, 10, 1000), (1, 100));
    let mut rng = Lcg(17);
    for i in 0..50_000u32 {
        let w = ((rng.next() as u32) >> (i % 28)).max(1);
        let h = ((rng.next() as u32) >> (i % 17)).max(1);
        let pixels = u64::from(w) * u64::from(h);
        let max_pixels = (rng.next() % pixels).max(1);
        let scale = (max_pixels as f64 / pixels as f64).sqrt();
        let want = (
            ((f64::from(w) * scale).floor() as u32).max(1),
            ((f64::from(h) * scale).floor() as u32).max(1),
        );
        assert_eq!(shrink_sides(w, h, max_pixels, pixels), want, "{w}x{h} to {max_pixels}");
    }
}
