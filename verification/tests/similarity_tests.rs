use find_similar_images::similarity::{distance, CalcHash, PixelGrid};

fn grid(width: u32, height: u32, pixels: Vec<u8>) -> PixelGrid {
    PixelGrid { width, height, pixels }
}

#[test]
fn calc_hash_exact_small_grid() {
    // sum = 4 over 2 pixels; bit set iff pixel * 2 > 4, i.e. pixel > 2
    let g = grid(2, 1, vec![1, 3]);
    assert_eq!(g.calc_hash(), 0b10);
}

#[test]
fn calc_hash_uniform_grid_is_zero() {
    // no pixel is strictly brighter than the mean of a uniform grid
    let g = grid(4, 2, vec![9; 8]);
    assert_eq!(g.calc_hash(), 0);
}

#[test]
fn calc_hash_half_dark_half_bright() {
    let mut pixels = vec![0u8; 32];
    pixels.extend(vec![255u8; 32]);
    let g = grid(8, 8, pixels);
    assert_eq!(g.calc_hash(), 0xFFFF_FFFF_0000_0000);
}

#[test]
fn calc_hash_deterministic() {
    let a = grid(3, 2, vec![10, 200, 37, 37, 99, 1]);
    let b = grid(3, 2, vec![10, 200, 37, 37, 99, 1]);
    assert_eq!(a.calc_hash(), b.calc_hash());
    assert_eq!(a.calc_hash(), a.calc_hash());
}

#[test]
fn calc_hash_first_pixel_is_lowest_bit() {
    // only the first-scanned pixel is brighter than the mean
    let g = grid(2, 2, vec![255, 0, 0, 0]);
    assert_eq!(g.calc_hash(), 0b1);
}

#[test]
fn distance_exact_value() {
    // 0b1011 vs 0b0110 differ in bits 0, 2 and 3
    assert_eq!(distance(0b1011, 0b0110, 4), 3);
}

#[test]
fn distance_self_is_zero() {
    assert_eq!(distance(0xDEAD_BEEF_0123_4567, 0xDEAD_BEEF_0123_4567, 64), 0);
    assert_eq!(distance(0, 0, 1), 0);
}

#[test]
fn distance_is_symmetric() {
    let a = 0xF0F0_1234_5678_9ABC;
    let b = 0x0F0F_FEDC_BA98_7654;
    assert_eq!(distance(a, b, 64), distance(b, a, 64));
    assert_eq!(distance(a, b, 17), distance(b, a, 17));
}

#[test]
fn distance_bounded_by_bit_count() {
    assert_eq!(distance(u64::MAX, 0, 64), 64);
    assert!(distance(u64::MAX, 0, 10) <= 10);
    assert_eq!(distance(u64::MAX, 0, 10), 10);
}

#[test]
fn distance_ignores_bits_above_count() {
    // the two fingerprints differ only above bit 7
    assert_eq!(distance(0xFF00, 0x0000, 8), 0);
    assert_eq!(distance(0xFF00, 0x0000, 9), 1);
}

#[test]
fn similar_compares_two_grids() {
    // hashes 0b10 and 0b01: both bits differ
    let a = grid(2, 1, vec![1, 3]);
    let b = grid(2, 1, vec![3, 1]);
    assert_eq!(a.similar(&b, 2, 1), 2);
    assert_eq!(a.similar(&a, 2, 1), 0);
}
