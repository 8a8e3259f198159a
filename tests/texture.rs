use ray_tracer::random::random_i32_between;
use ray_tracer::texture::ImageTexture;

/// A 3 by 2 RGB image whose bytes count up from 0.
fn image() -> ImageTexture {
    ImageTexture::new((0..18).collect(), 3, 2, 3)
}

#[test]
fn texel_reads_the_pixel_at_column_and_row() {
    let t = image();
    assert!(t.is_sampleable());
    assert_eq!(t.texel(0, 0), (0, 1, 2));
    assert_eq!(t.texel(1, 0), (3, 4, 5));
    assert_eq!(t.texel(2, 1), (15, 16, 17));
    assert_eq!(t.texel(0, 1), (9, 10, 11));
}

#[test]
fn texel_clamps_to_the_last_column_and_row() {
    let t = image();
    assert_eq!(t.texel(3, 0), (6, 7, 8));
    assert_eq!(t.texel(100, 100), (15, 16, 17));
}

#[test]
fn texel_skips_the_alpha_byte() {
    let t = ImageTexture::new((0..16).collect(), 2, 2, 4);
    assert!(t.is_sampleable());
    assert_eq!(t.texel(1, 0), (4, 5, 6));
    assert_eq!(t.texel(0, 1), (8, 9, 10));
    assert_eq!(t.texel(1, 1), (12, 13, 14));
}

#[test]
fn image_without_enough_bytes_cannot_be_sampled() {
    assert!(!ImageTexture::new(vec![0; 17], 3, 2, 3).is_sampleable());
    assert!(!ImageTexture::new(vec![], 0, 0, 3).is_sampleable());
    assert!(!ImageTexture::new(vec![0; 8], 2, 2, 2).is_sampleable());
}

#[test]
fn size_getters_report_the_image() {
    let t = image();
    assert_eq!(t.width(), 3);
    assert_eq!(t.height(), 2);
}

#[test]
fn random_integer_lies_in_its_range() {
    assert_eq!(random_i32_between(5, 5), 5);
    for _ in 0..200 {
        let r = random_i32_between(-3, 2);
        assert!((-3..=2).contains(&r));
    }
}

#[test]
fn random_integer_reaches_both_ends_of_its_range() {
    let draws: Vec<i32> = (0..400).map(|_| random_i32_between(0, 1)).collect();
    assert!(draws.contains(&0));
    assert!(draws.contains(&1));
}
