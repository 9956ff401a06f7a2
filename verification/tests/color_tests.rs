use overlaytxt::{brush_cache_key, image_data_complete, straight_to_premul};

#[test]
fn test_straight_to_premul() {
    let straight = [128, 64, 32, 128];
    let premul = straight_to_premul(&straight);
    assert_eq!(premul, [64, 32, 16, 128]);
}

#[test]
fn opaque_pixels_are_unchanged_and_transparent_ones_vanish() {
    let straight = [10, 200, 255, 255, 10, 200, 255, 0];
    assert_eq!(straight_to_premul(&straight), vec![10, 200, 255, 255, 0, 0, 0, 0]);
}

#[test]
fn output_is_as_long_as_input_with_trailing_bytes_copied() {
    assert_eq!(straight_to_premul(&[255, 255, 255, 51, 9, 9]), vec![51, 51, 51, 51, 9, 9]);
    assert_eq!(straight_to_premul(&[1, 2, 3]), vec![1, 2, 3]);
    assert_eq!(straight_to_premul(&[200, 100, 50, 0, 7]), vec![0, 0, 0, 0, 7]);
    assert_eq!(straight_to_premul(&[]), Vec::<u8>::new());
}

#[test]
fn conversion_works_pixel_by_pixel() {
    let a = [128, 64, 32, 128, 255, 0, 10, 51];
    let b = [90, 90, 90, 200, 4, 5];
    let joined: Vec<u8> = a.iter().chain(b.iter()).copied().collect();
    let mut separate = straight_to_premul(&a);
    separate.extend(straight_to_premul(&b));
    assert_eq!(straight_to_premul(&joined), separate);
}

#[test]
fn opaque_image_is_unchanged_and_nothing_brightens() {
    let opaque = [3, 250, 128, 255, 0, 17, 255, 255, 9];
    assert_eq!(straight_to_premul(&opaque), opaque.to_vec());
    let straight = [200, 150, 100, 77, 255, 255, 255, 1];
    let premul = straight_to_premul(&straight);
    for (p, s) in premul.iter().zip(straight.iter()) {
        assert!(p <= s);
    }
}

#[test]
fn image_data_must_cover_the_size() {
    assert!(image_data_complete(32, 32, 32 * 32 * 4));
    assert!(!image_data_complete(32, 32, 32 * 32 * 4 - 1));
    assert!(image_data_complete(32, 32, 32 * 32 * 4 + 4));
    assert!(image_data_complete(32, 32, 32 * 32 * 4 + 3));
    assert!(!image_data_complete(32, 32, 0));
    assert!(image_data_complete(0, 7, 0));
    assert!(!image_data_complete(u32::MAX, u32::MAX, 16));
}

#[test]
fn premultiplied_channels_never_exceed_alpha() {
    let mut straight = Vec::new();
    for c in (0..=255u16).step_by(17) {
        for a in (0..=255u16).step_by(15) {
            straight.extend_from_slice(&[c as u8, 255 - c as u8, 128, a as u8]);
        }
    }
    let premul = straight_to_premul(&straight);
    assert_eq!(premul.len(), straight.len());
    for (p, s) in premul.chunks_exact(4).zip(straight.chunks_exact(4)) {
        assert_eq!(p[3], s[3]);
        for ch in 0..3 {
            assert!(p[ch] <= p[3]);
            assert_eq!(p[ch] as u32, s[ch] as u32 * s[3] as u32 / 255);
        }
    }
}

#[test]
fn brush_key_packs_channels() {
    assert_eq!(brush_cache_key([0x12, 0x34, 0x56, 0x78]), 0x12_3456_7800);
    assert_eq!(brush_cache_key([255, 255, 255, 255]), 0xff_ffff_ff00);
    assert_eq!(brush_cache_key([0, 0, 0, 0]), 0);
}

#[test]
fn distinct_colours_have_distinct_brush_keys() {
    let colours = [[255, 0, 0, 255], [0, 255, 0, 255], [0, 0, 255, 255], [255, 0, 0, 254], [1, 0, 0, 0], [0, 0, 0, 1]];
    for (i, a) in colours.iter().enumerate() {
        for (j, b) in colours.iter().enumerate() {
            assert_eq!(brush_cache_key(*a) == brush_cache_key(*b), i == j);
        }
    }
}
