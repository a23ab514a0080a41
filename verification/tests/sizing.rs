use blueprint_render::render::{clamp_with_aspect_ratio, flip_vertical, max_useful_ssaa, plan_render_size};

#[test]
fn ssaa_clamp_example() {
    // 8 color bits and 4 MSAA samples: ceil(sqrt(256 / 4)) = 8, so a request
    // of 16 must be clamped to 8, not kept.
    assert_eq!(max_useful_ssaa(8, 4), 8);
    let plan = plan_render_size(1980, 1080, 16, 8, 4, 1_000_000, 1_000_000);
    assert_eq!(plan.ssaa, 8);
    assert_eq!(plan.width, 1980 * 8);
    assert_eq!(plan.height, 1080 * 8);
}

#[test]
fn ssaa_non_square_ratio() {
    // ceil(sqrt(1024 / 3)) = ceil(18.47..) = 19, exactly in integers.
    assert_eq!(max_useful_ssaa(10, 3), 19);
    // msaa_samples of 0 counts as 1: ceil(sqrt(256)) = 16.
    assert_eq!(max_useful_ssaa(8, 0), 16);
    assert_eq!(max_useful_ssaa(0, 1), 1);
}

#[test]
fn ssaa_request_sanity_cap() {
    // Requests above 16 never raise the factor past 16, and requests of 0
    // are raised to 1.
    let plan = plan_render_size(100, 100, 1000, 31, 1, 100_000, 100_000);
    assert_eq!(plan.ssaa, 16);
    let plan = plan_render_size(100, 100, 0, 31, 1, 100_000, 100_000);
    assert_eq!(plan.ssaa, 1);
    assert_eq!((plan.width, plan.height), (100, 100));
}

#[test]
fn clamp_keeps_fitting_source() {
    assert_eq!(clamp_with_aspect_ratio(640, 480, 1920, 1080), (640, 480));
    assert_eq!(clamp_with_aspect_ratio(1920, 1080, 1920, 1080), (1920, 1080));
}

#[test]
fn clamp_width_bound() {
    // 4000x1000 into 2000x2000: width is the binding constraint.
    assert_eq!(clamp_with_aspect_ratio(4000, 1000, 2000, 2000), (2000, 500));
}

#[test]
fn clamp_height_bound() {
    // 1000x4000 into 2000x2000: height is the binding constraint.
    assert_eq!(clamp_with_aspect_ratio(1000, 4000, 2000, 2000), (500, 2000));
}

#[test]
fn plan_clamps_to_surface() {
    // 1980x1080 at SSAA 4 wants 7920x4320, but the surface is only
    // 3840x2160: scale down preserving the aspect ratio.
    let plan = plan_render_size(1980, 1080, 4, 24, 1, 3840, 2160);
    assert_eq!(plan.ssaa, 4);
    assert!(plan.width <= 3840 && plan.height <= 2160);
    // 7920x4320 is wider (11:6) than the 16:9 surface, so width binds:
    // height becomes 4320 * 3840 / 7920 = 2094, rounded down.
    assert_eq!((plan.width, plan.height), (3840, 2094));
}

#[test]
fn flip_reverses_row_order() {
    // A 2x3 RGB image: three rows of two pixels each.
    let pixels: Vec<u8> = vec![
        0, 1, 2, 3, 4, 5, // row 0
        10, 11, 12, 13, 14, 15, // row 1
        20, 21, 22, 23, 24, 25, // row 2
    ];
    let flipped = flip_vertical(&pixels, 2, 3);
    assert_eq!(
        flipped,
        vec![
            20, 21, 22, 23, 24, 25, // was row 2
            10, 11, 12, 13, 14, 15, // was row 1
            0, 1, 2, 3, 4, 5, // was row 0
        ]
    );
    // Flipping twice restores the image.
    assert_eq!(flip_vertical(&flipped, 2, 3), pixels);
}

#[test]
fn flip_of_empty_image() {
    let pixels: Vec<u8> = Vec::new();
    assert_eq!(flip_vertical(&pixels, 7, 0), Vec::<u8>::new());
}
