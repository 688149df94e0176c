use wayfinder_core::gfx::{bucketed, swapchain_resize, unavailable, Power, RenderError};

#[test]
fn anything_but_high_or_software_is_low_power() {
    assert_eq!(Power::parse("high"), Power::High);
    assert_eq!(Power::parse("HIGH"), Power::High);
    assert_eq!(Power::parse("Software"), Power::Software);
    assert_eq!(Power::parse("warp"), Power::Software);
    assert_eq!(Power::parse("cpu"), Power::Software);
    assert_eq!(Power::parse("low"), Power::Low);
    assert_eq!(Power::parse(""), Power::Low);
    assert_eq!(Power::parse("high "), Power::Low);
    assert!(Power::Software.fallback() && !Power::High.fallback() && !Power::Low.fallback());
}

#[test]
fn swapchains_grow_in_buckets_with_slack_up_to_the_limit() {
    assert_eq!(bucketed(0), 128);
    assert_eq!(bucketed(1), 256);
    assert_eq!(bucketed(128), 256);
    assert_eq!(bucketed(129), 384);
    assert_eq!(bucketed(9000), 8192);
}

#[test]
fn a_swapchain_grows_at_once_and_shrinks_only_once_settled() {
    assert_eq!(swapchain_resize(300, 200, 512, 512, false), None, "fits: nothing to do");
    assert_eq!(swapchain_resize(600, 200, 512, 512, false), Some((768, 512)), "wider: only the width grows");
    assert_eq!(swapchain_resize(100, 100, 1024, 1024, false), None, "far smaller, but not for long yet");
    assert_eq!(swapchain_resize(100, 100, 1024, 1024, true), Some((256, 256)), "far smaller for a while");
    assert_eq!(swapchain_resize(0, 0, 0, 0, false), Some((256, 256)), "a zero window counts as 1 px");
}

#[test]
fn the_third_failure_in_a_row_loses_the_surface() {
    assert!(matches!(unavailable(2, "x".to_string()), RenderError::Skip(m) if m == "x"));
    assert!(matches!(unavailable(3, "y".to_string()), RenderError::Lost(m) if m == "y"));
}
