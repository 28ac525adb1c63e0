use slang_preview::viewport::{MappedPixel, PaneMapping, ViewportConfig, ViewportRect, ViewportState};

fn cfg(width: u32, height: u32, integer_scale: bool) -> ViewportConfig {
    ViewportConfig { width, height, integer_scale }
}

fn assert_within_output(c: &ViewportConfig, r: &ViewportRect) {
    assert!(r.width >= 1 && r.height >= 1, "content must be at least 1px: {r:?}");
    assert!(r.offset_x + r.width <= c.width.max(1), "content overflows output width: {r:?}");
    assert!(r.offset_y + r.height <= c.height.max(1), "content overflows output height: {r:?}");
}

#[test]
fn integer_scale_snaps_to_largest_multiple_bounded_by_height() {
    let c = cfg(1920, 1080, true);
    let r = c.content_rect((256, 224));
    assert_eq!((r.width, r.height), (1024, 896));
    assert_eq!((r.offset_x, r.offset_y), (448, 92));
    assert_within_output(&c, &r);
}

#[test]
fn integer_scale_bounded_by_width() {
    let c = cfg(1000, 1000, true);
    let r = c.content_rect((400, 100));
    assert_eq!((r.width, r.height), (800, 200));
    assert_eq!((r.offset_x, r.offset_y), (100, 400));
    assert_within_output(&c, &r);
}

#[test]
fn integer_scale_exact_fit_has_no_bars() {
    let c = cfg(1280, 960, true);
    let r = c.content_rect((320, 240));
    assert_eq!((r.width, r.height), (1280, 960));
    assert_eq!((r.offset_x, r.offset_y), (0, 0));
    assert_within_output(&c, &r);
}

#[test]
fn integer_scale_oversized_source_clamps_to_one_x() {
    let c = cfg(640, 480, true);
    let r = c.content_rect((1280, 1024));
    assert_eq!((r.width, r.height), (640, 480));
    assert_eq!((r.offset_x, r.offset_y), (0, 0));
    assert_within_output(&c, &r);
}

#[test]
fn aspect_fit_letterboxes_a_wider_output() {
    let c = cfg(800, 600, false);
    let r = c.content_rect((256, 224));
    assert_eq!(r.height, 600);
    assert_eq!(r.width, 686);
    assert_eq!(r.offset_y, 0);
    assert_eq!(r.offset_x, (800 - 686) / 2);
    assert_within_output(&c, &r);
    let src_ratio = 256.0f32 / 224.0;
    let content_ratio = r.width as f32 / r.height as f32;
    assert!((src_ratio - content_ratio).abs() < 0.01);
}

#[test]
fn aspect_fit_letterboxes_a_taller_output() {
    let c = cfg(1000, 1000, false);
    let r = c.content_rect((1920, 1080));
    assert_eq!(r.width, 1000);
    assert!((r.height as i32 - 563).abs() <= 1, "got {}", r.height);
    assert_eq!(r.offset_x, 0);
    assert_eq!(r.offset_y, (1000 - r.height) / 2);
    assert_within_output(&c, &r);
}

#[test]
fn aspect_fit_exact_ratio_fills_with_no_bars() {
    let c = cfg(1024, 768, false);
    let r = c.content_rect((640, 480));
    assert_eq!((r.width, r.height), (1024, 768));
    assert_eq!((r.offset_x, r.offset_y), (0, 0));
    assert_within_output(&c, &r);
}

#[test]
fn content_never_exceeds_output_for_random_pairs() {
    let outputs = [(1920, 1080), (640, 480), (1, 1), (300, 1000), (1000, 7)];
    let sources = [(256, 224), (1920, 1080), (1, 1), (4000, 10), (33, 999)];
    for &out in &outputs {
        for &src in &sources {
            for integer_scale in [true, false] {
                let c = cfg(out.0, out.1, integer_scale);
                let r = c.content_rect(src);
                assert_within_output(&c, &r);
            }
        }
    }
}

#[test]
fn zero_dims_are_treated_as_one() {
    let c = cfg(0, 0, true);
    let r = c.content_rect((0, 0));
    assert_within_output(&c, &r);
    let c2 = cfg(640, 480, false);
    let r2 = c2.content_rect((0, 480));
    assert_within_output(&c2, &r2);
}

#[test]
fn pane_mapping_identity_when_pane_is_the_content() {
    let m = PaneMapping { pane_rect: (0, 0, 100, 80), content_size: (100, 80) };
    assert_eq!(m.map_pane_pixel(0, 0), MappedPixel { inside: true, x: 0, y: 0 });
    assert_eq!(m.map_pane_pixel(50, 40), MappedPixel { inside: true, x: 50, y: 40 });
    assert_eq!(m.map_pane_pixel(99, 79), MappedPixel { inside: true, x: 99, y: 79 });
}

#[test]
fn pane_mapping_letterbox_bars_report_outside() {
    let m = PaneMapping { pane_rect: (20, 20, 60, 40), content_size: (60, 40) };
    assert!(!m.map_pane_pixel(0, 0).inside);
    assert!(!m.map_pane_pixel(19, 30).inside);
    assert!(!m.map_pane_pixel(80, 30).inside);
    let inner = m.map_pane_pixel(20, 20);
    assert!(inner.inside);
    assert_eq!((inner.x, inner.y), (0, 0));
}

#[test]
fn pane_mapping_upscales_pane_into_a_larger_viewport() {
    let m = PaneMapping { pane_rect: (0, 0, 50, 40), content_size: (200, 160) };
    assert_eq!(m.map_pane_pixel(0, 0), MappedPixel { inside: true, x: 2, y: 2 });
    let mid = m.map_pane_pixel(25, 20);
    assert_eq!((mid.x, mid.y), (102, 82));
    let last = m.map_pane_pixel(49, 39);
    assert_eq!((last.x, last.y), (198, 158));
}

#[test]
fn pane_mapping_downscales_pane_from_a_smaller_viewport() {
    let m = PaneMapping { pane_rect: (0, 0, 200, 160), content_size: (50, 40) };
    assert_eq!(m.map_pane_pixel(0, 0), MappedPixel { inside: true, x: 0, y: 0 });
    let last = m.map_pane_pixel(199, 159);
    assert_eq!((last.x, last.y), (49, 39));
    assert!(last.x < 50 && last.y < 40);
}

#[test]
fn pane_mapping_zero_size_rect_is_outside() {
    let m = PaneMapping { pane_rect: (0, 0, 0, 0), content_size: (10, 10) };
    assert!(!m.map_pane_pixel(0, 0).inside);
}

#[test]
fn offset_centers_the_remainder_floor() {
    let c = cfg(95, 95, true);
    let r = c.content_rect((30, 30));
    assert_eq!((r.width, r.height), (90, 90));
    assert_eq!((r.offset_x, r.offset_y), (2, 2));
    assert_eq!(c.width - (r.offset_x + r.width), 3);
    assert_within_output(&c, &r);
}

#[test]
fn viewport_state_without_simulation_composites_to_the_whole_pane() {
    let mut v = ViewportState::new(320, 200);
    assert_eq!(v.viewport(), (320, 200));
    assert_eq!(v.viewport_size(), (320, 200));
    assert_eq!(v.final_composite_rect(), None);
    assert!(v.set_viewport(640, 480));
    assert!(!v.set_viewport(640, 480), "same size is no change");
    let m = v.pane_mapping();
    assert_eq!(m.pane_rect, (0, 0, 640, 480));
    assert_eq!(m.content_size, (640, 480));
}

#[test]
fn viewport_state_simulated_viewport_letterboxes_in_the_pane() {
    let mut v = ViewportState::new(800, 600);
    v.set_source_size(256, 224);
    v.set_simulated_viewport(Some(cfg(1920, 1080, true)));
    // The content is the integer-scaled source inside the simulated output.
    assert_eq!(v.viewport_size(), (1024, 896));
    let rect = v.final_composite_rect().expect("a composite rect");
    // The rect lies inside the pane.
    assert!(rect.0 + rect.2 <= 800 && rect.1 + rect.3 <= 600);
    assert!(rect.2 >= 1 && rect.3 >= 1);
    v.set_simulated_viewport(None);
    assert_eq!(v.final_composite_rect(), None);
}
