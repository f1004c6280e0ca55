use mandelbrot::{
    escape_time, pixel_to_point, render, write_buffer, compute_bands, zoom_viewport, Band,
    ComplexPoint, ImageBuffer, ViewportZoomController, ControllerEvent, ControllerAction, SCALE,
};

#[test]
fn lib_test_pixel_to_point() {
    assert_eq!(
        pixel_to_point(
            (100, 100),
            (25, 75),
            ComplexPoint { re: -SCALE, im: SCALE },
            ComplexPoint { re: SCALE, im: -SCALE },
        ),
        ComplexPoint { re: -SCALE / 2, im: -SCALE / 2 }
    );
}

#[test]
fn main_test_pixel_to_point() {
    assert_eq!(
        pixel_to_point(
            (100, 100),
            (25, 75),
            ComplexPoint { re: -SCALE, im: SCALE },
            ComplexPoint { re: SCALE, im: -SCALE }
        ),
        ComplexPoint { re: -SCALE / 2, im: -SCALE / 2 }
    );
}

#[test]
fn pixel_to_point_corners_are_exact() {
    let ul = ComplexPoint { re: -2 * SCALE, im: SCALE };
    let lr = ComplexPoint { re: SCALE, im: -SCALE };
    assert_eq!(pixel_to_point((640, 480), (0, 0), ul, lr), ul);
    assert_eq!(pixel_to_point((640, 480), (640, 480), ul, lr), lr);
}

#[test]
fn escape_time_origin_never_escapes() {
    assert_eq!(escape_time(ComplexPoint { re: 0, im: 0 }, 1), None);
    assert_eq!(escape_time(ComplexPoint { re: 0, im: 0 }, 255), None);
    assert_eq!(escape_time(ComplexPoint { re: 0, im: 0 }, 10000), None);
}

#[test]
fn escape_time_three_escapes_immediately() {
    assert_eq!(escape_time(ComplexPoint { re: 3 * SCALE, im: 0 }, 10), Some(0));
}

#[test]
fn escape_time_is_deterministic() {
    let c = ComplexPoint { re: -SCALE, im: SCALE };
    assert_eq!(escape_time(c, 255), escape_time(c, 255));
    let d = ComplexPoint { re: SCALE / 4, im: SCALE / 4 };
    assert_eq!(escape_time(d, 255), escape_time(d, 255));
}

#[test]
fn escape_time_count_is_below_limit() {
    let c = ComplexPoint { re: -SCALE, im: SCALE };
    for limit in 1..20u32 {
        if let Some(count) = escape_time(c, limit) {
            assert!(count < limit);
        }
    }
}

#[test]
fn escape_time_conjugate_symmetry() {
    let cases = [
        ComplexPoint { re: -SCALE, im: SCALE },
        ComplexPoint { re: SCALE / 2, im: SCALE / 3 },
        ComplexPoint { re: 3 * SCALE, im: SCALE },
        ComplexPoint { re: 0, im: 2 * SCALE },
    ];
    for c in cases {
        let conj = ComplexPoint { re: c.re, im: -c.im };
        assert_eq!(escape_time(conj, 255), escape_time(c, 255));
    }
}

#[test]
fn render_single_pixel_values() {
    // A pixel mapping to 3 + 1i escapes at once: full brightness.
    let fast = render(
        (1, 1),
        ComplexPoint { re: 3 * SCALE, im: SCALE },
        ComplexPoint { re: 4 * SCALE, im: -SCALE },
    );
    assert_eq!(fast, vec![255]);
    // A pixel mapping to -1 + 1i escapes at iteration 2.
    let slow = render(
        (1, 1),
        ComplexPoint { re: -SCALE, im: SCALE },
        ComplexPoint { re: SCALE, im: -SCALE },
    );
    assert_eq!(slow, vec![253]);
}

#[test]
fn render_two_by_two() {
    let pixels = render(
        (2, 2),
        ComplexPoint { re: -SCALE, im: SCALE },
        ComplexPoint { re: SCALE, im: -SCALE },
    );
    // (-1+1i) escapes at iteration 2; i, -1 and the origin are members.
    assert_eq!(pixels, vec![253, 0, 0, 0]);
}

#[test]
fn image_buffer_starts_zeroed() {
    let buf = ImageBuffer::new(4, 3);
    assert_eq!(buf.rows, 4);
    assert_eq!(buf.cols, 3);
    assert_eq!(buf.buf, vec![0u8; 12]);
}

#[test]
fn bands_cover_rows_exactly() {
    assert_eq!(
        compute_bands(10, 3),
        vec![
            Band { top: 0, height: 4 },
            Band { top: 4, height: 4 },
            Band { top: 8, height: 2 },
        ]
    );
    // An even split yields exactly one band per worker, none wasted.
    assert_eq!(
        compute_bands(6, 3),
        vec![
            Band { top: 0, height: 2 },
            Band { top: 2, height: 2 },
            Band { top: 4, height: 2 },
        ]
    );
    assert_eq!(compute_bands(1, 8), vec![Band { top: 0, height: 1 }]);
    // Unions have no gap and no overlap: consecutive tops, ends at height.
    for (height, workers) in [(17usize, 4usize), (100, 7), (5, 5)] {
        let bands = compute_bands(height, workers);
        let mut next_row = 0;
        for band in &bands {
            assert_eq!(band.top, next_row);
            assert!(band.height >= 1);
            next_row = band.top + band.height;
        }
        assert_eq!(next_row, height);
    }
}

#[test]
fn write_buffer_has_the_raster_shape() {
    let pixels = write_buffer(
        (4, 3),
        ComplexPoint { re: -2 * SCALE, im: SCALE },
        ComplexPoint { re: SCALE, im: -SCALE },
    );
    assert_eq!(pixels.rows, 4);
    assert_eq!(pixels.cols, 3);
    assert_eq!(pixels.buf.len(), 12);
}

#[test]
fn write_buffer_single_row_matches_render() {
    // With one pixel row there is exactly one band, whatever the worker
    // count, so the parallel assembly must equal the direct rendering.
    let ul = ComplexPoint { re: -2 * SCALE, im: SCALE };
    let lr = ComplexPoint { re: SCALE, im: -SCALE };
    let buffered = write_buffer((5, 1), ul, lr);
    assert_eq!(buffered.buf, render((5, 1), ul, lr));
}

#[test]
fn full_frame_zoom_round_trips() {
    let ul = ComplexPoint { re: -2 * SCALE, im: SCALE };
    let lr = ComplexPoint { re: 2 * SCALE, im: -SCALE };
    assert_eq!(zoom_viewport((100, 50), (0, 0), (100, 50), ul, lr), Some((ul, lr)));
    // Corner order of the drag does not matter.
    assert_eq!(zoom_viewport((100, 50), (100, 50), (0, 0), ul, lr), Some((ul, lr)));
}

#[test]
fn degenerate_zoom_is_rejected() {
    let ul = ComplexPoint { re: -2 * SCALE, im: SCALE };
    let lr = ComplexPoint { re: 2 * SCALE, im: -SCALE };
    assert_eq!(zoom_viewport((100, 50), (10, 10), (10, 20), ul, lr), None);
    assert_eq!(zoom_viewport((100, 50), (10, 10), (40, 10), ul, lr), None);
    assert_eq!(zoom_viewport((100, 50), (10, 10), (10, 10), ul, lr), None);
}

#[test]
fn controller_zoom_sequence() {
    let ul = ComplexPoint { re: -2 * SCALE, im: SCALE };
    let lr = ComplexPoint { re: 2 * SCALE, im: -SCALE };
    let mut ctrl = ViewportZoomController::new((100, 50), ul, lr);
    assert!(matches!(ctrl.step(ControllerEvent::PointerDown { pos: (25, 0) }), ControllerAction::Stay));
    assert!(matches!(ctrl.step(ControllerEvent::PointerMove { pos: (75, 25) }), ControllerAction::Stay));
    assert!(matches!(ctrl.step(ControllerEvent::PointerUp), ControllerAction::Stay));
    match ctrl.step(ControllerEvent::Processed) {
        ControllerAction::Render { upper_left, lower_right } => {
            assert_eq!(upper_left, ComplexPoint { re: -SCALE, im: SCALE });
            assert_eq!(lower_right, ComplexPoint { re: SCALE, im: 0 });
        },
        ControllerAction::Stay => panic!("a zoom must trigger a render"),
    }
    assert_eq!(ctrl.upper_left, ComplexPoint { re: -SCALE, im: SCALE });
    assert_eq!(ctrl.lower_right, ComplexPoint { re: SCALE, im: 0 });
}

#[test]
fn controller_reset_restores_initial_viewport() {
    let ul = ComplexPoint { re: -2 * SCALE, im: SCALE };
    let lr = ComplexPoint { re: 2 * SCALE, im: -SCALE };
    let mut ctrl = ViewportZoomController::new((100, 50), ul, lr);
    ctrl.step(ControllerEvent::PointerDown { pos: (25, 0) });
    ctrl.step(ControllerEvent::PointerMove { pos: (75, 25) });
    ctrl.step(ControllerEvent::PointerUp);
    ctrl.step(ControllerEvent::Processed);
    assert!(matches!(ctrl.step(ControllerEvent::ResetKey), ControllerAction::Stay));
    match ctrl.step(ControllerEvent::Processed) {
        ControllerAction::Render { upper_left, lower_right } => {
            assert_eq!(upper_left, ul);
            assert_eq!(lower_right, lr);
        },
        ControllerAction::Stay => panic!("a reset must trigger a render"),
    }
    assert_eq!(ctrl.upper_left, ul);
    assert_eq!(ctrl.lower_right, lr);
}

#[test]
fn controller_zero_area_drag_zooms_nothing() {
    let ul = ComplexPoint { re: -2 * SCALE, im: SCALE };
    let lr = ComplexPoint { re: 2 * SCALE, im: -SCALE };
    let mut ctrl = ViewportZoomController::new((100, 50), ul, lr);
    ctrl.step(ControllerEvent::PointerDown { pos: (30, 20) });
    ctrl.step(ControllerEvent::PointerUp);
    assert!(matches!(ctrl.step(ControllerEvent::Processed), ControllerAction::Stay));
    assert_eq!(ctrl.upper_left, ul);
    assert_eq!(ctrl.lower_right, lr);
}

#[test]
fn selection_is_aspect_locked() {
    let ul = ComplexPoint { re: -2 * SCALE, im: SCALE };
    let lr = ComplexPoint { re: 2 * SCALE, im: -SCALE };
    // Width 100, height 50: a horizontal drag of 60 forces a vertical 30.
    let mut ctrl = ViewportZoomController::new((100, 50), ul, lr);
    ctrl.step(ControllerEvent::PointerDown { pos: (0, 0) });
    ctrl.step(ControllerEvent::PointerMove { pos: (60, 10) });
    ctrl.step(ControllerEvent::PointerUp);
    match ctrl.step(ControllerEvent::Processed) {
        ControllerAction::Render { upper_left, lower_right } => {
            // The rectangle (0,0)-(60,30) covers 60% of each axis.
            assert_eq!(upper_left, ul);
            let expected_re = -2 * SCALE + 60 * (4 * SCALE) / 100;
            let expected_im = SCALE - 30 * (2 * SCALE) / 50;
            assert_eq!(lower_right, ComplexPoint { re: expected_re, im: expected_im });
        },
        ControllerAction::Stay => panic!("an aspect-locked drag must zoom"),
    }
}
