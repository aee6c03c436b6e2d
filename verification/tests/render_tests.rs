use kerr_march::render::{checkerboard_tile, geodesic_pixel, render_mode, RenderMode};

#[test]
fn render_mode_names() {
    assert_eq!(render_mode(&"slice".to_string()), RenderMode::EquatorialSlice);
    assert_eq!(render_mode(&"distortion".to_string()), RenderMode::LensDistortion);
    assert_eq!(render_mode(&"vp_nonrel".to_string()), RenderMode::NonRelativistic);
    assert_eq!(render_mode(&"momenta".to_string()), RenderMode::Momenta);
    assert_eq!(render_mode(&"eq_geodesics".to_string()), RenderMode::EquatorialGeodesics);
    assert_eq!(render_mode(&"full".to_string()), RenderMode::Full);
    assert_eq!(render_mode(&"".to_string()), RenderMode::Full);
    assert_eq!(render_mode(&"Slice".to_string()), RenderMode::Full);
}

#[test]
fn checkerboard_alternates() {
    assert!(checkerboard_tile(0, 0));
    assert!(!checkerboard_tile(0, 1));
    assert!(!checkerboard_tile(1, 0));
    assert!(checkerboard_tile(7, 9));
    assert!(checkerboard_tile(u32::MAX, 0) == false);
}

#[test]
fn geodesic_pixel_inside_and_outside() {
    assert_eq!(geodesic_pixel(0, 0, 1024, 1024), Some((512, 512)));
    assert_eq!(geodesic_pixel(-512, 511, 1024, 1024), Some((0, 1023)));
    assert_eq!(geodesic_pixel(-513, 0, 1024, 1024), None);
    assert_eq!(geodesic_pixel(0, 512, 1024, 1024), None);
    assert_eq!(geodesic_pixel(10, 10, 512, 1024), None);
    assert_eq!(geodesic_pixel(i32::MIN, 0, 1024, 1024), None);
}
