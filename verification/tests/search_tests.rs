use kerr_march::int3::Int3;
use kerr_march::search::search_cells;

fn below(bounds: &[f64], p: f64) -> Vec<bool> {
    bounds.iter().map(|b| p < *b).collect()
}

#[test]
fn search_finds_cell_before_first_boundary_above() {
    let xs = [0.0, 1.0, 2.0, 3.0];
    let r = search_cells(&below(&xs, 1.5), &below(&xs, 0.5), &below(&xs, 2.5));
    assert_eq!(r, Int3::new(1, 0, 2));
}

#[test]
fn search_point_past_last_boundary_gives_last_cell() {
    let xs = [0.0, 1.0, 2.0];
    let r = search_cells(&below(&xs, 5.0), &below(&xs, 2.0), &below(&xs, 0.0));
    // 2.0 is not below any boundary either; 0.0 is below 1.0.
    assert_eq!(r, Int3::new(2, 2, 0));
}

#[test]
fn search_axes_of_different_length() {
    // The scan runs over the first axis's boundaries; the second axis is longer and its
    // point lies beyond the scanned part, so it reports its own last cell.
    let xs = [0.0, 1.0, 2.0];
    let ys = [0.0, 1.0, 2.0, 3.0, 4.0, 5.0];
    let zs = [0.0, 10.0];
    let r = search_cells(&below(&xs, 0.5), &below(&ys, 4.5), &below(&zs, 3.0));
    assert_eq!(r, Int3::new(0, 5, 0));
}

#[test]
fn search_stops_once_all_found() {
    // The third axis is shorter than the first, but its boundary above the point comes
    // before the scan would run past its end.
    let xs = [0.0, 1.0, 2.0, 3.0];
    let zs = [0.0, 1.0];
    let r = search_cells(&below(&xs, 0.2), &below(&xs, 0.7), &below(&zs, 0.9));
    assert_eq!(r, Int3::new(0, 0, 0));
}
