use mesh_browser::layout::{generate_positions, grid_shape, GridPosition, Ratio};

fn value(r: Ratio) -> f64 {
    r.num as f64 / r.den as f64
}

fn close(a: f64, b: f64) -> bool {
    (a - b).abs() < 1e-9
}

#[test]
fn nine_meshes_in_a_square_window_make_three_by_three() {
    let layout = generate_positions(9, 1, 1);
    assert_eq!((layout.rows, layout.cols), (3, 3));
    assert_eq!(layout.positions.len(), 9);
    assert_eq!(layout.scale, Ratio { num: 1, den: 3 });
    assert!(close(value(layout.scale), 1.0 / 3.0));
}

#[test]
fn nine_meshes_are_placed_row_by_row_from_the_top_left() {
    let layout = generate_positions(9, 1, 1);
    let third = 1.0 / 3.0;
    let expected = [
        (-third, third),
        (0.0, third),
        (third, third),
        (-third, 0.0),
        (0.0, 0.0),
        (third, 0.0),
        (-third, -third),
        (0.0, -third),
        (third, -third),
    ];
    for (k, (x, y)) in expected.iter().enumerate() {
        assert!(close(value(layout.positions[k].x), *x), "x of cell {}", k);
        assert!(close(value(layout.positions[k].y), *y), "y of cell {}", k);
    }
}

#[test]
fn positions_are_exact_fractions() {
    let layout = generate_positions(9, 1, 1);
    assert_eq!(
        layout.positions[0],
        GridPosition { x: Ratio { num: -2, den: 6 }, y: Ratio { num: 2, den: 6 } }
    );
    assert_eq!(
        layout.positions[8],
        GridPosition { x: Ratio { num: 2, den: 6 }, y: Ratio { num: -2, den: 6 } }
    );
}

#[test]
fn seven_meshes_in_a_wide_window_get_seven_positions() {
    let layout = generate_positions(7, 1, 2);
    assert_eq!((layout.rows, layout.cols), (2, 4));
    assert!(layout.rows * layout.cols >= 7);
    assert_eq!(layout.positions.len(), 7);
    assert!(close(value(layout.scale), 0.5));
    // the last mesh is the third of the second row
    assert!(close(value(layout.positions[6].x), 0.25));
    assert!(close(value(layout.positions[6].y), -0.25));
    // the first mesh is at the top left
    assert!(close(value(layout.positions[0].x), -0.75));
    assert!(close(value(layout.positions[0].y), 0.25));
}

#[test]
fn a_single_mesh_sits_in_the_centre() {
    let layout = generate_positions(1, 600, 800);
    assert_eq!((layout.rows, layout.cols), (1, 1));
    assert_eq!(layout.positions.len(), 1);
    assert!(close(value(layout.positions[0].x), 0.0));
    assert!(close(value(layout.positions[0].y), 0.0));
    assert!(close(value(layout.scale), 1.0));
}

#[test]
fn on_a_tie_the_width_is_rounded_first() {
    // square window: both ideal dimensions are the square root of 5
    assert_eq!(grid_shape(5, 7, 7), (2, 3));
    // both ideal dimensions are whole numbers
    assert_eq!(grid_shape(8, 1, 2), (2, 4));
}

#[test]
fn the_dimension_nearer_to_its_ceiling_is_rounded_first() {
    // height sqrt(3.5) = 1.87.., width sqrt(14) = 3.74..: the height is nearer
    assert_eq!(grid_shape(7, 1, 2), (2, 4));
    // height sqrt(14), width sqrt(3.5): the width is nearer
    assert_eq!(grid_shape(7, 2, 1), (4, 2));
    // height sqrt(5/3) = 1.29.., width sqrt(15) = 3.87..: the width is nearer
    assert_eq!(grid_shape(5, 1, 3), (2, 4));
    // height sqrt(15), width sqrt(5/3): the height is nearer
    assert_eq!(grid_shape(5, 3, 1), (4, 2));
}

#[test]
fn the_scale_is_the_smaller_side_of_a_cell() {
    // 2 rows of 6 in a window four times as wide as high: cells 1/2 high, 2/3 wide
    let layout = generate_positions(8, 100, 400);
    assert_eq!((layout.rows, layout.cols), (2, 6));
    assert!(close(value(layout.scale), 0.5));
    // a tall window: 3 meshes in a column, cells 1/3 high and 1/3 wide
    let layout = generate_positions(3, 300, 100);
    assert_eq!((layout.rows, layout.cols), (3, 1));
    assert!(close(value(layout.scale), 1.0 / 3.0));
    // 3 by 2 in a window half as wide as high: cells 1/3 high, 1/4 wide
    let layout = generate_positions(4, 200, 100);
    assert_eq!((layout.rows, layout.cols), (3, 2));
    assert!(close(value(layout.scale), 0.25));
}

#[test]
fn every_position_lies_inside_the_viewport() {
    for &(n, h, w) in &[(1usize, 1u16, 1u16), (7, 1, 2), (10, 1080, 1920), (23, 1920, 1080), (100, 3, 65535)] {
        let layout = generate_positions(n, h, w);
        assert_eq!(layout.positions.len(), n);
        assert!(layout.rows as usize * layout.cols as usize >= n);
        let half_width = w as f64 / h as f64 / 2.0;
        for p in &layout.positions {
            assert!(value(p.y).abs() < 0.5);
            assert!(value(p.x).abs() < half_width);
        }
        assert!(value(layout.scale) <= 1.0 / layout.rows as f64 + 1e-12);
        assert!(value(layout.scale) <= 2.0 * half_width / layout.cols as f64 + 1e-12);
    }
}

#[test]
fn extreme_windows_and_counts_are_laid_out() {
    assert_eq!(grid_shape(1, 65535, 1), (256, 1));
    assert_eq!(grid_shape(1, 1, 65535), (1, 256));
    let (rows, cols) = grid_shape(usize::MAX, 1, 1);
    assert!(rows as u128 * cols as u128 >= usize::MAX as u128);
}
