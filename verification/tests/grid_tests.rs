use blightcore::{GridBuffer, Shape, BLIGHT, CLEAN, WIDTH, HEIGHT, CELL_COUNT};

fn cell(g: &GridBuffer, i: usize, j: usize) -> u8 {
    g.get(i, j)
}

#[test]
fn fresh_grid_is_clean() {
    let g = GridBuffer::new();
    let bytes = g.to_bytes();
    assert_eq!(bytes.len(), CELL_COUNT);
    assert!(bytes.iter().all(|&b| b == CLEAN));
    assert_eq!(WIDTH, 256);
    assert_eq!(HEIGHT, 256);
}

#[test]
fn fill_then_average_reads_back_fill_value() {
    let mut g = GridBuffer::new();
    let shape = Shape::Circle { row: 100, col: 100, radius: 3 };
    g.fill_shape(&shape, 200);
    assert_eq!(g.query_average(&shape), 200);
}

#[test]
fn fill_then_average_round_trip_radius_zero() {
    let mut g = GridBuffer::new();
    let shape = Shape::Circle { row: 7, col: 250, radius: 0 };
    g.fill_shape(&shape, 123);
    assert_eq!(g.query_average(&shape), 123);
    assert_eq!(cell(&g, 7, 250), 123);
    assert_eq!(cell(&g, 7, 249), 0);
}

#[test]
fn fill_clamps_at_grid_edge() {
    let mut g = GridBuffer::new();
    // A disk hanging over the corner only paints the visible quarter.
    let shape = Shape::Circle { row: 0, col: 0, radius: 2 };
    g.fill_shape(&shape, BLIGHT);
    assert_eq!(cell(&g, 0, 0), BLIGHT);
    assert_eq!(cell(&g, 2, 0), BLIGHT);
    assert_eq!(cell(&g, 2, 2), 0);
    assert_eq!(cell(&g, 3, 0), 0);
}

#[test]
fn average_truncates() {
    let mut g = GridBuffer::new();
    // Paint one of the five cells of a radius-1 disk, leave four clean:
    // the mean of (255, 0, 0, 0, 0) truncates to 51.
    let disk = Shape::Circle { row: 50, col: 50, radius: 1 };
    let center = Shape::Circle { row: 50, col: 50, radius: 0 };
    g.fill_shape(&center, 255);
    assert_eq!(g.query_average(&disk), 51);
}

#[test]
fn dilation_is_monotonic_and_keeps_saturated_cells() {
    let mut g = GridBuffer::new();
    g.fill_shape(&Shape::Circle { row: 128, col: 128, radius: 6 }, BLIGHT);
    g.fill_shape(&Shape::Circle { row: 40, col: 200, radius: 2 }, 90);
    let before = g.to_bytes();
    g.dilate();
    let after = g.to_bytes();
    for k in 0..CELL_COUNT {
        assert!(after[k] >= before[k]);
        if before[k] == 255 {
            assert_eq!(after[k], 255);
        }
    }
}

#[test]
fn dilation_leaves_clean_border_clean() {
    let mut g = GridBuffer::new();
    // Contaminate the interior heavily, keep the two-cell border clean.
    g.fill_shape(&Shape::Circle { row: 128, col: 128, radius: 120 }, BLIGHT);
    for i in 0..256 {
        for j in 0..256 {
            if i < 2 || i >= 254 || j < 2 || j >= 254 {
                assert_eq!(g.get(i, j), 0);
            }
        }
    }
    g.dilate();
    for i in 0..256 {
        for j in 0..256 {
            if i < 2 || i >= 254 || j < 2 || j >= 254 {
                assert_eq!(g.get(i, j), 0);
            }
        }
    }
}

#[test]
fn dilation_keeps_painted_border_values() {
    let mut g = GridBuffer::new();
    g.fill_shape(&Shape::Circle { row: 0, col: 10, radius: 1 }, 77);
    assert_eq!(g.get(0, 10), 77);
    g.dilate();
    // Border cells are never rewritten by dilation.
    assert_eq!(g.get(0, 10), 77);
}

#[test]
fn dilation_spreads_blight_into_neighbours() {
    let mut g = GridBuffer::new();
    g.fill_shape(&Shape::Circle { row: 128, col: 128, radius: 4 }, BLIGHT);
    let before: u32 = g.to_bytes().iter().map(|&b| b as u32).sum();
    g.dilate();
    let after: u32 = g.to_bytes().iter().map(|&b| b as u32).sum();
    assert!(after > before);
}
