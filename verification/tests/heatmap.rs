use superpoint_rs::error::SuperPointError;
use superpoint_rs::heatmap::ProbabilityGrid;
use superpoint_rs::keypoint::Keypoint;
use superpoint_rs::model::{cell_grid_shape, check_input_shape};

fn raw(rows: usize, cols: usize) -> Vec<u32> {
    // every value names its own place: channel * 10000 + row * 100 + col
    let mut v = Vec::new();
    for k in 0..65u32 {
        for i in 0..rows as u32 {
            for j in 0..cols as u32 {
                v.push(k * 10000 + i * 100 + j);
            }
        }
    }
    v
}

#[test]
fn input_shape_is_a_batch_of_grey_images() {
    assert_eq!(check_input_shape(&vec![1, 1, 240, 320]), Ok(()));
    assert_eq!(check_input_shape(&vec![7, 1, 8, 8]), Ok(()));
}

#[test]
fn input_shape_error_names_the_shape() {
    assert_eq!(
        check_input_shape(&vec![1, 3, 240, 320]),
        Err(SuperPointError::Inference(
            "Expected input tensor shape [N, 1, H, W], got [1, 3, 240, 320]".to_string()
        ))
    );
    assert_eq!(
        check_input_shape(&vec![240, 320]),
        Err(SuperPointError::Inference(
            "Expected input tensor shape [N, 1, H, W], got [240, 320]".to_string()
        ))
    );
}

#[test]
fn heatmap_shape_with_and_without_batch() {
    assert_eq!(cell_grid_shape(&vec![65, 3, 4]), Ok((3, 4)));
    assert_eq!(cell_grid_shape(&vec![1, 65, 30, 40]), Ok((30, 40)));
    assert_eq!(cell_grid_shape(&vec![65, 0, 0]), Ok((0, 0)));
    assert_eq!(cell_grid_shape(&vec![65, 8192, 8192]), Ok((8192, 8192)));
    assert_eq!(cell_grid_shape(&vec![65, 8193, 1]), Ok((8193, 1)));
    assert_eq!(cell_grid_shape(&vec![1, 65, 1, 100000000]), Ok((1, 100000000)));
}

#[test]
fn heatmap_shape_errors() {
    let refused: Vec<Vec<i64>> = vec![
        vec![],
        vec![65],
        vec![65, 3],
        vec![2, 65, 3, 4],
        vec![0, 65, 3, 4],
        vec![1, 1, 65, 3, 4],
        vec![64, 3, 4],
        vec![66, 3, 4],
        vec![1, 64, 3, 4],
        vec![65, -1, 4],
        vec![65, 3, -4],
        vec![65, i64::MAX, 0],
        vec![65, 0, i64::MAX],
    ];
    for dims in refused {
        match cell_grid_shape(&dims) {
            Err(SuperPointError::Inference(m)) => assert_eq!(
                m,
                format!(
                    "Unexpected semi-heatmap dimensions: {:?}. Expected [65, Hc, Wc] or [1, 65, Hc, Wc].",
                    dims
                )
            ),
            other => panic!("{:?} gave {:?}", dims, other),
        }
    }
}

#[test]
fn heatmap_shape_error_text() {
    assert_eq!(
        cell_grid_shape(&vec![2, 65, 3, 4]),
        Err(SuperPointError::Inference(
            "Unexpected semi-heatmap dimensions: [2, 65, 3, 4]. Expected [65, Hc, Wc] or [1, 65, Hc, Wc]."
                .to_string()
        ))
    );
}

#[test]
fn decoding_three_by_four_cells_gives_twenty_four_by_thirty_two() {
    let grid = ProbabilityGrid::decode(&vec![65, 3, 4], &raw(3, 4)).unwrap();
    assert_eq!(grid.height(), 24);
    assert_eq!(grid.width(), 32);
    assert_eq!(grid.cells().len(), 24 * 32);
}

#[test]
fn decoding_more_than_eight_thousand_cells_a_side() {
    let (rows, cols) = (8193usize, 2usize);
    let grid = ProbabilityGrid::decode(&vec![65, 8193, 2], &raw(rows, cols)).unwrap();
    assert_eq!(grid.height(), 65544);
    assert_eq!(grid.width(), 16);
    // class 63 of the last cell is the last pixel
    assert_eq!(grid.get(65543, 15), Some(63 * 10000 + 8192 * 100 + 1));
    let wide = ProbabilityGrid::decode(&vec![1, 65, 1, 9000], &raw(1, 9000)).unwrap();
    assert_eq!(wide.height(), 8);
    assert_eq!(wide.width(), 72000);
    let found = wide.candidates(63 * 10000 + 8998);
    assert_eq!(found, vec![Keypoint::new(71999 * 65536, 7 * 65536, 63 * 10000 + 8999)]);
}

#[test]
fn decoding_accepts_a_batch_of_one() {
    let grid = ProbabilityGrid::decode(&vec![1, 65, 2, 2], &raw(2, 2)).unwrap();
    assert_eq!(grid.height(), 16);
    assert_eq!(grid.width(), 16);
}

#[test]
fn decoding_puts_each_class_on_its_pixel() {
    let (rows, cols) = (3usize, 4usize);
    let grid = ProbabilityGrid::decode(&vec![65, 3, 4], &raw(rows, cols)).unwrap();
    for i in 0..rows {
        for j in 0..cols {
            for r in 0..8usize {
                for c in 0..8usize {
                    let k = r * 8 + c;
                    let expect = (k * 10000 + i * 100 + j) as u32;
                    assert_eq!(grid.get(i * 8 + r, j * 8 + c), Some(expect));
                    assert_eq!(grid.cells()[(i * 8 + r) * (cols * 8) + j * 8 + c], expect);
                }
            }
        }
    }
}

#[test]
fn decoding_does_not_swap_rows_and_columns_inside_a_cell() {
    let grid = ProbabilityGrid::decode(&vec![65, 1, 1], &raw(1, 1)).unwrap();
    // class 1 is one pixel to the right of class 0, class 8 one pixel below
    assert_eq!(grid.get(0, 1), Some(10000));
    assert_eq!(grid.get(1, 0), Some(80000));
    assert_eq!(grid.get(7, 7), Some(630000));
}

#[test]
fn decoding_drops_the_dustbin() {
    let grid = ProbabilityGrid::decode(&vec![65, 2, 2], &raw(2, 2)).unwrap();
    assert!(grid.cells().iter().all(|v| *v < 640000));
}

#[test]
fn decoding_an_empty_heatmap() {
    let grid = ProbabilityGrid::decode(&vec![65, 0, 5], &vec![]).unwrap();
    assert_eq!(grid.height(), 0);
    assert_eq!(grid.width(), 40);
    assert_eq!(grid.cells().len(), 0);
}

#[test]
fn decoding_refuses_a_bad_shape() {
    match ProbabilityGrid::decode(&vec![3, 65, 2, 2], &raw(2, 2)) {
        Err(SuperPointError::Inference(m)) => assert_eq!(
            m,
            "Unexpected semi-heatmap dimensions: [3, 65, 2, 2]. Expected [65, Hc, Wc] or [1, 65, Hc, Wc]."
        ),
        _ => panic!("a batch of three was decoded"),
    }
}

#[test]
fn decoding_refuses_data_of_the_wrong_length() {
    let mut data = raw(2, 2);
    data.pop();
    match ProbabilityGrid::decode(&vec![65, 2, 2], &data) {
        Err(SuperPointError::Inference(m)) => {
            assert_eq!(m, "Heatmap data does not fill a tensor of dimensions [65, 2, 2]")
        }
        _ => panic!("short data was decoded"),
    }
    assert!(ProbabilityGrid::decode(&vec![65, 2, 2], &vec![]).is_err());
}

#[test]
fn a_grid_must_be_filled_by_its_cells() {
    assert!(ProbabilityGrid::new(2, 3, vec![0; 6]).is_some());
    assert!(ProbabilityGrid::new(2, 3, vec![0; 5]).is_none());
    assert!(ProbabilityGrid::new(2, 3, vec![0; 7]).is_none());
    assert!(ProbabilityGrid::new(0, 0, vec![]).is_some());
    assert!(ProbabilityGrid::new(65537, 0, vec![]).is_some());
    assert!(ProbabilityGrid::new(0, usize::MAX, vec![]).is_some());
    assert!(ProbabilityGrid::new(usize::MAX, usize::MAX, vec![]).is_none());
    assert!(ProbabilityGrid::new(usize::MAX, 1, vec![0; 8]).is_none());
    let grid = ProbabilityGrid::new(2, 3, vec![1, 2, 3, 4, 5, 6]).unwrap();
    assert_eq!(grid.width(), 2);
    assert_eq!(grid.height(), 3);
    assert_eq!(grid.get(0, 0), Some(1));
    assert_eq!(grid.get(2, 1), Some(6));
    assert_eq!(grid.get(1, 0), Some(3));
    assert_eq!(grid.get(3, 0), None);
    assert_eq!(grid.get(0, 2), None);
}

#[test]
fn candidates_are_strictly_above_the_threshold() {
    let grid = ProbabilityGrid::new(3, 2, vec![5, 9, 5, 10, 4, 11]).unwrap();
    let found = grid.candidates(9);
    assert_eq!(
        found,
        vec![Keypoint::new(0, 65536, 10), Keypoint::new(2 * 65536, 65536, 11)]
    );
}

#[test]
fn candidates_come_row_by_row() {
    let grid = ProbabilityGrid::new(2, 2, vec![7, 7, 7, 7]).unwrap();
    let found = grid.candidates(6);
    assert_eq!(
        found,
        vec![
            Keypoint::new(0, 0, 7),
            Keypoint::new(65536, 0, 7),
            Keypoint::new(0, 65536, 7),
            Keypoint::new(65536, 65536, 7),
        ]
    );
}

#[test]
fn no_candidates_is_not_an_error() {
    let grid = ProbabilityGrid::new(2, 2, vec![7, 7, 7, 7]).unwrap();
    assert_eq!(grid.candidates(7), vec![]);
    let empty = ProbabilityGrid::new(0, 0, vec![]).unwrap();
    assert_eq!(empty.candidates(0), vec![]);
}

#[test]
fn raising_the_threshold_never_adds_candidates() {
    let cells: Vec<u32> = (0..48u32).map(|i| (i * 37) % 23).collect();
    let grid = ProbabilityGrid::new(8, 6, cells).unwrap();
    let mut last = usize::MAX;
    for t in 0..25u32 {
        let n = grid.candidates(t).len();
        assert!(n <= last);
        last = n;
    }
    assert_eq!(grid.candidates(22).len(), 0);
    assert_eq!(grid.candidates(0).len(), 45);
}

#[test]
fn the_last_pixel_of_a_long_row_has_a_coordinate() {
    let mut cells = vec![0u32; 100000];
    cells[99999] = 1;
    let grid = ProbabilityGrid::new(100000, 1, cells.clone()).unwrap();
    assert_eq!(grid.candidates(0), vec![Keypoint::new(99999 * 65536, 0, 1)]);
    let grid = ProbabilityGrid::new(1, 100000, cells).unwrap();
    assert_eq!(grid.candidates(0), vec![Keypoint::new(0, 99999 * 65536, 1)]);
}
