use microbit::layout::Layout;

fn numbered_image() -> [[u8; 5]; 5] {
    let mut image = [[0u8; 5]; 5];
    for r in 0..5 {
        for c in 0..5 {
            image[r][c] = (10 * (r + 1) + c + 1) as u8;
        }
    }
    image
}

#[test]
fn v1_table_is_the_wiring_of_the_first_revision() {
    let expected: [[(usize, usize); 5]; 5] = [
        [(0, 0), (1, 3), (0, 1), (1, 4), (0, 2)],
        [(2, 3), (2, 4), (2, 5), (2, 6), (2, 7)],
        [(1, 1), (0, 8), (1, 2), (2, 8), (1, 0)],
        [(0, 7), (0, 6), (0, 5), (0, 4), (0, 3)],
        [(2, 2), (1, 6), (2, 0), (1, 5), (2, 1)],
    ];
    let layout = Layout::<3, 9>::v1();
    for r in 0..5 {
        for c in 0..5 {
            assert_eq!(layout.locate(r, c), expected[r][c]);
        }
    }
}

#[test]
fn v1_table_is_a_bijection_onto_its_cells() {
    let layout = Layout::<3, 9>::v1();
    let mut seen = [[false; 9]; 3];
    for r in 0..5 {
        for c in 0..5 {
            let (i, j) = layout.locate(r, c);
            assert!(i < 3 && j < 9);
            assert!(!seen[i][j], "physical cell ({}, {}) is used twice", i, j);
            seen[i][j] = true;
        }
    }
    let used = seen.iter().flatten().filter(|s| **s).count();
    assert_eq!(used, 25);
    assert!(!seen[1][7]);
    assert!(!seen[1][8]);
}

#[test]
fn v1_matrix_holds_every_image_cell_at_its_physical_cell() {
    let layout = Layout::<3, 9>::v1();
    let matrix = layout.to_matrix(numbered_image());
    let expected: [[u8; 9]; 3] = [
        [11, 13, 15, 45, 44, 43, 42, 41, 32],
        [35, 31, 33, 12, 14, 54, 52, 0, 0],
        [53, 55, 51, 21, 22, 23, 24, 25, 34],
    ];
    assert_eq!(matrix, expected);
}

#[test]
fn v1_matrix_of_a_dark_image_is_dark() {
    let layout = Layout::<3, 9>::v1();
    assert_eq!(layout.to_matrix([[0u8; 5]; 5]), [[0u8; 9]; 3]);
}

#[test]
fn v1_matrix_leaves_unused_cells_dark() {
    let layout = Layout::<3, 9>::v1();
    let matrix = layout.to_matrix([[255u8; 5]; 5]);
    for i in 0..3 {
        for j in 0..9 {
            let unused = i == 1 && (j == 7 || j == 8);
            assert_eq!(matrix[i][j], if unused { 0 } else { 255 });
        }
    }
}

#[test]
fn v1_single_cell_lands_on_one_physical_cell() {
    let layout = Layout::<3, 9>::v1();
    let mut image = [[0u8; 5]; 5];
    image[2][2] = 9;
    let matrix = layout.to_matrix(image);
    for i in 0..3 {
        for j in 0..9 {
            assert_eq!(matrix[i][j], if (i, j) == (1, 2) { 9 } else { 0 });
        }
    }
}

#[test]
fn v2_table_is_the_identity() {
    let layout = Layout::<5, 5>::v2();
    for r in 0..5 {
        for c in 0..5 {
            assert_eq!(layout.locate(r, c), (r, c));
        }
    }
}

#[test]
fn v2_matrix_is_the_image() {
    let layout = Layout::<5, 5>::v2();
    let image = numbered_image();
    assert_eq!(layout.to_matrix(image), image);
    assert_eq!(layout.to_matrix([[0u8; 5]; 5]), [[0u8; 5]; 5]);
}

#[test]
fn v2_single_cell_stays_where_it_is() {
    let layout = Layout::<5, 5>::v2();
    let mut image = [[0u8; 5]; 5];
    image[2][2] = 9;
    let matrix = layout.to_matrix(image);
    for i in 0..5 {
        for j in 0..5 {
            assert_eq!(matrix[i][j], if (i, j) == (2, 2) { 9 } else { 0 });
        }
    }
}
