//! The layout mapper: where each cell of the 5x5 image sits in the physical
//! drive matrix of a board.

use vstd::prelude::*;

verus! {

/// The wiring of a board with `R` physical row lines and `C` physical column
/// lines: for each image cell, the physical cell that shows it.
#[derive(Clone, Copy, Debug)]
pub struct Layout<const R: usize, const C: usize> {
    cells: [[(usize, usize); 5]; 5],
}

/// Whether `(r, c)` names a cell of the 5x5 image.
pub open spec fn in_image(r: int, c: int) -> bool {
    0 <= r < 5 && 0 <= c < 5
}

/// Whether image cell `(r, c)` comes before `(r_end, c_end)` in row-major
/// order.
spec fn before(r: int, c: int, r_end: int, c_end: int) -> bool {
    r < r_end || (r == r_end && c < c_end)
}

/// A drive matrix as a sequence of rows, each a sequence of intensities.
pub open spec fn grid<const R: usize, const C: usize>(matrix: [[u8; C]; R]) -> Seq<Seq<u8>> {
    Seq::new(R as nat, |i: int| matrix[i]@)
}

impl<const R: usize, const C: usize> Layout<R, C> {
    /// The physical cell, as (row, column), that shows image cell `(r, c)`.
    pub closed spec fn cell(&self, r: int, c: int) -> (int, int) {
        (self.cells[r][c].0 as int, self.cells[r][c].1 as int)
    }

    /// The table is a bijection between the image and the physical cells it
    /// uses, and a board whose matrix has the shape of the image is wired
    /// cell for cell.
    pub open spec fn wf(&self) -> bool {
        &&& forall|r: int, c: int|
            in_image(r, c) ==> 0 <= (#[trigger] self.cell(r, c)).0 < R && 0 <= self.cell(r, c).1
                < C
        &&& forall|r1: int, c1: int, r2: int, c2: int|
            in_image(r1, c1) && in_image(r2, c2) && #[trigger] self.cell(r1, c1)
                == #[trigger] self.cell(r2, c2) ==> r1 == r2 && c1 == c2
        &&& R == 5 && C == 5 ==> forall|r: int, c: int|
            in_image(r, c) ==> #[trigger] self.cell(r, c) == (r, c)
    }

    /// Whether image cell `(r, c)` is shown by physical cell `(i, j)`.
    pub open spec fn shows(&self, r: int, c: int, i: int, j: int) -> bool {
        in_image(r, c) && self.cell(r, c) == (i, j)
    }

    /// Whether some image cell is shown by physical cell `(i, j)`.
    pub open spec fn covers(&self, i: int, j: int) -> bool {
        exists|r: int, c: int| #[trigger] self.shows(r, c, i, j)
    }

    /// The image cell that physical cell `(i, j)` shows, where it shows one.
    pub open spec fn source(&self, i: int, j: int) -> (int, int) {
        choose|r: int, c: int| #[trigger] self.shows(r, c, i, j)
    }

    /// The intensity that physical cell `(i, j)` gets for `image`: that of the
    /// image cell it shows, and 0 where it shows none.
    pub open spec fn intensity(&self, image: [[u8; 5]; 5], i: int, j: int) -> u8 {
        if self.covers(i, j) {
            image[self.source(i, j).0][self.source(i, j).1]
        } else {
            0
        }
    }

    /// The physical drive matrix of `image`: `R` rows of `C` intensities.
    pub open spec fn matrix_of(&self, image: [[u8; 5]; 5]) -> Seq<Seq<u8>> {
        Seq::new(R as nat, |i: int| Seq::new(C as nat, |j: int| self.intensity(image, i, j)))
    }

    /// Whether `matrix` is the physical drive matrix of `image`.
    pub open spec fn is_matrix_of(&self, matrix: [[u8; C]; R], image: [[u8; 5]; 5]) -> bool {
        forall|i: int, j: int|
            0 <= i < R && 0 <= j < C ==> #[trigger] matrix[i][j] == self.intensity(image, i, j)
    }

    /// The table is a bijection: every image cell has a physical cell of its
    /// own on the board, and every physical cell that the table uses shows
    /// exactly one image cell.
    pub proof fn lemma_bijection(&self)
        requires
            self.wf(),
        ensures
            forall|r: int, c: int|
                in_image(r, c) ==> {
                    let p = #[trigger] self.cell(r, c);
                    &&& 0 <= p.0 < R
                    &&& 0 <= p.1 < C
                    &&& self.covers(p.0, p.1)
                    &&& self.source(p.0, p.1) == (r, c)
                },
            forall|r1: int, c1: int, r2: int, c2: int|
                in_image(r1, c1) && in_image(r2, c2) && (r1 != r2 || c1 != c2)
                    ==> #[trigger] self.cell(r1, c1) != #[trigger] self.cell(r2, c2),
            forall|i: int, j: int, r: int, c: int|
                #[trigger] self.shows(r, c, i, j) ==> self.covers(i, j) && self.source(i, j) == (
                    r,
                    c,
                ) && 0 <= i < R && 0 <= j < C,
    {
        assert forall|i: int, j: int, r: int, c: int| #[trigger]
            self.shows(r, c, i, j) implies self.covers(i, j) && self.source(i, j) == (r, c) && 0
            <= i < R && 0 <= j < C by {
            let s = self.source(i, j);
            assert(self.shows(s.0, s.1, i, j));
            assert(self.cell(s.0, s.1) == self.cell(r, c));
        }
        assert forall|r: int, c: int| in_image(r, c) implies {
            let p = #[trigger] self.cell(r, c);
            &&& 0 <= p.0 < R
            &&& 0 <= p.1 < C
            &&& self.covers(p.0, p.1)
            &&& self.source(p.0, p.1) == (r, c)
        } by {
            let p = self.cell(r, c);
            assert(self.shows(r, c, p.0, p.1));
        }
    }

    /// On a board whose matrix has the shape of the image, the drive matrix
    /// of an image is that image, cell for cell.
    pub proof fn lemma_identity(&self, matrix: [[u8; C]; R], image: [[u8; 5]; 5])
        requires
            self.wf(),
            R == 5,
            C == 5,
            self.is_matrix_of(matrix, image),
        ensures
            forall|i: int, j: int| 0 <= i < 5 && 0 <= j < 5 ==> #[trigger] matrix[i][j] == image[i][j],
    {
        self.lemma_bijection();
        assert forall|i: int, j: int| 0 <= i < 5 && 0 <= j < 5 implies #[trigger] matrix[i][j]
            == image[i][j] by {
            assert(self.cell(i, j) == (i, j));
            assert(self.shows(i, j, i, j));
        }
    }

    /// A cell of the drive matrix is lit only where it shows a lit image
    /// cell, and every lit image cell lights the physical cell that shows it.
    pub proof fn lemma_matrix_cells(&self, matrix: [[u8; C]; R], image: [[u8; 5]; 5])
        requires
            self.wf(),
            self.is_matrix_of(matrix, image),
        ensures
            forall|r: int, c: int|
                in_image(r, c) ==> matrix[(#[trigger] self.cell(r, c)).0][self.cell(r, c).1]
                    == image[r][c],
            forall|i: int, j: int|
                0 <= i < R && 0 <= j < C && !self.covers(i, j) ==> #[trigger] matrix[i][j] == 0,
    {
        self.lemma_bijection();
        assert forall|r: int, c: int| in_image(r, c) implies matrix[(#[trigger] self.cell(
            r,
            c,
        )).0][self.cell(r, c).1] == image[r][c] by {
            let p = self.cell(r, c);
            assert(matrix[p.0][p.1] == self.intensity(image, p.0, p.1));
        }
    }

    /// The physical cell that shows image cell `(r, c)`.
    pub fn locate(&self, r: usize, c: usize) -> (p: (usize, usize))
        requires
            self.wf(),
            r < 5,
            c < 5,
        ensures
            (p.0 as int, p.1 as int) == self.cell(r as int, c as int),
            p.0 < R,
            p.1 < C,
    {
        proof {
            let q = self.cell(r as int, c as int);
            assert(in_image(r as int, c as int));
            assert(0 <= q.0 < R && 0 <= q.1 < C);
        }
        self.cells[r][c]
    }

    /// Maps an image to the physical drive matrix: every image cell
    /// goes to the physical cell that shows it, every other physical cell is
    /// off.
    pub fn to_matrix(&self, image: [[u8; 5]; 5]) -> (matrix: [[u8; C]; R])
        requires
            self.wf(),
        ensures
            self.is_matrix_of(matrix, image),
            grid(matrix) == self.matrix_of(image),
    {
        let mut matrix: [[u8; C]; R] = [[0u8; C]; R];
        let mut r: usize = 0;
        while r < 5
            invariant
                self.wf(),
                r <= 5,
                forall|r0: int, c0: int|
                    in_image(r0, c0) && before(r0, c0, r as int, 0) ==> matrix[(
                    #[trigger] self.cell(r0, c0)).0][self.cell(r0, c0).1] == image[r0][c0],
                forall|i: int, j: int|
                    0 <= i < R && 0 <= j < C ==> #[trigger] matrix[i][j] == 0 || exists|
                        r0: int,
                        c0: int,
                    |
                        before(r0, c0, r as int, 0) && #[trigger] self.shows(r0, c0, i, j),
            decreases 5 - r,
        {
            let mut c: usize = 0;
            while c < 5
                invariant
                    self.wf(),
                    r < 5,
                    c <= 5,
                    forall|r0: int, c0: int|
                        in_image(r0, c0) && before(r0, c0, r as int, c as int) ==> matrix[(
                        #[trigger] self.cell(r0, c0)).0][self.cell(r0, c0).1] == image[r0][c0],
                    forall|i: int, j: int|
                        0 <= i < R && 0 <= j < C ==> #[trigger] matrix[i][j] == 0 || exists|
                            r0: int,
                            c0: int,
                        |
                            before(r0, c0, r as int, c as int) && #[trigger] self.shows(
                                r0,
                                c0,
                                i,
                                j,
                            ),
                decreases 5 - c,
            {
                let p = self.locate(r, c);
                let ghost prev = matrix;
                matrix[p.0][p.1] = image[r][c];
                proof {
                    assert(self.shows(r as int, c as int, p.0 as int, p.1 as int));
                    assert forall|i: int, j: int| 0 <= i < R && 0 <= j < C implies #[trigger] matrix[i][j]
                        == 0 || exists|r0: int, c0: int|
                        before(r0, c0, r as int, c + 1) && #[trigger] self.shows(r0, c0, i, j) by {
                        if i == p.0 && j == p.1 {
                        } else {
                            assert(matrix[i][j] == prev[i][j]);
                            if prev[i][j] != 0 {
                                let (r0, c0) = choose|r0: int, c0: int|
                                    before(r0, c0, r as int, c as int) && #[trigger] self.shows(
                                        r0,
                                        c0,
                                        i,
                                        j,
                                    );
                                assert(before(r0, c0, r as int, c + 1) && self.shows(r0, c0, i, j));
                            }
                        }
                    }
                }
                c += 1;
            }
            r += 1;
        }
        proof {
            assert forall|i: int, j: int| 0 <= i < R && 0 <= j < C implies #[trigger] matrix[i][j]
                == self.intensity(image, i, j) by {
                if self.covers(i, j) {
                    let s = self.source(i, j);
                    assert(self.shows(s.0, s.1, i, j));
                    assert(before(s.0, s.1, 5, 0));
                } else {
                    if matrix[i][j] != 0 {
                        let (r0, c0) = choose|r0: int, c0: int|
                            before(r0, c0, 5, 0) && #[trigger] self.shows(r0, c0, i, j);
                        assert(self.shows(r0, c0, i, j));
                    }
                }
            }
            assert(grid(matrix) =~~= self.matrix_of(image));
        }
        matrix
    }
}

/// The wiring table of the first board revision: entry `[r][c]` is the
/// physical (row, column) of image cell `(r, c)`.
pub open spec fn v1_table() -> Seq<Seq<(int, int)>> {
    seq![
        seq![(0, 0), (1, 3), (0, 1), (1, 4), (0, 2)],
        seq![(2, 3), (2, 4), (2, 5), (2, 6), (2, 7)],
        seq![(1, 1), (0, 8), (1, 2), (2, 8), (1, 0)],
        seq![(0, 7), (0, 6), (0, 5), (0, 4), (0, 3)],
        seq![(2, 2), (1, 6), (2, 0), (1, 5), (2, 1)],
    ]
}

impl Layout<3, 9> {
    /// The wiring of the first board revision: the 5x5 image is spread over
    /// 3 row lines and 9 column lines.
    pub fn v1() -> (layout: Self)
        ensures
            layout.wf(),
            forall|r: int, c: int|
                in_image(r, c) ==> #[trigger] layout.cell(r, c) == v1_table()[r][c],
    {
        let layout = Layout {
            cells: [
                [(0, 0), (1, 3), (0, 1), (1, 4), (0, 2)],
                [(2, 3), (2, 4), (2, 5), (2, 6), (2, 7)],
                [(1, 1), (0, 8), (1, 2), (2, 8), (1, 0)],
                [(0, 7), (0, 6), (0, 5), (0, 4), (0, 3)],
                [(2, 2), (1, 6), (2, 0), (1, 5), (2, 1)],
            ],
        };
        layout
    }
}

impl Layout<5, 5> {
    /// Identity: on a board whose matrix has the shape of the image, the
    /// drive matrix of an image is that image.
    pub proof fn lemma_matrix_is_image(&self, matrix: [[u8; 5]; 5], image: [[u8; 5]; 5])
        requires
            self.wf(),
            self.is_matrix_of(matrix, image),
        ensures
            matrix == image,
    {
        self.lemma_identity(matrix, image);
        assert forall|i: int| 0 <= i < 5 implies matrix[i] == image[i] by {
            assert forall|j: int| 0 <= j < 5 implies matrix[i][j] == image[i][j] by {
                assert(matrix[i][j] == image[i][j]);
            }
            assert(matrix[i] =~= image[i]);
        }
        assert(matrix =~= image);
    }

    /// The wiring of the second board revision: the matrix has the shape of
    /// the image and every image cell is its own physical cell.
    pub fn v2() -> (layout: Self)
        ensures
            layout.wf(),
            forall|r: int, c: int| in_image(r, c) ==> #[trigger] layout.cell(r, c) == (r, c),
    {
        let layout = Layout {
            cells: [
                [(0, 0), (0, 1), (0, 2), (0, 3), (0, 4)],
                [(1, 0), (1, 1), (1, 2), (1, 3), (1, 4)],
                [(2, 0), (2, 1), (2, 2), (2, 3), (2, 4)],
                [(3, 0), (3, 1), (3, 2), (3, 3), (3, 4)],
                [(4, 0), (4, 1), (4, 2), (4, 3), (4, 4)],
            ],
        };
        layout
    }
}

} // verus!
