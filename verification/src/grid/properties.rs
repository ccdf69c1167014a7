use vstd::prelude::*;

use super::CrosswordGrid;

verus! {

impl CrosswordGrid {
    /// Number of placed entries among the first `k` words.
    pub open spec fn spec_count_placed(self, k: int) -> int
        decreases k,
    {
        if k <= 0 {
            0
        } else {
            self.spec_count_placed(k - 1) + if self.spec_words()[k - 1].word.spec_is_placed() {
                1int
            } else {
                0int
            }
        }
    }

    /// Intersection cells in row `r` at columns before `c`.
    pub open spec fn spec_row_inter(self, r: int, c: int) -> int
        decreases c - self.spec_top_left().1,
    {
        if c <= self.spec_top_left().1 {
            0
        } else {
            self.spec_row_inter(r, c - 1) + if self.spec_cell(r, c - 1).spec_is_intersection() {
                1int
            } else {
                0int
            }
        }
    }

    /// Intersection cells in the rows before `r`.
    pub open spec fn spec_inter_rows(self, r: int) -> int
        decreases r - self.spec_top_left().0,
    {
        if r <= self.spec_top_left().0 {
            0
        } else {
            self.spec_inter_rows(r - 1) + self.spec_row_inter(r - 1, self.spec_bottom_right().1 + 1)
        }
    }

    /// The total number of intersection cells in the box.
    pub open spec fn spec_num_intersections(self) -> int {
        self.spec_inter_rows(self.spec_bottom_right().0 + 1)
    }

    /// Letter cells in row `r` at columns before `c`.
    pub open spec fn spec_row_filled(self, r: int, c: int) -> int
        decreases c - self.spec_top_left().1,
    {
        if c <= self.spec_top_left().1 {
            0
        } else {
            self.spec_row_filled(r, c - 1) + if self.spec_cell(r, c - 1).spec_is_filled() {
                1int
            } else {
                0int
            }
        }
    }

    /// Letter cells in the rows before `r`.
    pub open spec fn spec_filled_rows(self, r: int) -> int
        decreases r - self.spec_top_left().0,
    {
        if r <= self.spec_top_left().0 {
            0
        } else {
            self.spec_filled_rows(r - 1) + self.spec_row_filled(
                r - 1,
                self.spec_bottom_right().1 + 1,
            )
        }
    }

    /// The total number of letter cells in the box.
    pub open spec fn spec_num_filled(self) -> int {
        self.spec_filled_rows(self.spec_bottom_right().0 + 1)
    }

    /// Letter cells in column `c` at rows before `r`.
    pub open spec fn spec_col_filled(self, c: int, r: int) -> int
        decreases r - self.spec_top_left().0,
    {
        if r <= self.spec_top_left().0 {
            0
        } else {
            self.spec_col_filled(c, r - 1) + if self.spec_cell(r - 1, c).spec_is_filled() {
                1int
            } else {
                0int
            }
        }
    }

    pub(crate) proof fn lemma_row_inter_bound(self, r: int, c: int)
        ensures
            0 <= self.spec_row_inter(r, c) <= vstd::math::max(c - self.spec_top_left().1, 0),
            0 <= self.spec_row_filled(r, c) <= vstd::math::max(c - self.spec_top_left().1, 0),
        decreases c - self.spec_top_left().1,
    {
        if c > self.spec_top_left().1 {
            self.lemma_row_inter_bound(r, c - 1);
        }
    }

    pub(crate) proof fn lemma_col_filled_bound(self, c: int, r: int)
        ensures
            0 <= self.spec_col_filled(c, r) <= vstd::math::max(r - self.spec_top_left().0, 0),
        decreases r - self.spec_top_left().0,
    {
        if r > self.spec_top_left().0 {
            self.lemma_col_filled_bound(c, r - 1);
        }
    }

    proof fn lemma_inter_rows_bound(self, r: int)
        requires
            self.wf(),
        ensures
            0 <= self.spec_inter_rows(r) <= vstd::math::max(r - self.spec_top_left().0, 0) * (
            self.spec_bottom_right().1 + 1 - self.spec_top_left().1),
            0 <= self.spec_filled_rows(r) <= vstd::math::max(r - self.spec_top_left().0, 0) * (
            self.spec_bottom_right().1 + 1 - self.spec_top_left().1),
        decreases r - self.spec_top_left().0,
    {
        let w = self.spec_bottom_right().1 + 1 - self.spec_top_left().1;
        if r <= self.spec_top_left().0 {
            assert(vstd::math::max(r - self.spec_top_left().0, 0) == 0);
        } else {
            self.lemma_inter_rows_bound(r - 1);
            self.lemma_row_inter_bound(r - 1, self.spec_bottom_right().1 + 1);
            let k = r - self.spec_top_left().0;
            assert(vstd::math::max(k, 0) * w == (k - 1) * w + w) by (nonlinear_arith)
                requires
                    k >= 1,
            ;
            assert(vstd::math::max(k - 1, 0) == k - 1);
        }
    }

    /// Returns the number of words, placed or not.
    pub fn count_all_words(&self) -> (r: usize)
        ensures
            r == self.spec_words().len(),
    {
        self.word_map.len()
    }

    /// Returns the number of placed words.
    pub fn count_placed_words(&self) -> (r: usize)
        ensures
            r == self.spec_count_placed(self.spec_words().len() as int),
    {
        let mut count: usize = 0;
        let mut k: usize = 0;
        while k < self.word_map.len()
            invariant
                k <= self.spec_words().len(),
                count == self.spec_count_placed(k as int),
                count <= k,
            decreases self.spec_words().len() - k,
        {
            if self.word_map[k].word.is_placed() {
                count += 1;
            }
            k += 1;
        }
        count
    }

    /// Returns the number of words not yet placed.
    pub fn count_unplaced_words(&self) -> (r: usize)
        ensures
            r == self.spec_words().len() - self.spec_count_placed(self.spec_words().len() as int),
    {
        proof {
            self.lemma_count_placed_bound(self.spec_words().len() as int);
        }
        self.count_all_words() - self.count_placed_words()
    }

    pub(crate) proof fn lemma_count_placed_bound(self, k: int)
        ensures
            0 <= self.spec_count_placed(k),
            k >= 0 ==> self.spec_count_placed(k) <= k,
        decreases k,
    {
        if k > 0 {
            self.lemma_count_placed_bound(k - 1);
        }
    }

    /// Returns the number of intersection cells: cells owned by both an
    /// across and a down word.
    pub fn count_intersections(&self) -> (r: usize)
        requires
            self.wf(),
        ensures
            r == self.spec_num_intersections(),
    {
        let mut intersections: usize = 0;
        let mut row = self.top_left_cell_index.0;
        while row <= self.bottom_right_cell_index.0
            invariant
                self.wf(),
                self.spec_top_left().0 <= row as int <= self.spec_bottom_right().0 + 1,
                intersections == self.spec_inter_rows(row as int),
            decreases self.spec_bottom_right().0 + 1 - row,
        {
            let mut col = self.top_left_cell_index.1;
            while col <= self.bottom_right_cell_index.1
                invariant
                    self.wf(),
                    self.spec_top_left().0 <= row as int <= self.spec_bottom_right().0,
                    self.spec_top_left().1 <= col as int <= self.spec_bottom_right().1 + 1,
                    intersections == self.spec_inter_rows(row as int) + self.spec_row_inter(
                        row as int,
                        col as int,
                    ),
                decreases self.spec_bottom_right().1 + 1 - col,
            {
                let c = self.cell_at(row, col);
                if c.is_intersection() {
                    proof {
                        self.lemma_inter_rows_bound(row as int);
                        self.lemma_row_inter_bound(row as int, col as int);
                        let h = row as int - self.spec_top_left().0;
                        let w = self.spec_bottom_right().1 + 1 - self.spec_top_left().1;
                        assert(h * w <= 32770 * 32770) by (nonlinear_arith)
                            requires
                                0 <= h <= 32770,
                                0 <= w <= 32770,
                        ;
                    }
                    intersections += 1;
                }
                col += 1;
            }
            row += 1;
        }
        intersections
    }

    /// Returns the number of letter cells.
    pub fn count_filled_cells(&self) -> (r: usize)
        requires
            self.wf(),
        ensures
            r == self.spec_num_filled(),
    {
        let mut filled: usize = 0;
        let mut row = self.top_left_cell_index.0;
        while row <= self.bottom_right_cell_index.0
            invariant
                self.wf(),
                self.spec_top_left().0 <= row as int <= self.spec_bottom_right().0 + 1,
                filled == self.spec_filled_rows(row as int),
            decreases self.spec_bottom_right().0 + 1 - row,
        {
            let mut col = self.top_left_cell_index.1;
            while col <= self.bottom_right_cell_index.1
                invariant
                    self.wf(),
                    self.spec_top_left().0 <= row as int <= self.spec_bottom_right().0,
                    self.spec_top_left().1 <= col as int <= self.spec_bottom_right().1 + 1,
                    filled == self.spec_filled_rows(row as int) + self.spec_row_filled(
                        row as int,
                        col as int,
                    ),
                decreases self.spec_bottom_right().1 + 1 - col,
            {
                let c = self.cell_at(row, col);
                if c.contains_letter() {
                    proof {
                        self.lemma_inter_rows_bound(row as int);
                        self.lemma_row_inter_bound(row as int, col as int);
                        let h = row as int - self.spec_top_left().0;
                        let w = self.spec_bottom_right().1 + 1 - self.spec_top_left().1;
                        assert(h * w <= 32770 * 32770) by (nonlinear_arith)
                            requires
                                0 <= h <= 32770,
                                0 <= w <= 32770,
                        ;
                    }
                    filled += 1;
                }
                col += 1;
            }
            row += 1;
        }
        filled
    }

    /// The corners of the bounding box: top-left, then bottom-right.
    pub fn get_grid_bounds(&self) -> (r: (super::Location, super::Location))
        ensures
            r.0 == self.spec_top_left(),
            r.1 == self.spec_bottom_right(),
    {
        (self.top_left_cell_index, self.bottom_right_cell_index)
    }

    /// The full box dimensions, buffer rows and columns included.
    pub fn get_grid_dimensions_with_buffer(&self) -> (r: (usize, usize))
        requires
            self.wf(),
        ensures
            r.0 == self.spec_rows(),
            r.1 == self.spec_cols(),
    {
        let nrows = (self.bottom_right_cell_index.0 - self.top_left_cell_index.0 + 1) as usize;
        let ncols = (self.bottom_right_cell_index.1 - self.top_left_cell_index.1 + 1) as usize;
        (nrows, ncols)
    }

    /// The interior dimensions: the box without its buffer edge.
    pub fn get_grid_dimensions(&self) -> (r: (usize, usize))
        requires
            self.wf(),
            self.spec_rows() >= 2,
            self.spec_cols() >= 2,
        ensures
            r.0 == self.spec_rows() - 2,
            r.1 == self.spec_cols() - 2,
    {
        let nrows = (self.bottom_right_cell_index.0 - self.top_left_cell_index.0 - 1) as usize;
        let ncols = (self.bottom_right_cell_index.1 - self.top_left_cell_index.1 - 1) as usize;
        (nrows, ncols)
    }

    /// Interior cells that hold no letter.
    pub fn count_empty_cells(&self) -> (r: usize)
        requires
            self.wf(),
            self.spec_rows() >= 2,
            self.spec_cols() >= 2,
            self.spec_num_filled() <= (self.spec_rows() - 2) * (self.spec_cols() - 2),
        ensures
            r == (self.spec_rows() - 2) * (self.spec_cols() - 2) - self.spec_num_filled(),
    {
        let (nrows, ncols) = self.get_grid_dimensions();
        proof {
            let h = self.spec_rows() - 2;
            let w = self.spec_cols() - 2;
            assert(h * w <= 32770 * 32770) by (nonlinear_arith)
                requires
                    0 <= h <= 32770,
                    0 <= w <= 32770,
            ;
            self.lemma_inter_rows_bound(self.spec_bottom_right().0 + 1);
        }
        nrows * ncols - self.count_filled_cells()
    }
}

} // verus!
