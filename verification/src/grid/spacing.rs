use vstd::prelude::*;

use super::Cell;
use super::CrosswordGrid;
use super::Location;
use super::COORD_LIMIT;

verus! {

impl CrosswordGrid {
    /// Some cell of row `r` holds a letter.
    pub open spec fn spec_row_has_letter(self, r: int) -> bool {
        exists|c: int|
            self.spec_top_left().1 <= c <= self.spec_bottom_right().1 && (#[trigger] self.spec_cell(
                r,
                c,
            )).spec_is_filled()
    }

    /// Some cell of column `c` holds a letter.
    pub open spec fn spec_col_has_letter(self, c: int) -> bool {
        exists|r: int|
            self.spec_top_left().0 <= r <= self.spec_bottom_right().0 && (#[trigger] self.spec_cell(
                r,
                c,
            )).spec_is_filled()
    }

    /// Some cell of the grid holds a letter.
    pub open spec fn spec_has_letter(self) -> bool {
        exists|r: int|
            self.spec_top_left().0 <= r <= self.spec_bottom_right().0 && #[trigger] self.spec_row_has_letter(
                r,
            )
    }

    /// Exactly one empty buffer row and column on every side: the edge rows
    /// and columns hold no letter, the ones just inside each hold one.
    pub open spec fn spec_fitted(self) -> bool {
        &&& self.spec_rows() >= 3
        &&& self.spec_cols() >= 3
        &&& !self.spec_row_has_letter(self.spec_top_left().0 as int)
        &&& !self.spec_row_has_letter(self.spec_bottom_right().0 as int)
        &&& !self.spec_col_has_letter(self.spec_top_left().1 as int)
        &&& !self.spec_col_has_letter(self.spec_bottom_right().1 as int)
        &&& self.spec_row_has_letter(self.spec_top_left().0 + 1)
        &&& self.spec_row_has_letter(self.spec_bottom_right().0 - 1)
        &&& self.spec_col_has_letter(self.spec_top_left().1 + 1)
        &&& self.spec_col_has_letter(self.spec_bottom_right().1 - 1)
    }

    proof fn lemma_row_count_letter(self, r: int, c: int)
        requires
            self.wf(),
        ensures
            (self.spec_row_filled(r, c) == 0) == !exists|cc: int|
                self.spec_top_left().1 <= cc < c && (#[trigger] self.spec_cell(
                    r,
                    cc,
                )).spec_is_filled(),
            self.spec_row_filled(r, c) >= 0,
        decreases c - self.spec_top_left().1,
    {
        if c > self.spec_top_left().1 {
            self.lemma_row_count_letter(r, c - 1);
        }
    }

    proof fn lemma_col_count_letter(self, c: int, r: int)
        requires
            self.wf(),
        ensures
            (self.spec_col_filled(c, r) == 0) == !exists|rr: int|
                self.spec_top_left().0 <= rr < r && (#[trigger] self.spec_cell(
                    rr,
                    c,
                )).spec_is_filled(),
            self.spec_col_filled(c, r) >= 0,
        decreases r - self.spec_top_left().0,
    {
        if r > self.spec_top_left().0 {
            self.lemma_col_count_letter(c, r - 1);
        }
    }

    /// The number of letter cells in row `row` of the box.
    pub fn count_filled_cells_row(&self, row: isize) -> (r: usize)
        requires
            self.wf(),
            self.spec_top_left().0 <= row as int <= self.spec_bottom_right().0,
        ensures
            r == self.spec_row_filled(row as int, self.spec_bottom_right().1 + 1),
            (r == 0) == !self.spec_row_has_letter(row as int),
    {
        let mut col = self.top_left_cell_index.1;
        let mut filled_count: usize = 0;
        while col <= self.bottom_right_cell_index.1
            invariant
                self.wf(),
                self.spec_top_left().0 <= row as int <= self.spec_bottom_right().0,
                self.spec_top_left().1 <= col as int <= self.spec_bottom_right().1 + 1,
                filled_count == self.spec_row_filled(row as int, col as int),
            decreases self.spec_bottom_right().1 + 1 - col,
        {
            if self.cell_at(row, col).contains_letter() {
                proof {
                    self.lemma_row_inter_bound(row as int, col as int);
                }
                filled_count += 1;
            }
            col += 1;
        }
        proof {
            self.lemma_row_count_letter(row as int, self.spec_bottom_right().1 + 1);
        }
        filled_count
    }

    /// The number of letter cells in column `col` of the box.
    pub fn count_filled_cells_col(&self, col: isize) -> (r: usize)
        requires
            self.wf(),
            self.spec_top_left().1 <= col as int <= self.spec_bottom_right().1,
        ensures
            r == self.spec_col_filled(col as int, self.spec_bottom_right().0 + 1),
            (r == 0) == !self.spec_col_has_letter(col as int),
    {
        let mut row = self.top_left_cell_index.0;
        let mut filled_count: usize = 0;
        while row <= self.bottom_right_cell_index.0
            invariant
                self.wf(),
                self.spec_top_left().1 <= col as int <= self.spec_bottom_right().1,
                self.spec_top_left().0 <= row as int <= self.spec_bottom_right().0 + 1,
                filled_count == self.spec_col_filled(col as int, row as int),
            decreases self.spec_bottom_right().0 + 1 - row,
        {
            if self.cell_at(row, col).contains_letter() {
                proof {
                    self.lemma_col_filled_bound(col as int, row as int);
                }
                filled_count += 1;
            }
            row += 1;
        }
        proof {
            self.lemma_col_count_letter(col as int, self.spec_bottom_right().0 + 1);
        }
        filled_count
    }

    /// Add an empty row just above or below the box.
    fn add_empty_row(&mut self, new_row: isize)
        requires
            old(self).wf(),
            new_row as int == old(self).spec_top_left().0 - 1 || new_row as int == old(self).spec_bottom_right().0 + 1,
            -COORD_LIMIT <= new_row <= COORD_LIMIT,
        ensures
            final(self).wf(),
            final(self).spec_words() == old(self).spec_words(),
            final(self).spec_cols() == old(self).spec_cols(),
            final(self).spec_top_left().1 == old(self).spec_top_left().1 as int,
            final(self).spec_bottom_right().1 == old(self).spec_bottom_right().1 as int,
            (new_row as int) < old(self).spec_top_left().0 ==> final(self).spec_top_left()
                == Location(new_row, old(self).spec_top_left().1) && final(self).spec_bottom_right() == old(self).spec_bottom_right(),
            (new_row as int) > old(self).spec_bottom_right().0 ==> final(self).spec_bottom_right()
                == Location(new_row, old(self).spec_bottom_right().1) && final(self).spec_top_left() == old(self).spec_top_left(),
            forall|r: int, c: int|
                old(self).spec_in_box(r, c) ==> final(self).spec_cell(r, c) == old(self).spec_cell(
                    r,
                    c,
                ),
            forall|c: int|
                old(self).spec_top_left().1 <= c <= old(self).spec_bottom_right().1 ==> (
                #[trigger] final(self).spec_cell(new_row as int, c)).spec_is_empty(),
    {
        let ncols = (self.bottom_right_cell_index.1 - self.top_left_cell_index.1 + 1) as usize;
        let mut row: Vec<Cell> = Vec::new();
        let mut k: usize = 0;
        while k < ncols
            invariant
                k <= ncols,
                row@.len() == k,
                forall|q: int| 0 <= q < k ==> (#[trigger] row@[q]).spec_is_empty(),
            decreases ncols - k,
        {
            row.push(Cell::empty());
            k += 1;
        }
        if new_row < self.top_left_cell_index.0 {
            self.cells.insert(0, row);
            self.top_left_cell_index = Location(new_row, self.top_left_cell_index.1);
        } else {
            self.cells.push(row);
            self.bottom_right_cell_index = Location(new_row, self.bottom_right_cell_index.1);
        }
    }

    /// Add an empty column just left or right of the box.
    fn add_empty_col(&mut self, new_col: isize)
        requires
            old(self).wf(),
            new_col as int == old(self).spec_top_left().1 - 1 || new_col as int == old(self).spec_bottom_right().1 + 1,
            -COORD_LIMIT <= new_col <= COORD_LIMIT,
        ensures
            final(self).wf(),
            final(self).spec_words() == old(self).spec_words(),
            final(self).spec_rows() == old(self).spec_rows(),
            final(self).spec_top_left().0 == old(self).spec_top_left().0 as int,
            final(self).spec_bottom_right().0 == old(self).spec_bottom_right().0 as int,
            (new_col as int) < old(self).spec_top_left().1 ==> final(self).spec_top_left()
                == Location(old(self).spec_top_left().0, new_col) && final(self).spec_bottom_right() == old(self).spec_bottom_right(),
            (new_col as int) > old(self).spec_bottom_right().1 ==> final(self).spec_bottom_right()
                == Location(old(self).spec_bottom_right().0, new_col) && final(self).spec_top_left() == old(self).spec_top_left(),
            forall|r: int, c: int|
                old(self).spec_in_box(r, c) ==> final(self).spec_cell(r, c) == old(self).spec_cell(
                    r,
                    c,
                ),
            forall|r: int|
                old(self).spec_top_left().0 <= r <= old(self).spec_bottom_right().0 ==> (
                #[trigger] final(self).spec_cell(r, new_col as int)).spec_is_empty(),
    {
        let at_front = new_col < self.top_left_cell_index.1;
        let nrows = self.cells.len();
        let mut k: usize = 0;
        while k < nrows
            invariant
                old(self).wf(),
                nrows == self.cells@.len(),
                nrows == old(self).cells@.len(),
                k <= nrows,
                self.word_map == old(self).word_map,
                self.top_left_cell_index == old(self).top_left_cell_index,
                self.bottom_right_cell_index == old(self).bottom_right_cell_index,
                at_front == (new_col < old(self).spec_top_left().1),
                forall|q: int| k <= q < nrows ==> self.cells@[q] == old(self).cells@[q],
                forall|q: int|
                    0 <= q < k ==> (#[trigger] self.cells@[q]@.len()) == old(self).cells@[q]@.len()
                        + 1,
                forall|q: int, p: int|
                    0 <= q < k && 0 <= p < old(self).cells@[q]@.len() ==> (
                    #[trigger] old(self).cells@[q]@[p]) == self.cells@[q]@[if at_front {
                        p + 1
                    } else {
                        p
                    }],
                forall|q: int|
                    0 <= q < k ==> (#[trigger] self.cells@[q])@[if at_front {
                        0int
                    } else {
                        old(self).cells@[q]@.len() as int
                    }].spec_is_empty(),
            decreases nrows - k,
        {
            let mut row = self.cells.remove(k);
            let ghost rowpre = row@;
            if at_front {
                row.insert(0, Cell::empty());
            } else {
                row.push(Cell::empty());
            }
            self.cells.insert(k, row);
            k += 1;
            proof {
                assert forall|q: int| k <= q < nrows implies self.cells@[q] == old(self).cells@[q] by {}
                assert(self.cells@[k - 1]@.len() == rowpre.len() + 1);
            }
        }
        if at_front {
            self.top_left_cell_index = Location(self.top_left_cell_index.0, new_col);
        } else {
            self.bottom_right_cell_index = Location(self.bottom_right_cell_index.0, new_col);
        }
        proof {
            assert forall|r: int, c: int|
                old(self).spec_in_box(r, c) implies self.spec_cell(r, c) == old(self).spec_cell(
                r,
                c,
            ) by {
                let q = r - old(self).spec_top_left().0;
                let p = c - old(self).spec_top_left().1;
                if at_front {
                    assert(self.cells@[q]@[p + 1] == old(self).cells@[q]@[p]);
                } else {
                    assert(self.cells@[q]@[p] == old(self).cells@[q]@[p]);
                }
            }
            assert forall|r: int|
                old(self).spec_top_left().0 <= r <= old(self).spec_bottom_right().0 implies (
                #[trigger] self.spec_cell(r, new_col as int)).spec_is_empty() by {
                let q = r - old(self).spec_top_left().0;
                if at_front {
                    assert(self.cells@[q]@[0].spec_is_empty());
                } else {
                    assert(self.cells@[q]@[old(self).cells@[q]@.len() as int].spec_is_empty());
                }
            }
        }
    }

    /// Grow the box so that it contains `location`, adding empty rows and
    /// columns as needed.
    pub fn expand_to_fit_cell(&mut self, location: Location)
        requires
            old(self).wf(),
            -COORD_LIMIT <= location.0 <= COORD_LIMIT,
            -COORD_LIMIT <= location.1 <= COORD_LIMIT,
        ensures
            final(self).wf(),
            final(self).spec_words() == old(self).spec_words(),
            final(self).spec_top_left().0 == vstd::math::min(
                old(self).spec_top_left().0 as int,
                location.0 as int,
            ),
            final(self).spec_top_left().1 == vstd::math::min(
                old(self).spec_top_left().1 as int,
                location.1 as int,
            ),
            final(self).spec_bottom_right().0 == vstd::math::max(
                old(self).spec_bottom_right().0 as int,
                location.0 as int,
            ),
            final(self).spec_bottom_right().1 == vstd::math::max(
                old(self).spec_bottom_right().1 as int,
                location.1 as int,
            ),
            forall|r: int, c: int|
                old(self).spec_in_box(r, c) ==> final(self).spec_cell(r, c) == old(self).spec_cell(
                    r,
                    c,
                ),
            forall|r: int, c: int|
                final(self).spec_in_box(r, c) && !old(self).spec_in_box(r, c) ==> (
                #[trigger] final(self).spec_cell(r, c)).spec_is_empty(),
    {
        while location.0 < self.top_left_cell_index.0
            invariant
                self.wf(),
                self.spec_words() == old(self).spec_words(),
                -COORD_LIMIT <= location.0 <= COORD_LIMIT,
                -COORD_LIMIT <= location.1 <= COORD_LIMIT,
                self.spec_top_left().0 == vstd::math::max(
                    vstd::math::min(old(self).spec_top_left().0 as int, location.0 as int),
                    self.spec_top_left().0 as int,
                ),
                self.spec_top_left().0 >= vstd::math::min(
                    old(self).spec_top_left().0 as int,
                    location.0 as int,
                ),
                self.spec_top_left().0 <= old(self).spec_top_left().0 as int,
                self.spec_top_left().1 == old(self).spec_top_left().1 as int,
                self.spec_bottom_right() == old(self).spec_bottom_right(),
                forall|r: int, c: int|
                    old(self).spec_in_box(r, c) ==> self.spec_cell(r, c) == old(self).spec_cell(
                        r,
                        c,
                    ),
                forall|r: int, c: int|
                    self.spec_in_box(r, c) && !old(self).spec_in_box(r, c) ==> (
                    #[trigger] self.spec_cell(r, c)).spec_is_empty(),
            decreases self.spec_top_left().0 - location.0,
        {
            let ghost pre = *self;
            self.add_empty_row(self.top_left_cell_index.0 - 1);
            proof {
                self.lemma_expand_preserves(pre, *old(self));
            }
        }
        while location.0 > self.bottom_right_cell_index.0
            invariant
                self.wf(),
                self.spec_words() == old(self).spec_words(),
                -COORD_LIMIT <= location.0 <= COORD_LIMIT,
                -COORD_LIMIT <= location.1 <= COORD_LIMIT,
                self.spec_top_left().0 == vstd::math::min(
                    old(self).spec_top_left().0 as int,
                    location.0 as int,
                ),
                self.spec_top_left().1 == old(self).spec_top_left().1 as int,
                self.spec_bottom_right().0 >= old(self).spec_bottom_right().0 as int,
                self.spec_bottom_right().0 <= vstd::math::max(
                    old(self).spec_bottom_right().0 as int,
                    location.0 as int,
                ),
                self.spec_bottom_right().1 == old(self).spec_bottom_right().1 as int,
                forall|r: int, c: int|
                    old(self).spec_in_box(r, c) ==> self.spec_cell(r, c) == old(self).spec_cell(
                        r,
                        c,
                    ),
                forall|r: int, c: int|
                    self.spec_in_box(r, c) && !old(self).spec_in_box(r, c) ==> (
                    #[trigger] self.spec_cell(r, c)).spec_is_empty(),
            decreases location.0 - self.spec_bottom_right().0,
        {
            let ghost pre = *self;
            self.add_empty_row(self.bottom_right_cell_index.0 + 1);
            proof {
                self.lemma_expand_preserves(pre, *old(self));
            }
        }
        while location.1 < self.top_left_cell_index.1
            invariant
                self.wf(),
                self.spec_words() == old(self).spec_words(),
                -COORD_LIMIT <= location.1 <= COORD_LIMIT,
                self.spec_top_left().0 == vstd::math::min(
                    old(self).spec_top_left().0 as int,
                    location.0 as int,
                ),
                self.spec_bottom_right().0 == vstd::math::max(
                    old(self).spec_bottom_right().0 as int,
                    location.0 as int,
                ),
                self.spec_top_left().1 >= vstd::math::min(
                    old(self).spec_top_left().1 as int,
                    location.1 as int,
                ),
                self.spec_top_left().1 <= old(self).spec_top_left().1 as int,
                self.spec_bottom_right().1 == old(self).spec_bottom_right().1 as int,
                forall|r: int, c: int|
                    old(self).spec_in_box(r, c) ==> self.spec_cell(r, c) == old(self).spec_cell(
                        r,
                        c,
                    ),
                forall|r: int, c: int|
                    self.spec_in_box(r, c) && !old(self).spec_in_box(r, c) ==> (
                    #[trigger] self.spec_cell(r, c)).spec_is_empty(),
            decreases self.spec_top_left().1 - location.1,
        {
            let ghost pre = *self;
            self.add_empty_col(self.top_left_cell_index.1 - 1);
            proof {
                self.lemma_expand_preserves(pre, *old(self));
            }
        }
        while location.1 > self.bottom_right_cell_index.1
            invariant
                self.wf(),
                self.spec_words() == old(self).spec_words(),
                -COORD_LIMIT <= location.1 <= COORD_LIMIT,
                self.spec_top_left().0 == vstd::math::min(
                    old(self).spec_top_left().0 as int,
                    location.0 as int,
                ),
                self.spec_bottom_right().0 == vstd::math::max(
                    old(self).spec_bottom_right().0 as int,
                    location.0 as int,
                ),
                self.spec_top_left().1 == vstd::math::min(
                    old(self).spec_top_left().1 as int,
                    location.1 as int,
                ),
                self.spec_bottom_right().1 >= old(self).spec_bottom_right().1 as int,
                self.spec_bottom_right().1 <= vstd::math::max(
                    old(self).spec_bottom_right().1 as int,
                    location.1 as int,
                ),
                forall|r: int, c: int|
                    old(self).spec_in_box(r, c) ==> self.spec_cell(r, c) == old(self).spec_cell(
                        r,
                        c,
                    ),
                forall|r: int, c: int|
                    self.spec_in_box(r, c) && !old(self).spec_in_box(r, c) ==> (
                    #[trigger] self.spec_cell(r, c)).spec_is_empty(),
            decreases location.1 - self.spec_bottom_right().1,
        {
            let ghost pre = *self;
            self.add_empty_col(self.bottom_right_cell_index.1 + 1);
            proof {
                self.lemma_expand_preserves(pre, *old(self));
            }
        }
    }

    /// One expansion step keeps the original cells and leaves all newly
    /// created cells empty, relative to the original grid.
    proof fn lemma_expand_preserves(self, pre: CrosswordGrid, orig: CrosswordGrid)
        requires
            forall|r: int, c: int|
                orig.spec_in_box(r, c) ==> pre.spec_cell(r, c) == orig.spec_cell(r, c),
            forall|r: int, c: int|
                pre.spec_in_box(r, c) && !orig.spec_in_box(r, c) ==> (#[trigger] pre.spec_cell(
                    r,
                    c,
                )).spec_is_empty(),
            forall|r: int, c: int|
                pre.spec_in_box(r, c) ==> self.spec_cell(r, c) == pre.spec_cell(r, c),
            forall|r: int, c: int|
                self.spec_in_box(r, c) && !pre.spec_in_box(r, c) ==> (#[trigger] self.spec_cell(
                    r,
                    c,
                )).spec_is_empty(),
            forall|r: int, c: int| orig.spec_in_box(r, c) ==> pre.spec_in_box(r, c),
            forall|r: int, c: int| pre.spec_in_box(r, c) ==> self.spec_in_box(r, c),
        ensures
            forall|r: int, c: int|
                orig.spec_in_box(r, c) ==> self.spec_cell(r, c) == orig.spec_cell(r, c),
            forall|r: int, c: int|
                self.spec_in_box(r, c) && !orig.spec_in_box(r, c) ==> (#[trigger] self.spec_cell(
                    r,
                    c,
                )).spec_is_empty(),
    {
    }

    /// Remove the top or bottom row of the box.
    fn remove_row(&mut self, row: isize)
        requires
            old(self).wf(),
            old(self).spec_rows() >= 2,
            row as int == old(self).spec_top_left().0 || row as int == old(self).spec_bottom_right().0,
        ensures
            final(self).wf(),
            final(self).spec_words() == old(self).spec_words(),
            final(self).spec_top_left().1 == old(self).spec_top_left().1,
            final(self).spec_bottom_right().1 == old(self).spec_bottom_right().1,
            row as int == old(self).spec_bottom_right().0 ==> final(self).spec_top_left() == old(self).spec_top_left() && final(self).spec_bottom_right().0 == old(self).spec_bottom_right().0 - 1,
            row as int != old(self).spec_bottom_right().0 ==> final(self).spec_bottom_right()
                == old(self).spec_bottom_right() && final(self).spec_top_left().0 == old(self).spec_top_left().0 + 1,
            forall|r: int, c: int|
                final(self).spec_in_box(r, c) ==> final(self).spec_cell(r, c) == old(self).spec_cell(r, c),
    {
        if row == self.bottom_right_cell_index.0 {
            let last = self.cells.len() - 1;
            self.cells.remove(last);
            proof {
                old(self).cells@.remove_ensures(last as int);
            }
            self.bottom_right_cell_index = Location(
                self.bottom_right_cell_index.0 - 1,
                self.bottom_right_cell_index.1,
            );
        } else {
            self.cells.remove(0);
            proof {
                old(self).cells@.remove_ensures(0);
            }
            self.top_left_cell_index = Location(
                self.top_left_cell_index.0 + 1,
                self.top_left_cell_index.1,
            );
        }
    }

    /// Remove the left or right column of the box.
    fn remove_col(&mut self, col: isize)
        requires
            old(self).wf(),
            old(self).spec_cols() >= 2,
            col as int == old(self).spec_top_left().1 || col as int == old(self).spec_bottom_right().1,
        ensures
            final(self).wf(),
            final(self).spec_words() == old(self).spec_words(),
            final(self).spec_top_left().0 == old(self).spec_top_left().0,
            final(self).spec_bottom_right().0 == old(self).spec_bottom_right().0,
            col as int == old(self).spec_bottom_right().1 ==> final(self).spec_top_left() == old(self).spec_top_left() && final(self).spec_bottom_right().1 == old(self).spec_bottom_right().1 - 1,
            col as int != old(self).spec_bottom_right().1 ==> final(self).spec_bottom_right()
                == old(self).spec_bottom_right() && final(self).spec_top_left().1 == old(self).spec_top_left().1 + 1,
            forall|r: int, c: int|
                final(self).spec_in_box(r, c) ==> final(self).spec_cell(r, c) == old(self).spec_cell(r, c),
    {
        let at_back = col == self.bottom_right_cell_index.1;
        let nrows = self.cells.len();
        let mut k: usize = 0;
        while k < nrows
            invariant
                old(self).wf(),
                old(self).spec_cols() >= 2,
                nrows == self.cells@.len(),
                nrows == old(self).cells@.len(),
                k <= nrows,
                self.word_map == old(self).word_map,
                self.top_left_cell_index == old(self).top_left_cell_index,
                self.bottom_right_cell_index == old(self).bottom_right_cell_index,
                forall|q: int| k <= q < nrows ==> self.cells@[q] == old(self).cells@[q],
                forall|q: int|
                    0 <= q < k ==> (#[trigger] self.cells@[q]@.len()) + 1 == old(self).cells@[q]@.len(),
                forall|q: int, p: int|
                    0 <= q < k && 0 <= p < self.cells@[q]@.len() ==> (
                    #[trigger] self.cells@[q]@[p]) == old(self).cells@[q]@[if at_back {
                        p
                    } else {
                        p + 1
                    }],
            decreases nrows - k,
        {
            let mut row = self.cells.remove(k);
            proof {
                self.cells@.insert_ensures(k as int, row);
            }
            let ghost rowpre = row@;
            if at_back {
                let last = row.len() - 1;
                row.remove(last);
                proof {
                    rowpre.remove_ensures(rowpre.len() - 1);
                }
            } else {
                row.remove(0);
                proof {
                    rowpre.remove_ensures(0);
                }
            }
            self.cells.insert(k, row);
            k += 1;
            proof {
                assert forall|q: int| k <= q < nrows implies self.cells@[q] == old(self).cells@[q] by {}
            }
        }
        if at_back {
            self.bottom_right_cell_index = Location(
                self.bottom_right_cell_index.0,
                self.bottom_right_cell_index.1 - 1,
            );
        } else {
            self.top_left_cell_index = Location(
                self.top_left_cell_index.0,
                self.top_left_cell_index.1 + 1,
            );
        }
        proof {
            assert forall|r: int, c: int|
                self.spec_in_box(r, c) implies self.spec_cell(r, c) == old(self).spec_cell(
                r,
                c,
            ) by {
                let q = r - self.spec_top_left().0;
                if at_back {
                    assert(self.cells@[q]@[c - self.spec_top_left().1] == old(self).cells@[q]@[c - self.spec_top_left().1]);
                } else {
                    assert(self.cells@[q]@[c - self.spec_top_left().1] == old(self).cells@[q]@[c - self.spec_top_left().1 + 1 - 1 + 1]);
                }
            }
        }
    }

    /// Add one empty buffer row or column on each side that still has a
    /// letter on its edge.
    fn ensure_buffer_exists(&mut self)
        requires
            old(self).wf(),
            old(self).spec_top_left().0 > -COORD_LIMIT,
            old(self).spec_top_left().1 > -COORD_LIMIT,
            old(self).spec_bottom_right().0 < COORD_LIMIT,
            old(self).spec_bottom_right().1 < COORD_LIMIT,
        ensures
            final(self).wf(),
            final(self).spec_words() == old(self).spec_words(),
            !final(self).spec_row_has_letter(final(self).spec_top_left().0 as int),
            !final(self).spec_row_has_letter(final(self).spec_bottom_right().0 as int),
            !final(self).spec_col_has_letter(final(self).spec_top_left().1 as int),
            !final(self).spec_col_has_letter(final(self).spec_bottom_right().1 as int),
            forall|r: int, c: int|
                old(self).spec_in_box(r, c) ==> final(self).spec_in_box(r, c) && final(self).spec_cell(r, c) == old(self).spec_cell(r, c),
            forall|r: int, c: int|
                final(self).spec_in_box(r, c) && !old(self).spec_in_box(r, c) ==> (
                #[trigger] final(self).spec_cell(r, c)).spec_is_empty(),
            old(self).spec_top_left().0 - 1 <= final(self).spec_top_left().0 <= old(self).spec_top_left().0,
            old(self).spec_top_left().1 - 1 <= final(self).spec_top_left().1 <= old(self).spec_top_left().1,
            old(self).spec_bottom_right().0 <= final(self).spec_bottom_right().0 <= old(self).spec_bottom_right().0 + 1,
            old(self).spec_bottom_right().1 <= final(self).spec_bottom_right().1 <= old(self).spec_bottom_right().1 + 1,
            (!old(self).spec_row_has_letter(old(self).spec_top_left().0 as int) && !old(self).spec_row_has_letter(old(self).spec_bottom_right().0 as int) && !old(self).spec_col_has_letter(old(self).spec_top_left().1 as int) && !old(self).spec_col_has_letter(old(self).spec_bottom_right().1 as int)) ==> *final(self)
                == *old(self),
            !old(self).spec_row_has_letter(old(self).spec_top_left().0 as int) ==> final(self).spec_top_left().0 == old(self).spec_top_left().0,
            !old(self).spec_row_has_letter(old(self).spec_bottom_right().0 as int) ==> final(self).spec_bottom_right().0 == old(self).spec_bottom_right().0,
            !old(self).spec_col_has_letter(old(self).spec_top_left().1 as int) ==> final(self).spec_top_left().1 == old(self).spec_top_left().1,
            !old(self).spec_col_has_letter(old(self).spec_bottom_right().1 as int) ==> final(self).spec_bottom_right().1 == old(self).spec_bottom_right().1,
    {
        if self.count_filled_cells_row(self.top_left_cell_index.0) > 0 {
            self.add_empty_row(self.top_left_cell_index.0 - 1);
        }
        let ghost g1 = *self;
        if self.count_filled_cells_row(self.bottom_right_cell_index.0) > 0 {
            self.add_empty_row(self.bottom_right_cell_index.0 + 1);
        }
        let ghost g2 = *self;
        if self.count_filled_cells_col(self.top_left_cell_index.1) > 0 {
            self.add_empty_col(self.top_left_cell_index.1 - 1);
        }
        let ghost g3 = *self;
        if self.count_filled_cells_col(self.bottom_right_cell_index.1) > 0 {
            self.add_empty_col(self.bottom_right_cell_index.1 + 1);
        }
        proof {
            self.lemma_buffer_edges(*old(self), g1, g2, g3);
        }
    }

    /// After the four buffer additions, all four edges are letter-free and
    /// the original cells are preserved.
    proof fn lemma_buffer_edges(
        self,
        g0: CrosswordGrid,
        g1: CrosswordGrid,
        g2: CrosswordGrid,
        g3: CrosswordGrid,
    )
        requires
            g0.wf(),
            g1.wf(),
            g2.wf(),
            g3.wf(),
            self.wf(),
            // box growth chain
            g1.spec_top_left().0 <= g0.spec_top_left().0,
            g1.spec_top_left().1 == g0.spec_top_left().1,
            g1.spec_bottom_right() == g0.spec_bottom_right(),
            g2.spec_top_left() == g1.spec_top_left(),
            g2.spec_bottom_right().0 >= g1.spec_bottom_right().0,
            g2.spec_bottom_right().1 == g1.spec_bottom_right().1,
            g3.spec_top_left().0 == g2.spec_top_left().0,
            g3.spec_top_left().1 <= g2.spec_top_left().1,
            g3.spec_bottom_right() == g2.spec_bottom_right(),
            self.spec_top_left() == g3.spec_top_left(),
            self.spec_bottom_right().0 == g3.spec_bottom_right().0,
            self.spec_bottom_right().1 >= g3.spec_bottom_right().1,
            // preservation chain
            forall|r: int, c: int|
                g0.spec_in_box(r, c) ==> g1.spec_in_box(r, c) && g1.spec_cell(r, c)
                    == g0.spec_cell(r, c),
            forall|r: int, c: int|
                g1.spec_in_box(r, c) && !g0.spec_in_box(r, c) ==> (#[trigger] g1.spec_cell(
                    r,
                    c,
                )).spec_is_empty(),
            forall|r: int, c: int|
                g1.spec_in_box(r, c) ==> g2.spec_in_box(r, c) && g2.spec_cell(r, c)
                    == g1.spec_cell(r, c),
            forall|r: int, c: int|
                g2.spec_in_box(r, c) && !g1.spec_in_box(r, c) ==> (#[trigger] g2.spec_cell(
                    r,
                    c,
                )).spec_is_empty(),
            forall|r: int, c: int|
                g2.spec_in_box(r, c) ==> g3.spec_in_box(r, c) && g3.spec_cell(r, c)
                    == g2.spec_cell(r, c),
            forall|r: int, c: int|
                g3.spec_in_box(r, c) && !g2.spec_in_box(r, c) ==> (#[trigger] g3.spec_cell(
                    r,
                    c,
                )).spec_is_empty(),
            forall|r: int, c: int|
                g3.spec_in_box(r, c) ==> self.spec_in_box(r, c) && self.spec_cell(r, c)
                    == g3.spec_cell(r, c),
            forall|r: int, c: int|
                self.spec_in_box(r, c) && !g3.spec_in_box(r, c) ==> (#[trigger] self.spec_cell(
                    r,
                    c,
                )).spec_is_empty(),
            // each step leaves its own edge letter-free
            !g1.spec_row_has_letter(g1.spec_top_left().0 as int),
            !g2.spec_row_has_letter(g2.spec_bottom_right().0 as int),
            !g3.spec_col_has_letter(g3.spec_top_left().1 as int),
            !self.spec_col_has_letter(self.spec_bottom_right().1 as int),
        ensures
            !self.spec_row_has_letter(self.spec_top_left().0 as int),
            !self.spec_row_has_letter(self.spec_bottom_right().0 as int),
            !self.spec_col_has_letter(self.spec_top_left().1 as int),
            !self.spec_col_has_letter(self.spec_bottom_right().1 as int),
            forall|r: int, c: int|
                g0.spec_in_box(r, c) ==> self.spec_in_box(r, c) && self.spec_cell(r, c)
                    == g0.spec_cell(r, c),
            forall|r: int, c: int|
                self.spec_in_box(r, c) && !g0.spec_in_box(r, c) ==> (#[trigger] self.spec_cell(
                    r,
                    c,
                )).spec_is_empty(),
    {
        assert forall|r: int, c: int|
            self.spec_in_box(r, c) && !g0.spec_in_box(r, c) implies (#[trigger] self.spec_cell(
            r,
            c,
        )).spec_is_empty() by {
            if g3.spec_in_box(r, c) {
                if g2.spec_in_box(r, c) {
                    if g1.spec_in_box(r, c) {
                        assert(g1.spec_cell(r, c).spec_is_empty());
                    }
                }
            }
        }
        let t = self.spec_top_left().0 as int;
        assert forall|c: int|
            self.spec_top_left().1 <= c <= self.spec_bottom_right().1 implies !(
        #[trigger] self.spec_cell(t, c)).spec_is_filled() by {
            if g1.spec_in_box(t, c) {
                assert(g1.spec_cell(t, c) == self.spec_cell(t, c));
                assert(!g1.spec_cell(t, c).spec_is_filled());
            } else if self.spec_in_box(t, c) && !g0.spec_in_box(t, c) {
            }
        }
        let b = self.spec_bottom_right().0 as int;
        assert forall|c: int|
            self.spec_top_left().1 <= c <= self.spec_bottom_right().1 implies !(
        #[trigger] self.spec_cell(b, c)).spec_is_filled() by {
            if g2.spec_in_box(b, c) {
                assert(g2.spec_cell(b, c) == self.spec_cell(b, c));
                assert(!g2.spec_cell(b, c).spec_is_filled());
            }
        }
        let l = self.spec_top_left().1 as int;
        assert forall|r: int|
            self.spec_top_left().0 <= r <= self.spec_bottom_right().0 implies !(
        #[trigger] self.spec_cell(r, l)).spec_is_filled() by {
            if g3.spec_in_box(r, l) {
                assert(g3.spec_cell(r, l) == self.spec_cell(r, l));
                assert(!g3.spec_cell(r, l).spec_is_filled());
            }
        }
    }

    /// Shrink the box while a second row or column from an edge is empty,
    /// so that exactly one buffer row and column remains on each side.
    fn remove_excess_empty(&mut self)
        requires
            old(self).wf(),
            old(self).spec_has_letter(),
            !old(self).spec_row_has_letter(old(self).spec_top_left().0 as int),
            !old(self).spec_row_has_letter(old(self).spec_bottom_right().0 as int),
            !old(self).spec_col_has_letter(old(self).spec_top_left().1 as int),
            !old(self).spec_col_has_letter(old(self).spec_bottom_right().1 as int),
        ensures
            final(self).wf(),
            final(self).spec_words() == old(self).spec_words(),
            final(self).spec_fitted(),
            forall|r: int, c: int|
                final(self).spec_in_box(r, c) ==> old(self).spec_in_box(r, c) && final(self).spec_cell(r, c) == old(self).spec_cell(r, c),
            forall|r: int, c: int|
                old(self).spec_in_box(r, c) && (#[trigger] old(self).spec_cell(
                    r,
                    c,
                )).spec_is_filled() ==> final(self).spec_in_box(r, c),
            (old(self).spec_rows() >= 3 && old(self).spec_cols() >= 3 && old(self).spec_row_has_letter(old(self).spec_top_left().0 + 1) && old(self).spec_row_has_letter(old(self).spec_bottom_right().0 - 1) && old(self).spec_col_has_letter(old(self).spec_top_left().1 + 1) && old(self).spec_col_has_letter(old(self).spec_bottom_right().1 - 1)) ==> *final(self) == *old(self),
    {
        let ghost orig = *old(self);
        while self.count_filled_cells_row_guarded(self.top_left_cell_index.0 + 1) == 0
            invariant
                self.wf(),
                self.spec_words() == orig.spec_words(),
                self.spec_has_letter(),
                !self.spec_row_has_letter(self.spec_top_left().0 as int),
                !self.spec_row_has_letter(self.spec_bottom_right().0 as int),
                !self.spec_col_has_letter(self.spec_top_left().1 as int),
                !self.spec_col_has_letter(self.spec_bottom_right().1 as int),
                self.spec_top_left().0 >= orig.spec_top_left().0,
                self.spec_top_left().1 == orig.spec_top_left().1,
                self.spec_bottom_right() == orig.spec_bottom_right(),
                forall|r: int, c: int|
                    self.spec_in_box(r, c) ==> orig.spec_in_box(r, c) && self.spec_cell(r, c)
                        == orig.spec_cell(r, c),
                forall|r: int, c: int|
                    orig.spec_in_box(r, c) && (#[trigger] orig.spec_cell(r, c)).spec_is_filled()
                        ==> self.spec_in_box(r, c),
(orig.spec_rows() >= 3 && orig.spec_cols() >= 3 && orig.spec_row_has_letter(
                    orig.spec_top_left().0 + 1,
                ) && orig.spec_row_has_letter(orig.spec_bottom_right().0 - 1)
                    && orig.spec_col_has_letter(orig.spec_top_left().1 + 1)
                    && orig.spec_col_has_letter(orig.spec_bottom_right().1 - 1)) ==> *self
                    == orig,
            decreases self.spec_rows(),
        {
            proof {
                self.lemma_letters_inside(orig);
            }
            let ghost pre = *self;
            self.remove_row(self.top_left_cell_index.0);
            proof {
                self.lemma_shrink_step(pre, orig);
            }
        }
        while self.count_filled_cells_row_guarded(self.bottom_right_cell_index.0 - 1) == 0
            invariant
                self.wf(),
                self.spec_words() == orig.spec_words(),
                self.spec_has_letter(),
                !self.spec_row_has_letter(self.spec_top_left().0 as int),
                !self.spec_row_has_letter(self.spec_bottom_right().0 as int),
                !self.spec_col_has_letter(self.spec_top_left().1 as int),
                !self.spec_col_has_letter(self.spec_bottom_right().1 as int),
                self.spec_row_has_letter(self.spec_top_left().0 + 1),
                self.spec_top_left().0 >= orig.spec_top_left().0,
                self.spec_top_left().1 == orig.spec_top_left().1,
                self.spec_bottom_right().0 <= orig.spec_bottom_right().0,
                self.spec_bottom_right().1 == orig.spec_bottom_right().1,
                forall|r: int, c: int|
                    self.spec_in_box(r, c) ==> orig.spec_in_box(r, c) && self.spec_cell(r, c)
                        == orig.spec_cell(r, c),
                forall|r: int, c: int|
                    orig.spec_in_box(r, c) && (#[trigger] orig.spec_cell(r, c)).spec_is_filled()
                        ==> self.spec_in_box(r, c),
(orig.spec_rows() >= 3 && orig.spec_cols() >= 3 && orig.spec_row_has_letter(
                    orig.spec_top_left().0 + 1,
                ) && orig.spec_row_has_letter(orig.spec_bottom_right().0 - 1)
                    && orig.spec_col_has_letter(orig.spec_top_left().1 + 1)
                    && orig.spec_col_has_letter(orig.spec_bottom_right().1 - 1)) ==> *self
                    == orig,
            decreases self.spec_rows(),
        {
            proof {
                self.lemma_letters_inside(orig);
            }
            let ghost pre = *self;
            self.remove_row(self.bottom_right_cell_index.0);
            proof {
                self.lemma_shrink_step(pre, orig);
            }
        }
        while self.count_filled_cells_col_guarded(self.top_left_cell_index.1 + 1) == 0
            invariant
                self.wf(),
                self.spec_words() == orig.spec_words(),
                self.spec_has_letter(),
                !self.spec_row_has_letter(self.spec_top_left().0 as int),
                !self.spec_row_has_letter(self.spec_bottom_right().0 as int),
                !self.spec_col_has_letter(self.spec_top_left().1 as int),
                !self.spec_col_has_letter(self.spec_bottom_right().1 as int),
                self.spec_row_has_letter(self.spec_top_left().0 + 1),
                self.spec_row_has_letter(self.spec_bottom_right().0 - 1),
                self.spec_top_left().0 >= orig.spec_top_left().0,
                self.spec_top_left().1 >= orig.spec_top_left().1,
                self.spec_bottom_right().0 <= orig.spec_bottom_right().0,
                self.spec_bottom_right().1 == orig.spec_bottom_right().1,
                forall|r: int, c: int|
                    self.spec_in_box(r, c) ==> orig.spec_in_box(r, c) && self.spec_cell(r, c)
                        == orig.spec_cell(r, c),
                forall|r: int, c: int|
                    orig.spec_in_box(r, c) && (#[trigger] orig.spec_cell(r, c)).spec_is_filled()
                        ==> self.spec_in_box(r, c),
(orig.spec_rows() >= 3 && orig.spec_cols() >= 3 && orig.spec_row_has_letter(
                    orig.spec_top_left().0 + 1,
                ) && orig.spec_row_has_letter(orig.spec_bottom_right().0 - 1)
                    && orig.spec_col_has_letter(orig.spec_top_left().1 + 1)
                    && orig.spec_col_has_letter(orig.spec_bottom_right().1 - 1)) ==> *self
                    == orig,
            decreases self.spec_cols(),
        {
            proof {
                self.lemma_letters_inside(orig);
            }
            let ghost pre = *self;
            self.remove_col(self.top_left_cell_index.1);
            proof {
                self.lemma_shrink_step(pre, orig);
            }
        }
        while self.count_filled_cells_col_guarded(self.bottom_right_cell_index.1 - 1) == 0
            invariant
                self.wf(),
                self.spec_words() == orig.spec_words(),
                self.spec_has_letter(),
                !self.spec_row_has_letter(self.spec_top_left().0 as int),
                !self.spec_row_has_letter(self.spec_bottom_right().0 as int),
                !self.spec_col_has_letter(self.spec_top_left().1 as int),
                !self.spec_col_has_letter(self.spec_bottom_right().1 as int),
                self.spec_row_has_letter(self.spec_top_left().0 + 1),
                self.spec_row_has_letter(self.spec_bottom_right().0 - 1),
                self.spec_col_has_letter(self.spec_top_left().1 + 1),
                self.spec_top_left().0 >= orig.spec_top_left().0,
                self.spec_top_left().1 >= orig.spec_top_left().1,
                self.spec_bottom_right().0 <= orig.spec_bottom_right().0,
                self.spec_bottom_right().1 <= orig.spec_bottom_right().1,
                forall|r: int, c: int|
                    self.spec_in_box(r, c) ==> orig.spec_in_box(r, c) && self.spec_cell(r, c)
                        == orig.spec_cell(r, c),
                forall|r: int, c: int|
                    orig.spec_in_box(r, c) && (#[trigger] orig.spec_cell(r, c)).spec_is_filled()
                        ==> self.spec_in_box(r, c),
(orig.spec_rows() >= 3 && orig.spec_cols() >= 3 && orig.spec_row_has_letter(
                    orig.spec_top_left().0 + 1,
                ) && orig.spec_row_has_letter(orig.spec_bottom_right().0 - 1)
                    && orig.spec_col_has_letter(orig.spec_top_left().1 + 1)
                    && orig.spec_col_has_letter(orig.spec_bottom_right().1 - 1)) ==> *self
                    == orig,
            decreases self.spec_cols(),
        {
            proof {
                self.lemma_letters_inside(orig);
            }
            let ghost pre = *self;
            self.remove_col(self.bottom_right_cell_index.1);
            proof {
                self.lemma_shrink_step(pre, orig);
            }
        }
        proof {
            self.lemma_letters_inside(orig);
        }
    }

    /// `count_filled_cells_row` on a row that must exist because the grid
    /// still holds a letter strictly inside its edges.
    fn count_filled_cells_row_guarded(&self, row: isize) -> (r: usize)
        requires
            self.wf(),
            self.spec_has_letter(),
            !self.spec_row_has_letter(self.spec_top_left().0 as int),
            row as int == self.spec_top_left().0 + 1 || (row as int == self.spec_bottom_right().0
                - 1 && !self.spec_row_has_letter(self.spec_bottom_right().0 as int)),
        ensures
            (r == 0) == !self.spec_row_has_letter(row as int),
    {
        proof {
            let lr = choose|lr: int|
                self.spec_top_left().0 <= lr <= self.spec_bottom_right().0
                    && #[trigger] self.spec_row_has_letter(lr);
            assert(lr > self.spec_top_left().0);
            if row as int != self.spec_top_left().0 + 1 {
                assert(lr < self.spec_bottom_right().0);
            }
        }
        self.count_filled_cells_row(row)
    }

    /// `count_filled_cells_col` under the same guard, for columns.
    fn count_filled_cells_col_guarded(&self, col: isize) -> (r: usize)
        requires
            self.wf(),
            self.spec_has_letter(),
            !self.spec_col_has_letter(self.spec_top_left().1 as int),
            col as int == self.spec_top_left().1 + 1 || (col as int == self.spec_bottom_right().1
                - 1 && !self.spec_col_has_letter(self.spec_bottom_right().1 as int)),
        ensures
            (r == 0) == !self.spec_col_has_letter(col as int),
    {
        proof {
            let lr = choose|lr: int|
                self.spec_top_left().0 <= lr <= self.spec_bottom_right().0
                    && #[trigger] self.spec_row_has_letter(lr);
            let lc = choose|lc: int|
                self.spec_top_left().1 <= lc <= self.spec_bottom_right().1 && (
                #[trigger] self.spec_cell(lr, lc)).spec_is_filled();
            assert(self.spec_col_has_letter(lc));
            assert(lc > self.spec_top_left().1);
            if col as int != self.spec_top_left().1 + 1 {
                assert(lc < self.spec_bottom_right().1);
            }
        }
        self.count_filled_cells_col(col)
    }

    /// A grid with a letter but none on its edges has that letter strictly
    /// inside, so it is at least three rows and columns wide.
    proof fn lemma_letters_inside(self, orig: CrosswordGrid)
        requires
            self.wf(),
            self.spec_has_letter(),
            !self.spec_row_has_letter(self.spec_top_left().0 as int),
            !self.spec_row_has_letter(self.spec_bottom_right().0 as int),
            !self.spec_col_has_letter(self.spec_top_left().1 as int),
            !self.spec_col_has_letter(self.spec_bottom_right().1 as int),
        ensures
            self.spec_rows() >= 3,
            self.spec_cols() >= 3,
    {
        let lr = choose|lr: int|
            self.spec_top_left().0 <= lr <= self.spec_bottom_right().0
                && #[trigger] self.spec_row_has_letter(lr);
        let lc = choose|lc: int|
            self.spec_top_left().1 <= lc <= self.spec_bottom_right().1 && (
            #[trigger] self.spec_cell(lr, lc)).spec_is_filled();
        assert(self.spec_col_has_letter(lc));
        assert(lr > self.spec_top_left().0 && lr < self.spec_bottom_right().0);
        assert(lc > self.spec_top_left().1 && lc < self.spec_bottom_right().1);
    }

    /// One shrinking step keeps the invariant facts relative to `orig`:
    /// letters stay inside, and each surviving row or column holds a letter
    /// exactly when it did before the step.
    proof fn lemma_shrink_step(self, pre: CrosswordGrid, orig: CrosswordGrid)
        requires
            self.wf(),
            pre.wf(),
            pre.spec_has_letter(),
            forall|r: int, c: int|
                self.spec_in_box(r, c) ==> pre.spec_in_box(r, c) && self.spec_cell(r, c)
                    == pre.spec_cell(r, c),
            forall|r: int, c: int|
                pre.spec_in_box(r, c) ==> orig.spec_in_box(r, c) && pre.spec_cell(r, c)
                    == orig.spec_cell(r, c),
            forall|r: int, c: int|
                orig.spec_in_box(r, c) && (#[trigger] orig.spec_cell(r, c)).spec_is_filled()
                    ==> pre.spec_in_box(r, c),
            forall|r: int, c: int|
                pre.spec_in_box(r, c) && !self.spec_in_box(r, c) ==> !(#[trigger] pre.spec_cell(
                    r,
                    c,
                )).spec_is_filled(),
            self.spec_top_left().0 >= pre.spec_top_left().0,
            self.spec_top_left().1 >= pre.spec_top_left().1,
            self.spec_bottom_right().0 <= pre.spec_bottom_right().0,
            self.spec_bottom_right().1 <= pre.spec_bottom_right().1,
        ensures
            forall|r: int, c: int|
                orig.spec_in_box(r, c) && (#[trigger] orig.spec_cell(r, c)).spec_is_filled()
                    ==> self.spec_in_box(r, c),
            self.spec_has_letter(),
            forall|r: int|
                self.spec_top_left().0 <= r <= self.spec_bottom_right().0 ==> (
                #[trigger] self.spec_row_has_letter(r)) == pre.spec_row_has_letter(r),
            forall|c: int|
                self.spec_top_left().1 <= c <= self.spec_bottom_right().1 ==> (
                #[trigger] self.spec_col_has_letter(c)) == pre.spec_col_has_letter(c),
    {
        assert forall|r: int, c: int|
            orig.spec_in_box(r, c) && (#[trigger] orig.spec_cell(r, c)).spec_is_filled()
            implies self.spec_in_box(r, c) by {
            assert(pre.spec_in_box(r, c));
            assert(pre.spec_cell(r, c).spec_is_filled());
            if !self.spec_in_box(r, c) {
                assert(!pre.spec_cell(r, c).spec_is_filled());
            }
        }
        assert forall|r: int|
            self.spec_top_left().0 <= r <= self.spec_bottom_right().0 implies (
        #[trigger] self.spec_row_has_letter(r)) == pre.spec_row_has_letter(r) by {
            if self.spec_row_has_letter(r) {
                let c = choose|c: int|
                    self.spec_top_left().1 <= c <= self.spec_bottom_right().1 && (
                    #[trigger] self.spec_cell(r, c)).spec_is_filled();
                assert(pre.spec_cell(r, c).spec_is_filled());
                assert(pre.spec_row_has_letter(r));
            }
            if pre.spec_row_has_letter(r) {
                let c = choose|c: int|
                    pre.spec_top_left().1 <= c <= pre.spec_bottom_right().1 && (
                    #[trigger] pre.spec_cell(r, c)).spec_is_filled();
                assert(self.spec_in_box(r, c)) by {
                    if !self.spec_in_box(r, c) {
                        assert(!pre.spec_cell(r, c).spec_is_filled());
                    }
                }
                assert(self.spec_cell(r, c).spec_is_filled());
                assert(self.spec_row_has_letter(r));
            }
        }
        assert forall|c: int|
            self.spec_top_left().1 <= c <= self.spec_bottom_right().1 implies (
        #[trigger] self.spec_col_has_letter(c)) == pre.spec_col_has_letter(c) by {
            if self.spec_col_has_letter(c) {
                let r = choose|r: int|
                    self.spec_top_left().0 <= r <= self.spec_bottom_right().0 && (
                    #[trigger] self.spec_cell(r, c)).spec_is_filled();
                assert(pre.spec_cell(r, c).spec_is_filled());
                assert(pre.spec_col_has_letter(c));
            }
            if pre.spec_col_has_letter(c) {
                let r = choose|r: int|
                    pre.spec_top_left().0 <= r <= pre.spec_bottom_right().0 && (
                    #[trigger] pre.spec_cell(r, c)).spec_is_filled();
                assert(self.spec_in_box(r, c)) by {
                    if !self.spec_in_box(r, c) {
                        assert(!pre.spec_cell(r, c).spec_is_filled());
                    }
                }
                assert(self.spec_cell(r, c).spec_is_filled());
                assert(self.spec_col_has_letter(c));
            }
        }
        let lr = choose|lr: int|
            pre.spec_top_left().0 <= lr <= pre.spec_bottom_right().0
                && #[trigger] pre.spec_row_has_letter(lr);
        let lc = choose|lc: int|
            pre.spec_top_left().1 <= lc <= pre.spec_bottom_right().1 && (#[trigger] pre.spec_cell(
                lr,
                lc,
            )).spec_is_filled();
        assert(self.spec_in_box(lr, lc)) by {
            if !self.spec_in_box(lr, lc) {
                assert(!pre.spec_cell(lr, lc).spec_is_filled());
            }
        }
        assert(self.spec_cell(lr, lc).spec_is_filled());
        assert(self.spec_row_has_letter(lr));
        assert(self.spec_has_letter());
    }

    /// Trim the grid so that there is exactly one row and column of empty
    /// cells on either side of the letters. Idempotent: a grid already in
    /// that shape comes back unchanged.
    pub fn fit_to_size(&mut self)
        requires
            old(self).wf(),
            old(self).spec_has_letter(),
            old(self).spec_top_left().0 > -COORD_LIMIT,
            old(self).spec_top_left().1 > -COORD_LIMIT,
            old(self).spec_bottom_right().0 < COORD_LIMIT,
            old(self).spec_bottom_right().1 < COORD_LIMIT,
        ensures
            final(self).wf(),
            final(self).spec_words() == old(self).spec_words(),
            final(self).spec_fitted(),
            final(self).spec_has_letter(),
            final(self).spec_top_left().0 >= old(self).spec_top_left().0 - 1,
            final(self).spec_top_left().1 >= old(self).spec_top_left().1 - 1,
            final(self).spec_bottom_right().0 <= old(self).spec_bottom_right().0 + 1,
            final(self).spec_bottom_right().1 <= old(self).spec_bottom_right().1 + 1,
            forall|r: int, c: int|
                old(self).spec_in_box(r, c) && (#[trigger] old(self).spec_cell(
                    r,
                    c,
                )).spec_is_filled() ==> final(self).spec_in_box(r, c) && final(self).spec_cell(
                    r,
                    c,
                ) == old(self).spec_cell(r, c),
            forall|r: int, c: int|
                final(self).spec_in_box(r, c) ==> final(self).spec_cell(r, c) == (if old(self).spec_in_box(r, c) {
                    old(self).spec_cell(r, c)
                } else {
                    final(self).spec_cell(r, c)
                }) && (old(self).spec_in_box(r, c) || (#[trigger] final(self).spec_cell(
                    r,
                    c,
                )).spec_is_empty()),
            old(self).spec_fitted() ==> *final(self) == *old(self),
            !old(self).spec_row_has_letter(old(self).spec_top_left().0 as int) ==> final(self).spec_top_left().0 >= old(self).spec_top_left().0,
            !old(self).spec_row_has_letter(old(self).spec_bottom_right().0 as int) ==> final(self).spec_bottom_right().0 <= old(self).spec_bottom_right().0,
            !old(self).spec_col_has_letter(old(self).spec_top_left().1 as int) ==> final(self).spec_top_left().1 >= old(self).spec_top_left().1,
            !old(self).spec_col_has_letter(old(self).spec_bottom_right().1 as int) ==> final(self).spec_bottom_right().1 <= old(self).spec_bottom_right().1,
    {
        let ghost orig = *old(self);
        self.ensure_buffer_exists();
        proof {
            if orig.spec_fitted() {
                assert(*self == orig);
            }
            assert(self.spec_has_letter()) by {
                let lr = choose|lr: int|
                    orig.spec_top_left().0 <= lr <= orig.spec_bottom_right().0
                        && #[trigger] orig.spec_row_has_letter(lr);
                let lc = choose|lc: int|
                    orig.spec_top_left().1 <= lc <= orig.spec_bottom_right().1 && (
                    #[trigger] orig.spec_cell(lr, lc)).spec_is_filled();
                assert(self.spec_cell(lr, lc) == orig.spec_cell(lr, lc));
                assert(self.spec_row_has_letter(lr));
            }
        }
        let ghost buffered = *self;
        self.remove_excess_empty();
        proof {
            if orig.spec_fitted() {
                assert(*self == orig);
            }
            assert forall|r: int, c: int|
                orig.spec_in_box(r, c) && (#[trigger] orig.spec_cell(r, c)).spec_is_filled()
                implies self.spec_in_box(r, c) && self.spec_cell(r, c) == orig.spec_cell(
                r,
                c,
            ) by {
                assert(buffered.spec_in_box(r, c));
                assert(buffered.spec_cell(r, c) == orig.spec_cell(r, c));
            }
            assert(self.spec_has_letter()) by {
                assert(self.spec_row_has_letter(self.spec_top_left().0 + 1));
            }
        }
    }
}

} // verus!
