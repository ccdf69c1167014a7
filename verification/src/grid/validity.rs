use vstd::prelude::*;

use super::Cell;
use super::CrosswordError;
use super::CrosswordGrid;
use super::Direction;
use super::Location;
use super::spec_step;

verus! {

impl CrosswordGrid {
    /// Some placed word's boundary (one step before its start or one step
    /// after its end, along its own direction) falls on (r, c).
    pub open spec fn spec_expected_black(self, r: int, c: int) -> bool {
        exists|k: int|
            0 <= k < self.spec_words().len() && {
                let e = #[trigger] self.spec_words()[k];
                e.word.placement is Some && {
                    let p = e.word.placement.unwrap();
                    Location((r as isize), (c as isize)) == spec_step(
                        p.start_location,
                        -1,
                        p.direction,
                    ) || Location((r as isize), (c as isize)) == spec_step(
                        p.start_location,
                        e.word.word_text@.len() as int,
                        p.direction,
                    )
                }
            }
    }

    /// Every placed word's two boundary locations lie inside the box.
    pub open spec fn spec_boundaries_in_box(self) -> bool {
        forall|k: int|
            0 <= k < self.spec_words().len() ==> {
                let e = #[trigger] self.spec_words()[k];
                e.word.placement is Some ==> {
                    let p = e.word.placement.unwrap();
                    let before = spec_step(p.start_location, -1, p.direction);
                    let after = spec_step(
                        p.start_location,
                        e.word.word_text@.len() as int,
                        p.direction,
                    );
                    self.spec_in_box(before.0 as int, before.1 as int) && self.spec_in_box(
                        after.0 as int,
                        after.1 as int,
                    )
                }
            }
    }

    /// What a cell becomes when the black marks are recomputed.
    pub open spec fn spec_blackened(cell: Cell, black: bool) -> Cell {
        if black {
            Cell { fill_status: super::cell::FillStatus::Black }
        } else if cell.spec_is_black() {
            Cell { fill_status: super::cell::FillStatus::Empty }
        } else {
            cell
        }
    }

    /// Does every black cell sit on a placed word's boundary, and is every
    /// in-box boundary location black?
    pub fn black_cells_valid(&self) -> (r: bool)
        requires
            self.wf(),
        ensures
            r == forall|rr: int, cc: int|
                self.spec_in_box(rr, cc) ==> (#[trigger] self.spec_cell(rr, cc)).spec_is_black()
                    == self.spec_expected_black(rr, cc),
    {
        let mut ok = true;
        let mut row = self.top_left_cell_index.0;
        while row <= self.bottom_right_cell_index.0
            invariant
                self.wf(),
                self.spec_top_left().0 <= row as int <= self.spec_bottom_right().0 + 1,
                ok == forall|rr: int, cc: int|
                    self.spec_in_box(rr, cc) && rr < row as int ==> (#[trigger] self.spec_cell(
                        rr,
                        cc,
                    )).spec_is_black() == self.spec_expected_black(rr, cc),
            decreases self.spec_bottom_right().0 + 1 - row,
        {
            let mut col = self.top_left_cell_index.1;
            while col <= self.bottom_right_cell_index.1
                invariant
                    self.wf(),
                    self.spec_top_left().0 <= row as int <= self.spec_bottom_right().0,
                    self.spec_top_left().1 <= col as int <= self.spec_bottom_right().1 + 1,
                    ok == forall|rr: int, cc: int|
                        self.spec_in_box(rr, cc) && (rr < row as int || (rr == row as int && cc
                            < col as int)) ==> (#[trigger] self.spec_cell(
                            rr,
                            cc,
                        )).spec_is_black() == self.spec_expected_black(rr, cc),
                decreases self.spec_bottom_right().1 + 1 - col,
            {
                let cell = self.cell_at(row, col);
                let expected = self.location_expected_black(row, col);
                let ghost pre_ok = ok;
                if cell.is_black() != expected {
                    ok = false;
                }
                col += 1;
                proof {
                    assert forall|rr: int, cc: int|
                        self.spec_in_box(rr, cc) && (rr < row as int || (rr == row as int && cc
                            < col as int)) && ok implies (#[trigger] self.spec_cell(
                        rr,
                        cc,
                    )).spec_is_black() == self.spec_expected_black(rr, cc) by {
                        if !(rr == row as int && cc == col - 1) {
                            assert(pre_ok);
                        }
                    }
                    if !ok {
                        if pre_ok {
                            assert(self.spec_in_box(row as int, col - 1));
                            assert(self.spec_cell(row as int, col - 1).spec_is_black()
                                != self.spec_expected_black(row as int, col - 1));
                        }
                    }
                }
            }
            row += 1;
        }
        ok
    }

    /// Is (row, col) a boundary location of some placed word?
    fn location_expected_black(&self, row: isize, col: isize) -> (r: bool)
        requires
            self.wf(),
        ensures
            r == self.spec_expected_black(row as int, col as int),
    {
        let mut k: usize = 0;
        while k < self.word_map.len()
            invariant
                self.wf(),
                k <= self.spec_words().len(),
                forall|q: int|
                    0 <= q < k ==> {
                        let e = #[trigger] self.spec_words()[q];
                        e.word.placement is Some ==> {
                            let p = e.word.placement.unwrap();
                            Location(row, col) != spec_step(p.start_location, -1, p.direction)
                                && Location(row, col) != spec_step(
                                p.start_location,
                                e.word.word_text@.len() as int,
                                p.direction,
                            )
                        }
                    },
            decreases self.spec_words().len() - k,
        {
            let entry = &self.word_map[k];
            if let Some((start, end, direction)) = entry.word.get_location() {
                proof {
                    assert(self.spec_words()[k as int].word.wf());
                }
                let before = start.relative_location_directed(-1, direction);
                let after = end.relative_location_directed(1, direction);
                proof {
                    let e = self.spec_words()[k as int];
                    let p = e.word.placement.unwrap();
                    assert(after == spec_step(
                        p.start_location,
                        e.word.word_text@.len() as int,
                        p.direction,
                    ));
                }
                if before.0 == row && before.1 == col {
                    return true;
                }
                if after.0 == row && after.1 == col {
                    return true;
                }
            }
            k += 1;
        }
        proof {
            if self.spec_expected_black(row as int, col as int) {
                let q = choose|q: int|
                    0 <= q < self.spec_words().len() && {
                        let e = #[trigger] self.spec_words()[q];
                        e.word.placement is Some && {
                            let p = e.word.placement.unwrap();
                            Location(row, col) == spec_step(p.start_location, -1, p.direction)
                                || Location(row, col) == spec_step(
                                p.start_location,
                                e.word.word_text@.len() as int,
                                p.direction,
                            )
                        }
                    };
            }
        }
        false
    }

    /// Clear all black marks, then mark each placed word's two boundary
    /// cells black. Afterwards a cell is black exactly when some placed
    /// word's boundary falls on it.
    pub fn fill_black_cells(&mut self)
        requires
            old(self).wf(),
            old(self).spec_boundaries_in_box(),
        ensures
            final(self).wf(),
            final(self).spec_words() == old(self).spec_words(),
            final(self).spec_top_left() == old(self).spec_top_left(),
            final(self).spec_bottom_right() == old(self).spec_bottom_right(),
            forall|r: int, c: int|
                old(self).spec_in_box(r, c) ==> final(self).spec_cell(r, c)
                    == CrosswordGrid::spec_blackened(
                    old(self).spec_cell(r, c),
                    old(self).spec_expected_black(r, c),
                ),
            forall|r: int, c: int|
                final(self).spec_in_box(r, c) ==> (#[trigger] final(self).spec_cell(
                    r,
                    c,
                )).spec_is_black() == final(self).spec_expected_black(r, c),
    {
        let mut row = self.top_left_cell_index.0;
        while row <= self.bottom_right_cell_index.0
            invariant
                self.wf(),
                old(self).wf(),
                self.spec_words() == old(self).spec_words(),
                self.spec_top_left() == old(self).spec_top_left(),
                self.spec_bottom_right() == old(self).spec_bottom_right(),
                self.spec_top_left().0 <= row as int <= self.spec_bottom_right().0 + 1,
                forall|r: int, c: int|
                    old(self).spec_in_box(r, c) && r < row as int ==> self.spec_cell(r, c)
                        == CrosswordGrid::spec_blackened(
                        old(self).spec_cell(r, c),
                        old(self).spec_expected_black(r, c),
                    ),
                forall|r: int, c: int|
                    old(self).spec_in_box(r, c) && r >= row as int ==> self.spec_cell(r, c) == (
                    #[trigger] old(self).spec_cell(r, c)),
            decreases self.spec_bottom_right().0 + 1 - row,
        {
            let mut col = self.top_left_cell_index.1;
            while col <= self.bottom_right_cell_index.1
                invariant
                    self.wf(),
                    old(self).wf(),
                    self.spec_words() == old(self).spec_words(),
                    self.spec_top_left() == old(self).spec_top_left(),
                    self.spec_bottom_right() == old(self).spec_bottom_right(),
                    self.spec_top_left().0 <= row as int <= self.spec_bottom_right().0,
                    self.spec_top_left().1 <= col as int <= self.spec_bottom_right().1 + 1,
                    forall|r: int, c: int|
                        old(self).spec_in_box(r, c) && (r < row as int || (r == row as int && c
                            < col as int)) ==> self.spec_cell(r, c)
                            == CrosswordGrid::spec_blackened(
                            old(self).spec_cell(r, c),
                            old(self).spec_expected_black(r, c),
                        ),
                    forall|r: int, c: int|
                        old(self).spec_in_box(r, c) && (r > row as int || (r == row as int && c
                            >= col as int)) ==> self.spec_cell(r, c) == (#[trigger] old(
                            self,
                        ).spec_cell(r, c)),
                decreases self.spec_bottom_right().1 + 1 - col,
            {
                let mut cell = self.cell_at(row, col);
                proof {
                    assert(cell == old(self).spec_cell(row as int, col as int));
                }
                if self.location_expected_black_in(row, col) {
                    cell.set_black();
                    proof {
                        assert(cell == CrosswordGrid::spec_blackened(
                            old(self).spec_cell(row as int, col as int),
                            true,
                        ));
                    }
                } else if cell.is_black() {
                    cell.set_empty();
                }
                self.set_cell(&Location(row, col), cell);
                col += 1;
            }
            row += 1;
        }
        proof {
            assert forall|r: int, c: int|
                self.spec_in_box(r, c) implies (#[trigger] self.spec_cell(r, c)).spec_is_black()
                == self.spec_expected_black(r, c) by {
                assert(self.spec_cell(r, c) == CrosswordGrid::spec_blackened(
                    old(self).spec_cell(r, c),
                    old(self).spec_expected_black(r, c),
                ));
                assert(self.spec_expected_black(r, c) == old(self).spec_expected_black(r, c))
                    by {
                    if self.spec_expected_black(r, c) {
                        let q = choose|q: int|
                            0 <= q < self.spec_words().len() && {
                                let e = #[trigger] self.spec_words()[q];
                                e.word.placement is Some && {
                                    let p = e.word.placement.unwrap();
                                    Location((r as isize), (c as isize)) == spec_step(
                                        p.start_location,
                                        -1,
                                        p.direction,
                                    ) || Location((r as isize), (c as isize)) == spec_step(
                                        p.start_location,
                                        e.word.word_text@.len() as int,
                                        p.direction,
                                    )
                                }
                            };
                        assert(old(self).spec_words()[q] == self.spec_words()[q]);
                    }
                    if old(self).spec_expected_black(r, c) {
                        let q = choose|q: int|
                            0 <= q < old(self).spec_words().len() && {
                                let e = #[trigger] old(self).spec_words()[q];
                                e.word.placement is Some && {
                                    let p = e.word.placement.unwrap();
                                    Location((r as isize), (c as isize)) == spec_step(
                                        p.start_location,
                                        -1,
                                        p.direction,
                                    ) || Location((r as isize), (c as isize)) == spec_step(
                                        p.start_location,
                                        e.word.word_text@.len() as int,
                                        p.direction,
                                    )
                                }
                            };
                        assert(self.spec_words()[q] == old(self).spec_words()[q]);
                    }
                }
            }
        }
    }

    /// As `location_expected_black`, reading only the word map (callable
    /// while the cells are being rewritten).
    fn location_expected_black_in(&self, row: isize, col: isize) -> (r: bool)
        requires
            self.wf(),
        ensures
            r == self.spec_expected_black(row as int, col as int),
    {
        self.location_expected_black(row, col)
    }

    /// Two neighbouring letter cells must share their word in the axis they
    /// adjoin: returns the precise incompatibility otherwise.
    pub fn check_adjacent_cells_compatible(
        &self,
        location: &Location,
        move_by: isize,
        direction: Direction,
    ) -> (r: Result<(), CrosswordError>)
        requires
            self.wf(),
            -COORD_LIMIT_PAD <= location.0 + move_by,
            location.0 + move_by <= COORD_LIMIT_PAD,
            -COORD_LIMIT_PAD <= location.1 + move_by,
            location.1 + move_by <= COORD_LIMIT_PAD,
        ensures
            r == self.spec_adjacent_check(*location, move_by as int, direction),
    {
        let neighbour_location = location.relative_location_directed(move_by, direction);
        let cell = match self.get_cell(location) {
            Ok(c) => *c,
            Err(e) => {
                return Ok(());
            },
        };
        let neighbour = match self.get_cell(&neighbour_location) {
            Ok(c) => *c,
            Err(e) => {
                return Ok(());
            },
        };
        if cell.contains_letter() && neighbour.contains_letter() {
            let cell_word = cell.get_word_id(direction);
            let neighbour_word = neighbour.get_word_id(direction);
            if cell_word.is_none() || neighbour_word.is_none() {
                Err(CrosswordError::AdjacentCellsNoLinkWord(*location, neighbour_location))
            } else if cell_word.unwrap() != neighbour_word.unwrap() {
                Err(
                    CrosswordError::AdjacentCellsMismatchedLinkWord(
                        *location,
                        neighbour_location,
                        cell_word.unwrap(),
                        neighbour_word.unwrap(),
                    ),
                )
            } else {
                Ok(())
            }
        } else {
            Ok(())
        }
    }

    /// The outcome `check_adjacent_cells_compatible` reports for a cell and
    /// its neighbour `move_by` steps along `direction`.
    pub open spec fn spec_adjacent_check(
        self,
        location: Location,
        move_by: int,
        direction: Direction,
    ) -> Result<(), CrosswordError> {
        let nl = spec_step(location, move_by, direction);
        if !self.spec_in_box(location.0 as int, location.1 as int) || !self.spec_in_box(
            nl.0 as int,
            nl.1 as int,
        ) {
            Ok(())
        } else {
            let cell = self.spec_cell(location.0 as int, location.1 as int);
            let nb = self.spec_cell(nl.0 as int, nl.1 as int);
            if cell.spec_is_filled() && nb.spec_is_filled() {
                if cell.spec_word_id(direction) is None || nb.spec_word_id(direction) is None {
                    Err(CrosswordError::AdjacentCellsNoLinkWord(location, nl))
                } else if cell.spec_word_id(direction) != nb.spec_word_id(direction) {
                    Err(
                        CrosswordError::AdjacentCellsMismatchedLinkWord(
                            location,
                            nl,
                            cell.spec_word_id(direction).unwrap(),
                            nb.spec_word_id(direction).unwrap(),
                        ),
                    )
                } else {
                    Ok(())
                }
            } else {
                Ok(())
            }
        }
    }
}

/// Coordinates reached by single steps from in-range locations stay well
/// inside `isize`.
pub const COORD_LIMIT_PAD: isize = 32770;

impl CrosswordGrid {
    /// In a fitted grid whose placements are consistent, every word's two
    /// boundary locations are inside the box, and when the letters are
    /// bounded so is the whole box.
    pub proof fn lemma_fitted_boundaries(self)
        requires
            self.wf(),
            self.spec_fitted(),
            self.spec_placement_ok(),
        ensures
            self.spec_boundaries_in_box(),
            self.spec_letters_bounded() ==> self.spec_box_bounded(),
    {
        assert forall|k: int|
            0 <= k < self.spec_words().len() implies {
            let e = #[trigger] self.spec_words()[k];
            e.word.placement is Some ==> {
                let p = e.word.placement.unwrap();
                let before = spec_step(p.start_location, -1, p.direction);
                let after = spec_step(
                    p.start_location,
                    e.word.word_text@.len() as int,
                    p.direction,
                );
                self.spec_in_box(before.0 as int, before.1 as int) && self.spec_in_box(
                    after.0 as int,
                    after.1 as int,
                )
            }
        } by {
            let e = self.spec_words()[k];
            if e.word.placement is Some {
                let p = e.word.placement.unwrap();
                let len = e.word.word_text@.len() as int;
                let first = spec_step(p.start_location, 0, p.direction);
                let last = spec_step(p.start_location, len - 1, p.direction);
                assert(self.spec_in_box(first.0 as int, first.1 as int));
                assert(self.spec_cell(first.0 as int, first.1 as int).spec_is_filled());
                assert(self.spec_in_box(last.0 as int, last.1 as int));
                assert(self.spec_cell(last.0 as int, last.1 as int).spec_is_filled());
                match p.direction {
                    Direction::Across => {
                        assert(first.1 as int != self.spec_top_left().1) by {
                            if first.1 as int == self.spec_top_left().1 {
                                assert(self.spec_col_has_letter(self.spec_top_left().1 as int));
                            }
                        }
                        assert(last.1 as int != self.spec_bottom_right().1) by {
                            if last.1 as int == self.spec_bottom_right().1 {
                                assert(self.spec_col_has_letter(
                                    self.spec_bottom_right().1 as int,
                                ));
                            }
                        }
                    },
                    Direction::Down => {
                        assert(first.0 as int != self.spec_top_left().0) by {
                            if first.0 as int == self.spec_top_left().0 {
                                assert(self.spec_row_has_letter(self.spec_top_left().0 as int));
                            }
                        }
                        assert(last.0 as int != self.spec_bottom_right().0) by {
                            if last.0 as int == self.spec_bottom_right().0 {
                                assert(self.spec_row_has_letter(
                                    self.spec_bottom_right().0 as int,
                                ));
                            }
                        }
                    },
                }
            }
        }
        if self.spec_letters_bounded() {
            assert(self.spec_row_has_letter(self.spec_top_left().0 + 1));
            let c1 = choose|c: int|
                self.spec_top_left().1 <= c <= self.spec_bottom_right().1 && (
                #[trigger] self.spec_cell(self.spec_top_left().0 + 1, c)).spec_is_filled();
            assert(self.spec_top_left().0 + 1 >= -16381);
            assert(self.spec_row_has_letter(self.spec_bottom_right().0 - 1));
            let c2 = choose|c: int|
                self.spec_top_left().1 <= c <= self.spec_bottom_right().1 && (
                #[trigger] self.spec_cell(self.spec_bottom_right().0 - 1, c)).spec_is_filled();
            assert(self.spec_bottom_right().0 - 1 <= 16381);
            assert(self.spec_col_has_letter(self.spec_top_left().1 + 1));
            let r1 = choose|r: int|
                self.spec_top_left().0 <= r <= self.spec_bottom_right().0 && (
                #[trigger] self.spec_cell(r, self.spec_top_left().1 + 1)).spec_is_filled();
            assert(self.spec_col_has_letter(self.spec_bottom_right().1 - 1));
            let r2 = choose|r: int|
                self.spec_top_left().0 <= r <= self.spec_bottom_right().0 && (
                #[trigger] self.spec_cell(r, self.spec_bottom_right().1 - 1)).spec_is_filled();
        }
    }
}

} // verus!
