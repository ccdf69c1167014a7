use vstd::prelude::*;

use super::Cell;
use super::CrosswordError;
use super::CrosswordGrid;
use super::Direction;
use super::Location;
use super::spec_step;

verus! {

/// Bound on anchor coordinates and word lengths for a placement attempt:
/// far enough inside the coordinate limit that the grown box stays legal.
pub const PLACE_LIMIT: isize = 8190;

impl CrosswordGrid {
    /// Every in-box boundary location of a placed word is marked black.
    pub open spec fn spec_blacks_marked(self) -> bool {
        forall|r: int, c: int|
            self.spec_in_box(r, c) && #[trigger] self.spec_expected_black(r, c)
                ==> self.spec_cell(r, c).spec_is_black()
    }

    /// No placed word's boundary location holds a letter.
    pub open spec fn spec_no_black_overlap(self) -> bool {
        forall|r: int, c: int|
            self.spec_in_box(r, c) && #[trigger] self.spec_expected_black(r, c)
                ==> !self.spec_cell(r, c).spec_is_filled()
    }

    /// The cell at (r, c), or an empty cell when outside the box.
    pub open spec fn spec_cell_or_empty(self, r: int, c: int) -> Cell {
        if self.spec_in_box(r, c) {
            self.spec_cell(r, c)
        } else {
            Cell { fill_status: super::cell::FillStatus::Empty }
        }
    }

    /// The outcome the placement checks give for letter `i` of the word.
    pub open spec fn spec_letter_error(
        self,
        start: Location,
        word_id: usize,
        text: Seq<char>,
        direction: Direction,
        i: int,
    ) -> Option<super::CellError> {
        let l = spec_step(start, i, direction);
        self.spec_cell_or_empty(l.0 as int, l.1 as int).spec_add_error(word_id, text[i], direction)
    }

    /// Read the cell treated as empty outside the box.
    fn cell_or_empty(&self, row: isize, col: isize) -> (r: Cell)
        requires
            self.wf(),
        ensures
            r == self.spec_cell_or_empty(row as int, col as int),
    {
        match self.get_cell(&Location(row, col)) {
            Ok(c) => *c,
            Err(_) => Cell::empty(),
        }
    }

    /// Place the word so that its letter `index_in_word` lands on
    /// `location`, growing the box as needed. Fails without any change when
    /// the word does not exist, a boundary cell is taken, or a cell refuses
    /// the letter.
    #[verifier::rlimit(100)]
    #[verifier::spinoff_prover]
    pub fn place_word_in_cell(
        &mut self,
        location: Location,
        word_id: usize,
        index_in_word: usize,
        word_direction: Direction,
    ) -> (r: Result<(), CrosswordError>)
        requires
            old(self).wf(),
            old(self).spec_placement_ok(),
            old(self).spec_boundaries_in_box(),
            old(self).spec_blacks_marked(),
            -PLACE_LIMIT <= location.0 <= PLACE_LIMIT,
            -PLACE_LIMIT <= location.1 <= PLACE_LIMIT,
            index_in_word < PLACE_LIMIT,
            old(self).spec_has_word(word_id) ==> 1 <= old(self).spec_word(word_id).spec_len()
                <= PLACE_LIMIT,
            old(self).spec_has_word(word_id) ==> old(self).spec_word(word_id).spec_allowed_in(
                word_direction,
            ),
            old(self).spec_has_word(word_id) ==> index_in_word < old(self).spec_word(
                word_id,
            ).spec_len(),
        ensures
            final(self).spec_boundaries_in_box(),
            final(self).spec_no_black_overlap(),
            old(self).spec_letters_bounded() ==> final(self).spec_letters_bounded(),
            ({
                let start = spec_step(location, -(index_in_word as int), word_direction);
                let text = old(self).spec_word(word_id).word_text@;
                let len = text.len() as int;
                let before = spec_step(start, -1, word_direction);
                let after = spec_step(start, len, word_direction);
                match r {
                    Err(CrosswordError::WordNotFound(id)) => id == word_id && !old(self).spec_has_word(word_id) && *final(self) == *old(self),
                    Err(CrosswordError::NonEmptyWordBoundary(b, _)) => {
                        &&& old(self).spec_has_word(word_id)
                        &&& *final(self) == *old(self)
                        &&& (b == before || b == after)
                        &&& (b == before ==> old(self).spec_cell_or_empty(
                            before.0 as int,
                            before.1 as int,
                        ).spec_is_filled())
                        &&& (b == after ==> old(self).spec_cell_or_empty(
                            after.0 as int,
                            after.1 as int,
                        ).spec_is_filled())
                    },
                    Err(CrosswordError::CellError(l, ce)) => {
                        &&& old(self).spec_has_word(word_id)
                        &&& *final(self) == *old(self)
                        &&& !old(self).spec_cell_or_empty(
                            before.0 as int,
                            before.1 as int,
                        ).spec_is_filled()
                        &&& !old(self).spec_cell_or_empty(
                            after.0 as int,
                            after.1 as int,
                        ).spec_is_filled()
                        &&& exists|i: int|
                            0 <= i < len && l == spec_step(start, i, word_direction) && Some(ce)
                                == #[trigger] old(self).spec_letter_error(
                                start,
                                word_id,
                                text,
                                word_direction,
                                i,
                            ) && (forall|j: int|
                                0 <= j < i ==> #[trigger] old(self).spec_letter_error(
                                    start,
                                    word_id,
                                    text,
                                    word_direction,
                                    j,
                                ) is None)
                    },
                    Err(_) => false,
                    Ok(()) => {
                        &&& old(self).spec_has_word(word_id)
                        &&& !old(self).spec_cell_or_empty(
                            before.0 as int,
                            before.1 as int,
                        ).spec_is_filled()
                        &&& !old(self).spec_cell_or_empty(
                            after.0 as int,
                            after.1 as int,
                        ).spec_is_filled()
                        &&& (forall|i: int|
                            0 <= i < len ==> #[trigger] old(self).spec_letter_error(
                                start,
                                word_id,
                                text,
                                word_direction,
                                i,
                            ) is None)
                        &&& final(self).wf()
                        &&& final(self).spec_placement_ok()
                        &&& final(self).spec_has_word(word_id)
                        &&& final(self).spec_word(word_id).spec_is_placed()
                        &&& final(self).spec_word(word_id).placement.unwrap().start_location
                            == start
                        &&& final(self).spec_word(word_id).placement.unwrap().direction
                            == word_direction
                        &&& final(self).spec_word(word_id).word_text == old(self).spec_word(
                            word_id,
                        ).word_text
                        &&& (forall|j: usize|
                            #[trigger] final(self).spec_has_word(j) == old(self).spec_has_word(
                                j,
                            ))
                        &&& (forall|j: usize|
                            j != word_id && old(self).spec_has_word(j)
                                ==> #[trigger] final(self).spec_word(j) == old(self).spec_word(
                                j,
                            ))
                        &&& final(self).spec_top_left().0 >= vstd::math::min(
                            old(self).spec_top_left().0 as int,
                            -2 * PLACE_LIMIT - 1,
                        )
                        &&& final(self).spec_top_left().1 >= vstd::math::min(
                            old(self).spec_top_left().1 as int,
                            -2 * PLACE_LIMIT - 1,
                        )
                        &&& final(self).spec_bottom_right().0 <= vstd::math::max(
                            old(self).spec_bottom_right().0 as int,
                            2 * PLACE_LIMIT + 1,
                        )
                        &&& final(self).spec_bottom_right().1 <= vstd::math::max(
                            old(self).spec_bottom_right().1 as int,
                            2 * PLACE_LIMIT + 1,
                        )
                        &&& (forall|i: int|
                            0 <= i < len ==> final(self).spec_cell_at_loc(
                                #[trigger] spec_step(start, i, word_direction),
                            ) == old(self).spec_cell_or_empty(
                                spec_step(start, i, word_direction).0 as int,
                                spec_step(start, i, word_direction).1 as int,
                            ).spec_after_add(word_id, text[i], word_direction))
                        &&& (forall|rr: int, cc: int|
                            old(self).spec_in_box(rr, cc) && (forall|i: int|
                                0 <= i < len ==> #[trigger] spec_step(start, i, word_direction)
                                    != Location((rr as isize), (cc as isize)))
                                ==> #[trigger] final(self).spec_cell(rr, cc) == old(self).spec_cell(rr, cc))
                    },
                }
            }),
    {
        let word = match self.get_word(word_id) {
            Ok(w) => w.clone_data(),
            Err(e) => {
                return Err(CrosswordError::WordNotFound(word_id));
            },
        };
        let ghost text = self.spec_word(word_id).word_text@;
        let len = word.len();
        let cells_before_root = -(index_in_word as isize);
        let start_location = location.relative_location_directed(cells_before_root, word_direction);
        let before_start = start_location.relative_location_directed(-1, word_direction);
        let after_end = start_location.relative_location_directed(len as isize, word_direction);
        // check the two boundary cells
        if self.cell_or_empty(before_start.0, before_start.1).contains_letter() {
            return Err(CrosswordError::NonEmptyWordBoundary(before_start, start_location));
        }
        if self.cell_or_empty(after_end.0, after_end.1).contains_letter() {
            let end_location = start_location.relative_location_directed(
                (len as isize) - 1,
                word_direction,
            );
            return Err(CrosswordError::NonEmptyWordBoundary(after_end, end_location));
        }
        // check every letter against the current cells
        let mut i: usize = 0;
        while i < len
            invariant
                self.wf(),
                self == old(self),
                self.spec_boundaries_in_box(),
                self.spec_blacks_marked(),
                self.spec_has_word(word_id),
                word.word_text@ == text,
                text == self.spec_word(word_id).word_text@,
                len == text.len(),
                1 <= len <= PLACE_LIMIT,
                index_in_word < PLACE_LIMIT,
                -PLACE_LIMIT <= location.0 <= PLACE_LIMIT,
                -PLACE_LIMIT <= location.1 <= PLACE_LIMIT,
                -2 * PLACE_LIMIT <= start_location.0 <= 2 * PLACE_LIMIT,
                -2 * PLACE_LIMIT <= start_location.1 <= 2 * PLACE_LIMIT,
                start_location == spec_step(location, -(index_in_word as int), word_direction),
                before_start == spec_step(start_location, -1, word_direction),
                after_end == spec_step(start_location, len as int, word_direction),
                !self.spec_cell_or_empty(
                    before_start.0 as int,
                    before_start.1 as int,
                ).spec_is_filled(),
                !self.spec_cell_or_empty(
                    after_end.0 as int,
                    after_end.1 as int,
                ).spec_is_filled(),
                i <= len,
                forall|j: int|
                    0 <= j < i ==> #[trigger] self.spec_letter_error(
                        start_location,
                        word_id,
                        text,
                        word_direction,
                        j,
                    ) is None,
            decreases len - i,
        {
            let l = start_location.relative_location_directed(i as isize, word_direction);
            let mut cell = self.cell_or_empty(l.0, l.1);
            let letter = word.get_char_at_index(i);
            match cell.add_word(word_id, letter, word_direction) {
                Ok(()) => {},
                Err(ce) => {
                    proof {
                        assert(Some(ce) == self.spec_letter_error(
                            start_location,
                            word_id,
                            text,
                            word_direction,
                            i as int,
                        ));
                    }
                    return Err(CrosswordError::CellError(l, ce));
                },
            }
            i += 1;
        }
        // all checks passed: grow the box and write the letters
        self.expand_to_fit_cell(before_start);
        self.expand_to_fit_cell(after_end);
        let ghost expanded = *self;
        proof {
            self.lemma_expand_keeps_checks(*old(self), start_location, word_id, text, word_direction);
        }
        let mut i: usize = 0;
        while i < len
            invariant
                self.wf(),
                self.spec_words() == expanded.spec_words(),
                self.spec_top_left() == expanded.spec_top_left(),
                self.spec_bottom_right() == expanded.spec_bottom_right(),
                expanded.wf(),
                self.spec_has_word(word_id),
                word.word_text@ == text,
                text == self.spec_word(word_id).word_text@,
                len == text.len(),
                1 <= len <= PLACE_LIMIT,
                -2 * PLACE_LIMIT <= start_location.0 <= 2 * PLACE_LIMIT,
                -2 * PLACE_LIMIT <= start_location.1 <= 2 * PLACE_LIMIT,
                start_location == spec_step(location, -(index_in_word as int), word_direction),
                i <= len,
                forall|j: int|
                    0 <= j < len ==> #[trigger] expanded.spec_letter_error(
                        start_location,
                        word_id,
                        text,
                        word_direction,
                        j,
                    ) is None,
                forall|j: int|
                    0 <= j < len ==> expanded.spec_in_box(
                        (#[trigger] spec_step(start_location, j, word_direction)).0 as int,
                        spec_step(start_location, j, word_direction).1 as int,
                    ),
                forall|j: int|
                    0 <= j < i ==> final_cell_written(
                        *self,
                        expanded,
                        start_location,
                        word_id,
                        text,
                        word_direction,
                        j,
                    ),
                forall|rr: int, cc: int|
                    expanded.spec_in_box(rr, cc) && (forall|j: int|
                        0 <= j < i ==> #[trigger] spec_step(start_location, j, word_direction)
                            != Location((rr as isize), (cc as isize))) ==> #[trigger] self.spec_cell(
                        rr,
                        cc,
                    ) == expanded.spec_cell(rr, cc),
            decreases len - i,
        {
            let l = start_location.relative_location_directed(i as isize, word_direction);
            let mut cell = self.cell_at(l.0, l.1);
            let letter = word.get_char_at_index(i);
            let ghost pre = *self;
            proof {
                self.lemma_written_still_ok(
                    expanded,
                    start_location,
                    word_id,
                    text,
                    word_direction,
                    i as int,
                );
            }
            let res = cell.add_word(word_id, letter, word_direction);
            proof {
                assert(res is Ok);
                assert(cell == pre.spec_cell(l.0 as int, l.1 as int).spec_after_add(
                    word_id,
                    text[i as int],
                    word_direction,
                ));
            }
            self.set_cell(&Location(l.0, l.1), cell);
            i += 1;
            proof {
                assert(self.spec_cell(l.0 as int, l.1 as int) == cell);
                assert(pre.spec_cell(l.0 as int, l.1 as int) == expanded.spec_cell(
                    l.0 as int,
                    l.1 as int,
                ));
                assert(final_cell_written(
                    *self,
                    expanded,
                    start_location,
                    word_id,
                    text,
                    word_direction,
                    i - 1,
                ));
                assert forall|j: int|
                    0 <= j < i implies final_cell_written(
                    *self,
                    expanded,
                    start_location,
                    word_id,
                    text,
                    word_direction,
                    j,
                ) by {
                    let lj = spec_step(start_location, j, word_direction);
                    if j < i - 1 {
                        if lj != spec_step(start_location, i - 1, word_direction) {
                            assert(pre.spec_in_box(lj.0 as int, lj.1 as int));
                            assert(self.spec_cell(lj.0 as int, lj.1 as int) == pre.spec_cell(
                                lj.0 as int,
                                lj.1 as int,
                            ));
                            assert(final_cell_written(
                                pre,
                                expanded,
                                start_location,
                                word_id,
                                text,
                                word_direction,
                                j,
                            ));
                        } else {
                            super::lemma_step_injective(
                                start_location,
                                j,
                                i - 1,
                                word_direction,
                            );
                        }
                    }
                }
                assert forall|rr: int, cc: int|
                    expanded.spec_in_box(rr, cc) && (forall|j: int|
                        0 <= j < i ==> #[trigger] spec_step(
                            start_location,
                            j,
                            word_direction,
                        ) != Location((rr as isize), (cc as isize)))
                    implies #[trigger] self.spec_cell(rr, cc) == expanded.spec_cell(rr, cc) by {
                    assert(spec_step(start_location, i - 1, word_direction) != Location(
                        (rr as isize),
                        (cc as isize),
                    ));
                    assert(self.spec_cell(rr, cc) == pre.spec_cell(rr, cc));
                }
            }
        }
        // record the placement in the word map
        let k = self.find_word_index(word_id).unwrap();
        proof {
            self.lemma_word_index(word_id, k as int);
        }
        let ghost writ = *self;
        let ghost pre_words = self.word_map@;
        let mut e = self.word_map.remove(k);
        e.word.update_location(start_location, word_direction);
        self.word_map.insert(k, e);
        proof {
            pre_words.remove_ensures(k as int);
            assert forall|q: int|
                0 <= q < self.word_map@.len() && q != k implies self.word_map@[q] == pre_words[
            q] by {}
            assert(self.word_map@[k as int].id == word_id);
            self.lemma_word_index_u(word_id, k as int);
            self.lemma_place_post(
                *old(self),
                expanded,
                writ,
                start_location,
                word_id,
                text,
                word_direction,
                k as int,
            );
            assert forall|i: int|
                0 <= i < text.len() implies self.spec_cell_at_loc(
                #[trigger] spec_step(start_location, i, word_direction),
            ) == old(self).spec_cell_or_empty(
                spec_step(start_location, i, word_direction).0 as int,
                spec_step(start_location, i, word_direction).1 as int,
            ).spec_after_add(word_id, text[i], word_direction) by {
                let l = spec_step(start_location, i, word_direction);
                assert(final_cell_written(
                    writ,
                    expanded,
                    start_location,
                    word_id,
                    text,
                    word_direction,
                    i,
                ));
                assert(self.spec_cell(l.0 as int, l.1 as int) == writ.spec_cell(
                    l.0 as int,
                    l.1 as int,
                ));
                if old(self).spec_in_box(l.0 as int, l.1 as int) {
                    assert(expanded.spec_cell(l.0 as int, l.1 as int) == old(self).spec_cell(
                        l.0 as int,
                        l.1 as int,
                    ));
                } else {
                    assert(expanded.spec_cell(l.0 as int, l.1 as int).spec_is_empty());
                    assert(expanded.spec_cell(l.0 as int, l.1 as int) == old(self).spec_cell_or_empty(l.0 as int, l.1 as int));
                }
            }
            assert forall|rr: int, cc: int|
                old(self).spec_in_box(rr, cc) && (forall|i: int|
                    0 <= i < text.len() ==> #[trigger] spec_step(
                        start_location,
                        i,
                        word_direction,
                    ) != Location((rr as isize), (cc as isize)))
                implies #[trigger] self.spec_cell(rr, cc) == old(self).spec_cell(rr, cc) by {
                assert(expanded.spec_in_box(rr, cc));
                assert(writ.spec_cell(rr, cc) == expanded.spec_cell(rr, cc));
                assert(expanded.spec_cell(rr, cc) == old(self).spec_cell(rr, cc));
                assert(self.spec_cell(rr, cc) == writ.spec_cell(rr, cc));
            }
            assert forall|rr: int, cc: int|
                self.spec_in_box(rr, cc) && !old(self).spec_in_box(rr, cc) && (forall|i: int|
                    0 <= i < text.len() ==> #[trigger] spec_step(
                        start_location,
                        i,
                        word_direction,
                    ) != Location((rr as isize), (cc as isize)))
                implies !(#[trigger] self.spec_cell(rr, cc)).spec_is_filled() by {
                assert(expanded.spec_in_box(rr, cc));
                assert(writ.spec_cell(rr, cc) == expanded.spec_cell(rr, cc));
                assert(expanded.spec_cell(rr, cc).spec_is_empty());
                assert(self.spec_cell(rr, cc) == writ.spec_cell(rr, cc));
            }
            // every word's boundary cells are inside the grown box
            assert(self.spec_boundaries_in_box()) by {
                assert forall|k2: int|
                    0 <= k2 < self.spec_words().len() implies {
                    let e = #[trigger] self.spec_words()[k2];
                    e.word.placement is Some ==> {
                        let p = e.word.placement.unwrap();
                        let bfr = spec_step(p.start_location, -1, p.direction);
                        let aft = spec_step(
                            p.start_location,
                            e.word.word_text@.len() as int,
                            p.direction,
                        );
                        self.spec_in_box(bfr.0 as int, bfr.1 as int) && self.spec_in_box(
                            aft.0 as int,
                            aft.1 as int,
                        )
                    }
                } by {
                    let e = self.spec_words()[k2];
                    if e.word.placement is Some {
                        if k2 == k as int {
                            assert(self.spec_in_box(
                                before_start.0 as int,
                                before_start.1 as int,
                            ));
                            assert(self.spec_in_box(after_end.0 as int, after_end.1 as int));
                        } else {
                            assert(e == old(self).spec_words()[k2]);
                        }
                    }
                }
            }
            // the recomputed black marks still cover every boundary location
            assert(self.spec_no_black_overlap()) by {
                assert forall|rr: int, cc: int|
                    self.spec_in_box(rr, cc) && #[trigger] self.spec_expected_black(rr, cc)
                    implies !self.spec_cell(rr, cc).spec_is_filled() by {
                    let q = choose|q: int|
                        0 <= q < self.spec_words().len() && {
                            let e = #[trigger] self.spec_words()[q];
                            e.word.placement is Some && {
                                let p = e.word.placement.unwrap();
                                Location((rr as isize), (cc as isize)) == spec_step(
                                    p.start_location,
                                    -1,
                                    p.direction,
                                ) || Location((rr as isize), (cc as isize)) == spec_step(
                                    p.start_location,
                                    e.word.word_text@.len() as int,
                                    p.direction,
                                )
                            }
                        };
                    if q == k as int {
                        assert(Location((rr as isize), (cc as isize)) == before_start
                            || Location((rr as isize), (cc as isize)) == after_end);
                        assert forall|i: int|
                            0 <= i < text.len() implies #[trigger] spec_step(
                            start_location,
                            i,
                            word_direction,
                        ) != Location((rr as isize), (cc as isize)) by {
                            if spec_step(start_location, i, word_direction) == Location(
                                (rr as isize),
                                (cc as isize),
                            ) {
                                if Location((rr as isize), (cc as isize)) == before_start {
                                    super::lemma_step_injective(
                                        start_location,
                                        i,
                                        -1,
                                        word_direction,
                                    );
                                } else {
                                    super::lemma_step_injective(
                                        start_location,
                                        i,
                                        text.len() as int,
                                        word_direction,
                                    );
                                }
                            }
                        }
                        if old(self).spec_in_box(rr, cc) {
                            assert(self.spec_cell(rr, cc) == old(self).spec_cell(rr, cc));
                            assert(!old(self).spec_cell_or_empty(rr, cc).spec_is_filled());
                        } else {
                            assert(!self.spec_cell(rr, cc).spec_is_filled());
                        }
                    } else {
                        let e = self.spec_words()[q];
                        assert(e == old(self).spec_words()[q]);
                        assert(old(self).spec_expected_black(rr, cc));
                        assert(old(self).spec_in_box(rr, cc)) by {
                            assert(old(self).spec_boundaries_in_box());
                        }
                        assert(old(self).spec_cell(rr, cc).spec_is_black());
                        assert forall|i: int|
                            0 <= i < text.len() implies #[trigger] spec_step(
                            start_location,
                            i,
                            word_direction,
                        ) != Location((rr as isize), (cc as isize)) by {
                            if spec_step(start_location, i, word_direction) == Location(
                                (rr as isize),
                                (cc as isize),
                            ) {
                                assert(old(self).spec_letter_error(
                                    start_location,
                                    word_id,
                                    text,
                                    word_direction,
                                    i,
                                ) is None);
                                assert(old(self).spec_cell_or_empty(rr, cc).spec_add_error(
                                    word_id,
                                    text[i],
                                    word_direction,
                                ) is None);
                            }
                        }
                        assert(self.spec_cell(rr, cc) == old(self).spec_cell(rr, cc));
                    }
                }
            }
            // letters stay in the bounded band
            if old(self).spec_letters_bounded() {
                assert forall|rr: int, cc: int|
                    self.spec_in_box(rr, cc) && (#[trigger] self.spec_cell(
                        rr,
                        cc,
                    )).spec_is_filled() implies -16381 <= rr <= 16381 && -16381 <= cc
                    <= 16381 by {
                    if exists|i: int|
                        0 <= i < text.len() && #[trigger] spec_step(
                            start_location,
                            i,
                            word_direction,
                        ) == Location((rr as isize), (cc as isize)) {
                        let i = choose|i: int|
                            0 <= i < text.len() && #[trigger] spec_step(
                                start_location,
                                i,
                                word_direction,
                            ) == Location((rr as isize), (cc as isize));
                    } else {
                        if old(self).spec_in_box(rr, cc) {
                            assert(self.spec_cell(rr, cc) == old(self).spec_cell(rr, cc));
                        } else {
                            assert(!self.spec_cell(rr, cc).spec_is_filled());
                        }
                    }
                }
            }
        }
        Ok(())
    }
}

/// Letter `j` of the word has been written at its cell, relative to the
/// expanded-but-unwritten grid.
pub open spec fn final_cell_written(
    g: CrosswordGrid,
    expanded: CrosswordGrid,
    start: Location,
    word_id: usize,
    text: Seq<char>,
    direction: Direction,
    j: int,
) -> bool {
    let l = spec_step(start, j, direction);
    g.spec_cell(l.0 as int, l.1 as int) == expanded.spec_cell(
        l.0 as int,
        l.1 as int,
    ).spec_after_add(word_id, text[j], direction)
}


impl CrosswordGrid {
    /// Growing the box neither moves existing cells nor changes any letter
    /// check: new cells are empty and accept anything.
    proof fn lemma_expand_keeps_checks(
        self,
        orig: CrosswordGrid,
        start: Location,
        word_id: usize,
        text: Seq<char>,
        direction: Direction,
    )
        requires
            self.wf(),
            orig.wf(),
            1 <= text.len() <= PLACE_LIMIT,
            -3 * PLACE_LIMIT <= start.0 <= 3 * PLACE_LIMIT,
            -3 * PLACE_LIMIT <= start.1 <= 3 * PLACE_LIMIT,
            forall|j: int|
                0 <= j < text.len() ==> #[trigger] orig.spec_letter_error(
                    start,
                    word_id,
                    text,
                    direction,
                    j,
                ) is None,
            forall|r: int, c: int|
                orig.spec_in_box(r, c) ==> self.spec_in_box(r, c) && self.spec_cell(r, c)
                    == orig.spec_cell(r, c),
            forall|r: int, c: int|
                self.spec_in_box(r, c) && !orig.spec_in_box(r, c) ==> (#[trigger] self.spec_cell(
                    r,
                    c,
                )).spec_is_empty(),
            ({
                let before = spec_step(start, -1, direction);
                let after = spec_step(start, text.len() as int, direction);
                self.spec_in_box(before.0 as int, before.1 as int) && self.spec_in_box(
                    after.0 as int,
                    after.1 as int,
                )
            }),
        ensures
            forall|j: int|
                0 <= j < text.len() ==> #[trigger] self.spec_letter_error(
                    start,
                    word_id,
                    text,
                    direction,
                    j,
                ) is None,
            forall|j: int|
                0 <= j < text.len() ==> self.spec_in_box(
                    (#[trigger] spec_step(start, j, direction)).0 as int,
                    spec_step(start, j, direction).1 as int,
                ),
    {
        let before = spec_step(start, -1, direction);
        let after = spec_step(start, text.len() as int, direction);
        assert forall|j: int|
            0 <= j < text.len() implies self.spec_in_box(
            (#[trigger] spec_step(start, j, direction)).0 as int,
            spec_step(start, j, direction).1 as int,
        ) by {
            let l = spec_step(start, j, direction);
            match direction {
                Direction::Across => {
                    assert(l.0 == start.0 && before.0 == start.0 && after.0 == start.0);
                    assert(before.1 as int == start.1 - 1);
                    assert(after.1 as int == start.1 + text.len());
                    assert(l.1 as int == start.1 + j);
                },
                Direction::Down => {
                    assert(l.1 == start.1 && before.1 == start.1 && after.1 == start.1);
                    assert(before.0 as int == start.0 - 1);
                    assert(after.0 as int == start.0 + text.len());
                    assert(l.0 as int == start.0 + j);
                },
            }
        }
        assert forall|j: int|
            0 <= j < text.len() implies #[trigger] self.spec_letter_error(
            start,
            word_id,
            text,
            direction,
            j,
        ) is None by {
            let l = spec_step(start, j, direction);
            assert(orig.spec_letter_error(start, word_id, text, direction, j) is None);
            if orig.spec_in_box(l.0 as int, l.1 as int) {
                assert(self.spec_cell_or_empty(l.0 as int, l.1 as int) == orig.spec_cell_or_empty(
                    l.0 as int,
                    l.1 as int,
                ));
                assert(self.spec_cell_or_empty(l.0 as int, l.1 as int).spec_add_error(
                    word_id,
                    text[j],
                    direction,
                ) is None);
            } else if self.spec_in_box(l.0 as int, l.1 as int) {
                assert(self.spec_cell(l.0 as int, l.1 as int).spec_is_empty());
                assert(self.spec_cell_or_empty(l.0 as int, l.1 as int).spec_add_error(
                    word_id,
                    text[j],
                    direction,
                ) is None);
            } else {
                assert(self.spec_cell_or_empty(l.0 as int, l.1 as int).spec_is_empty());
                assert(self.spec_cell_or_empty(l.0 as int, l.1 as int).spec_add_error(
                    word_id,
                    text[j],
                    direction,
                ) is None);
            }
        }
    }

    /// In the write loop, the next cell is still the expanded grid's cell,
    /// so its letter check still passes.
    proof fn lemma_written_still_ok(
        self,
        expanded: CrosswordGrid,
        start: Location,
        word_id: usize,
        text: Seq<char>,
        direction: Direction,
        i: int,
    )
        requires
            self.wf(),
            expanded.wf(),
            self.spec_top_left() == expanded.spec_top_left(),
            self.spec_bottom_right() == expanded.spec_bottom_right(),
            1 <= text.len() <= PLACE_LIMIT,
            0 <= i < text.len(),
            -3 * PLACE_LIMIT <= start.0 <= 3 * PLACE_LIMIT,
            -3 * PLACE_LIMIT <= start.1 <= 3 * PLACE_LIMIT,
            forall|j: int|
                0 <= j < text.len() ==> #[trigger] expanded.spec_letter_error(
                    start,
                    word_id,
                    text,
                    direction,
                    j,
                ) is None,
            forall|j: int|
                0 <= j < text.len() ==> expanded.spec_in_box(
                    (#[trigger] spec_step(start, j, direction)).0 as int,
                    spec_step(start, j, direction).1 as int,
                ),
            forall|rr: int, cc: int|
                expanded.spec_in_box(rr, cc) && (forall|j: int|
                    0 <= j < i ==> #[trigger] spec_step(start, j, direction) != Location(
                        (rr as isize),
                        (cc as isize),
                    )) ==> #[trigger] self.spec_cell(rr, cc) == expanded.spec_cell(rr, cc),
        ensures
            ({
                let l = spec_step(start, i, direction);
                self.spec_in_box(l.0 as int, l.1 as int) && self.spec_cell(l.0 as int, l.1 as int)
                    == expanded.spec_cell(l.0 as int, l.1 as int) && self.spec_cell(
                    l.0 as int,
                    l.1 as int,
                ).spec_add_error(word_id, text[i], direction) is None
            }),
    {
        let l = spec_step(start, i, direction);
        assert forall|j: int|
            0 <= j < i implies #[trigger] spec_step(start, j, direction) != Location(
            l.0,
            l.1,
        ) by {
            if spec_step(start, j, direction) == Location(l.0, l.1) {
                super::lemma_step_injective(start, j, i, direction);
            }
        }
        assert(self.spec_cell(l.0 as int, l.1 as int) == expanded.spec_cell(l.0 as int, l.1 as int));
        assert(expanded.spec_letter_error(start, word_id, text, direction, i) is None);
    }

    /// After the letters are written and the placement recorded, the grid is
    /// well formed and every placement is consistent.
    #[verifier::rlimit(60)]
    proof fn lemma_place_post(
        self,
        orig: CrosswordGrid,
        expanded: CrosswordGrid,
        writ: CrosswordGrid,
        start: Location,
        word_id: usize,
        text: Seq<char>,
        direction: Direction,
        k: int,
    )
        requires
            orig.wf(),
            orig.spec_placement_ok(),
            expanded.wf(),
            writ.wf(),
            self.wf(),
            1 <= text.len() <= PLACE_LIMIT,
            -3 * PLACE_LIMIT <= start.0 <= 3 * PLACE_LIMIT,
            -3 * PLACE_LIMIT <= start.1 <= 3 * PLACE_LIMIT,
            // expansion
            expanded.spec_words() == orig.spec_words(),
            forall|r: int, c: int|
                orig.spec_in_box(r, c) ==> expanded.spec_in_box(r, c) && expanded.spec_cell(r, c)
                    == orig.spec_cell(r, c),
            forall|r: int, c: int|
                expanded.spec_in_box(r, c) && !orig.spec_in_box(r, c) ==> (
                #[trigger] expanded.spec_cell(r, c)).spec_is_empty(),
            forall|j: int|
                0 <= j < text.len() ==> #[trigger] expanded.spec_letter_error(
                    start,
                    word_id,
                    text,
                    direction,
                    j,
                ) is None,
            forall|j: int|
                0 <= j < text.len() ==> expanded.spec_in_box(
                    (#[trigger] spec_step(start, j, direction)).0 as int,
                    spec_step(start, j, direction).1 as int,
                ),
            // writing
            writ.spec_words() == expanded.spec_words(),
            writ.spec_top_left() == expanded.spec_top_left(),
            writ.spec_bottom_right() == expanded.spec_bottom_right(),
            forall|j: int|
                0 <= j < text.len() ==> final_cell_written(
                    writ,
                    expanded,
                    start,
                    word_id,
                    text,
                    direction,
                    j,
                ),
            forall|rr: int, cc: int|
                expanded.spec_in_box(rr, cc) && (forall|j: int|
                    0 <= j < text.len() ==> #[trigger] spec_step(start, j, direction) != Location(
                        (rr as isize),
                        (cc as isize),
                    )) ==> #[trigger] writ.spec_cell(rr, cc) == expanded.spec_cell(rr, cc),
            // recording the placement
            self.spec_top_left() == writ.spec_top_left(),
            self.spec_bottom_right() == writ.spec_bottom_right(),
            forall|r: int, c: int|
                writ.spec_in_box(r, c) ==> self.spec_cell(r, c) == writ.spec_cell(r, c),
            self.spec_words().len() == writ.spec_words().len(),
            0 <= k < writ.spec_words().len(),
            writ.spec_words()[k].id == word_id,
            orig.spec_has_word(word_id),
            orig.spec_word_index(word_id) == k,
            text == writ.spec_words()[k].word.word_text@,
            forall|q: int|
                0 <= q < self.spec_words().len() && q != k ==> #[trigger] self.spec_words()[q]
                    == writ.spec_words()[q],
            self.spec_words()[k].id == word_id,
            self.spec_words()[k].word.word_text == writ.spec_words()[k].word.word_text,
            self.spec_words()[k].word.spec_is_placed(),
            self.spec_words()[k].word.placement.unwrap().start_location == start,
            self.spec_words()[k].word.placement.unwrap().direction == direction,
        ensures
            self.spec_placement_ok(),
    {
        assert forall|k2: int|
            0 <= k2 < self.spec_words().len() implies {
            let e = #[trigger] self.spec_words()[k2];
            e.word.placement is Some ==> {
                let p = e.word.placement.unwrap();
                forall|i: int|
                    0 <= i < e.word.word_text@.len() ==> {
                        let l = #[trigger] spec_step(p.start_location, i, p.direction);
                        &&& self.spec_in_box(l.0 as int, l.1 as int)
                        &&& self.spec_cell(l.0 as int, l.1 as int).spec_is_filled()
                        &&& self.spec_cell(l.0 as int, l.1 as int).spec_letter()
                            == e.word.word_text@[i]
                        &&& self.spec_cell(l.0 as int, l.1 as int).spec_word_id(p.direction)
                            == Some(e.id)
                    }
            }
        } by {
            let e = self.spec_words()[k2];
            if e.word.placement is Some {
                let p = e.word.placement.unwrap();
                assert forall|i: int|
                    0 <= i < e.word.word_text@.len() implies {
                    let l = #[trigger] spec_step(p.start_location, i, p.direction);
                    &&& self.spec_in_box(l.0 as int, l.1 as int)
                    &&& self.spec_cell(l.0 as int, l.1 as int).spec_is_filled()
                    &&& self.spec_cell(l.0 as int, l.1 as int).spec_letter()
                        == e.word.word_text@[i]
                    &&& self.spec_cell(l.0 as int, l.1 as int).spec_word_id(p.direction) == Some(
                        e.id,
                    )
                } by {
                    let l = spec_step(p.start_location, i, p.direction);
                    if k2 == k {
                        assert(l == spec_step(start, i, direction));
                        assert(final_cell_written(
                            writ,
                            expanded,
                            start,
                            word_id,
                            text,
                            direction,
                            i,
                        ));
                        let cell = expanded.spec_cell(l.0 as int, l.1 as int);
                        assert(self.spec_cell(l.0 as int, l.1 as int) == cell.spec_after_add(
                            word_id,
                            text[i],
                            direction,
                        ));
                        assert(expanded.spec_letter_error(start, word_id, text, direction, i)
                            is None);
                    } else {
                        assert(e == writ.spec_words()[k2]);
                        assert(orig.spec_words()[k2] == e);
                        assert(orig.spec_in_box(l.0 as int, l.1 as int));
                        assert(orig.spec_cell(l.0 as int, l.1 as int).spec_is_filled());
                        assert(orig.spec_cell(l.0 as int, l.1 as int).spec_letter()
                            == e.word.word_text@[i]);
                        assert(orig.spec_cell(l.0 as int, l.1 as int).spec_word_id(p.direction)
                            == Some(e.id));
                        assert(expanded.spec_cell(l.0 as int, l.1 as int) == orig.spec_cell(
                            l.0 as int,
                            l.1 as int,
                        ));
                        if exists|j: int|
                            0 <= j < text.len() && #[trigger] spec_step(start, j, direction)
                                == Location(l.0, l.1) {
                            let j = choose|j: int|
                                0 <= j < text.len() && #[trigger] spec_step(start, j, direction)
                                    == Location(l.0, l.1);
                            assert(final_cell_written(
                                writ,
                                expanded,
                                start,
                                word_id,
                                text,
                                direction,
                                j,
                            ));
                            let cell = expanded.spec_cell(l.0 as int, l.1 as int);
                            assert(writ.spec_cell(l.0 as int, l.1 as int) == cell.spec_after_add(
                                word_id,
                                text[j],
                                direction,
                            ));
                            assert(expanded.spec_letter_error(
                                start,
                                word_id,
                                text,
                                direction,
                                j,
                            ) is None);
                            assert(cell.spec_add_error(word_id, text[j], direction) is None);
                            if p.direction == direction {
                                assert(cell.spec_word_id(direction) == Some(e.id));
                                assert(e.id == word_id);
                                assert(orig.spec_words()[k2].id == word_id);
                                orig.lemma_word_index(word_id, k2);
                                assert(false);
                            } else {
                                assert(self.spec_cell(l.0 as int, l.1 as int).spec_word_id(
                                    p.direction,
                                ) == cell.spec_word_id(p.direction));
                                assert(self.spec_cell(l.0 as int, l.1 as int).spec_letter()
                                    == cell.spec_letter());
                            }
                        } else {
                            assert(writ.spec_cell(l.0 as int, l.1 as int) == expanded.spec_cell(
                                l.0 as int,
                                l.1 as int,
                            ));
                        }
                    }
                }
            }
        }
    }
}

impl CrosswordGrid {
    /// Check that no two neighbouring letter cells lack a shared word in
    /// the axis they adjoin.
    pub fn check_word_placement_valid(&self) -> (r: Result<(), CrosswordError>)
        requires
            self.wf(),
        ensures
            r is Ok == (forall|rr: int, cc: int, mv: int, d: Direction|
                self.spec_in_box(rr, cc) && (mv == -1 || mv == 1)
                    ==> #[trigger] self.spec_adjacent_check(
                    Location((rr as isize), (cc as isize)),
                    mv,
                    d,
                ) is Ok),
    {
        let mut row = self.top_left_cell_index.0;
        while row <= self.bottom_right_cell_index.0
            invariant
                self.wf(),
                self.spec_top_left().0 <= row as int <= self.spec_bottom_right().0 + 1,
                forall|rr: int, cc: int, mv: int, d: Direction|
                    self.spec_in_box(rr, cc) && rr < row as int && (mv == -1 || mv == 1)
                        ==> #[trigger] self.spec_adjacent_check(
                        Location((rr as isize), (cc as isize)),
                        mv,
                        d,
                    ) is Ok,
            decreases self.spec_bottom_right().0 + 1 - row,
        {
            let mut col = self.top_left_cell_index.1;
            while col <= self.bottom_right_cell_index.1
                invariant
                    self.wf(),
                    self.spec_top_left().0 <= row as int <= self.spec_bottom_right().0,
                    self.spec_top_left().1 <= col as int <= self.spec_bottom_right().1 + 1,
                    forall|rr: int, cc: int, mv: int, d: Direction|
                        self.spec_in_box(rr, cc) && (rr < row as int || (rr == row as int && cc
                            < col as int)) && (mv == -1 || mv == 1)
                            ==> #[trigger] self.spec_adjacent_check(
                            Location((rr as isize), (cc as isize)),
                            mv,
                            d,
                        ) is Ok,
                decreases self.spec_bottom_right().1 + 1 - col,
            {
                let l = Location(row, col);
                match self.check_adjacent_cells_compatible(&l, -1, Direction::Across) {
                    Ok(()) => {},
                    Err(e) => {
                        proof {
                            assert(self.spec_in_box(row as int, col as int));
                            assert(self.spec_adjacent_check(
                                Location((row as int) as isize, (col as int) as isize),
                                -1,
                                Direction::Across,
                            ) is Err);
                        }
                        return Err(e);
                    },
                }
                match self.check_adjacent_cells_compatible(&l, 1, Direction::Across) {
                    Ok(()) => {},
                    Err(e) => {
                        proof {
                            assert(self.spec_in_box(row as int, col as int));
                            assert(self.spec_adjacent_check(
                                Location((row as int) as isize, (col as int) as isize),
                                1,
                                Direction::Across,
                            ) is Err);
                        }
                        return Err(e);
                    },
                }
                match self.check_adjacent_cells_compatible(&l, -1, Direction::Down) {
                    Ok(()) => {},
                    Err(e) => {
                        proof {
                            assert(self.spec_in_box(row as int, col as int));
                            assert(self.spec_adjacent_check(
                                Location((row as int) as isize, (col as int) as isize),
                                -1,
                                Direction::Down,
                            ) is Err);
                        }
                        return Err(e);
                    },
                }
                match self.check_adjacent_cells_compatible(&l, 1, Direction::Down) {
                    Ok(()) => {},
                    Err(e) => {
                        proof {
                            assert(self.spec_in_box(row as int, col as int));
                            assert(self.spec_adjacent_check(
                                Location((row as int) as isize, (col as int) as isize),
                                1,
                                Direction::Down,
                            ) is Err);
                        }
                        return Err(e);
                    },
                }
                col += 1;
                proof {
                    assert forall|rr: int, cc: int, mv: int, d: Direction|
                        self.spec_in_box(rr, cc) && (rr < row as int || (rr == row as int && cc
                            < col as int)) && (mv == -1 || mv == 1)
                        implies #[trigger] self.spec_adjacent_check(
                        Location((rr as isize), (cc as isize)),
                        mv,
                        d,
                    ) is Ok by {
                        if rr == row as int && cc == col - 1 {
                            assert(Location((rr as isize), (cc as isize)) == l);
                            if mv == -1 && d is Across {
                            } else if mv == 1 && d is Across {
                            } else if mv == -1 && d is Down {
                            } else {
                                assert(mv == 1 && d is Down);
                            }
                        }
                    }
                }
            }
            row += 1;
        }
        Ok(())
    }

    /// As `check_word_placement_valid`.
    pub fn check_all_word_placement_valid(&self) -> (r: Result<(), CrosswordError>)
        requires
            self.wf(),
        ensures
            r is Ok == (forall|rr: int, cc: int, mv: int, d: Direction|
                self.spec_in_box(rr, cc) && (mv == -1 || mv == 1)
                    ==> #[trigger] self.spec_adjacent_check(
                    Location((rr as isize), (cc as isize)),
                    mv,
                    d,
                ) is Ok),
    {
        self.check_word_placement_valid()
    }

    /// Recompute the black marks, refuse a word already placed or a
    /// direction its requirement forbids, then place it.
    pub fn try_place_word_in_cell(
        &mut self,
        location: Location,
        word_id: usize,
        index_in_word: usize,
        word_direction: Direction,
    ) -> (r: Result<(), CrosswordError>)
        requires
            old(self).wf(),
            old(self).spec_placement_ok(),
            old(self).spec_boundaries_in_box(),
            old(self).spec_no_black_overlap(),
            -PLACE_LIMIT <= location.0 <= PLACE_LIMIT,
            -PLACE_LIMIT <= location.1 <= PLACE_LIMIT,
            index_in_word < PLACE_LIMIT,
            old(self).spec_has_word(word_id) ==> 1 <= old(self).spec_word(word_id).spec_len()
                <= PLACE_LIMIT,
            old(self).spec_has_word(word_id) ==> index_in_word < old(self).spec_word(
                word_id,
            ).spec_len(),
        ensures
            final(self).wf(),
            final(self).spec_placement_ok(),
            final(self).spec_boundaries_in_box(),
            final(self).spec_no_black_overlap(),
            old(self).spec_letters_bounded() ==> final(self).spec_letters_bounded(),
            final(self).spec_top_left().0 >= vstd::math::min(
                old(self).spec_top_left().0 as int,
                -2 * PLACE_LIMIT - 1,
            ),
            final(self).spec_top_left().1 >= vstd::math::min(
                old(self).spec_top_left().1 as int,
                -2 * PLACE_LIMIT - 1,
            ),
            final(self).spec_bottom_right().0 <= vstd::math::max(
                old(self).spec_bottom_right().0 as int,
                2 * PLACE_LIMIT + 1,
            ),
            final(self).spec_bottom_right().1 <= vstd::math::max(
                old(self).spec_bottom_right().1 as int,
                2 * PLACE_LIMIT + 1,
            ),
            forall|j: usize|
                j != word_id && old(self).spec_has_word(j) ==> #[trigger] final(self).spec_word(
                    j,
                ) == old(self).spec_word(j),
            match r {
                Err(CrosswordError::WordNotFound(id)) => id == word_id && !old(self).spec_has_word(word_id),
                Err(CrosswordError::WordAlreadyPlaced(id, _)) => id == word_id && old(self).spec_has_word(word_id) && old(self).spec_word(word_id).spec_is_placed(),
                Err(CrosswordError::InvalidWordDirection(id, d)) => id == word_id && d
                    == word_direction && old(self).spec_has_word(word_id) && !old(self).spec_word(word_id).spec_allowed_in(word_direction),
                Err(_) => old(self).spec_has_word(word_id) && !old(self).spec_word(
                    word_id,
                ).spec_is_placed() && old(self).spec_word(word_id).spec_allowed_in(
                    word_direction,
                ),
                Ok(()) => {
                    &&& old(self).spec_has_word(word_id)
                    &&& !old(self).spec_word(word_id).spec_is_placed()
                    &&& old(self).spec_word(word_id).spec_allowed_in(word_direction)
                    &&& final(self).spec_has_word(word_id)
                    &&& final(self).spec_word(word_id).spec_is_placed()
                    &&& final(self).spec_word(word_id).word_text == old(self).spec_word(
                        word_id,
                    ).word_text
                    &&& final(self).spec_word(word_id).placement.unwrap().start_location
                        == spec_step(location, -(index_in_word as int), word_direction)
                    &&& final(self).spec_word(word_id).placement.unwrap().direction
                        == word_direction
                    &&& (forall|j: usize|
                        #[trigger] final(self).spec_has_word(j) == old(self).spec_has_word(j))
                },
            },
            r is Err ==> forall|j: usize|
                #[trigger] final(self).spec_has_word(j) == old(self).spec_has_word(j),
            r is Err ==> final(self).spec_words() == old(self).spec_words(),
            r is Err ==> final(self).spec_top_left() == old(self).spec_top_left() && final(self).spec_bottom_right() == old(self).spec_bottom_right(),
            r is Err ==> forall|rr: int, cc: int|
                old(self).spec_in_box(rr, cc) ==> final(self).spec_cell(rr, cc)
                    == CrosswordGrid::spec_blackened(
                    #[trigger] old(self).spec_cell(rr, cc),
                    old(self).spec_expected_black(rr, cc),
                ),
    {
        self.fill_black_cells();
        let ghost blackened = *self;
        proof {
            self.lemma_blacken_keeps_ok(*old(self));
            assert(self.spec_blacks_marked());
            assert(self.spec_boundaries_in_box()) by {
                assert forall|k: int|
                    0 <= k < self.spec_words().len() implies {
                    let e = #[trigger] self.spec_words()[k];
                    e.word.placement is Some ==> {
                        let p = e.word.placement.unwrap();
                        let bfr = spec_step(p.start_location, -1, p.direction);
                        let aft = spec_step(
                            p.start_location,
                            e.word.word_text@.len() as int,
                            p.direction,
                        );
                        self.spec_in_box(bfr.0 as int, bfr.1 as int) && self.spec_in_box(
                            aft.0 as int,
                            aft.1 as int,
                        )
                    }
                } by {
                    assert(self.spec_words()[k] == old(self).spec_words()[k]);
                }
            }
            assert(self.spec_no_black_overlap());
            if old(self).spec_letters_bounded() {
                assert forall|rr: int, cc: int|
                    self.spec_in_box(rr, cc) && (#[trigger] self.spec_cell(
                        rr,
                        cc,
                    )).spec_is_filled() implies -16381 <= rr <= 16381 && -16381 <= cc
                    <= 16381 by {
                    assert(old(self).spec_cell(rr, cc).spec_is_filled());
                }
            }
            assert(blackened == *self);
            assert(blackened.spec_boundaries_in_box());
            assert(blackened.spec_no_black_overlap());
            assert(blackened.spec_blacks_marked());
            assert(old(self).spec_letters_bounded() ==> blackened.spec_letters_bounded());
            assert(blackened.spec_top_left() == old(self).spec_top_left());
            assert(blackened.spec_bottom_right() == old(self).spec_bottom_right());
            assert forall|rr: int, cc: int|
                old(self).spec_in_box(rr, cc) implies blackened.spec_cell(rr, cc)
                == CrosswordGrid::spec_blackened(
                #[trigger] old(self).spec_cell(rr, cc),
                old(self).spec_expected_black(rr, cc),
            ) by {}
        }
        let word_placed = match self.get_word(word_id) {
            Ok(w) => w.get_location(),
            Err(e) => {
                return Err(CrosswordError::WordNotFound(word_id));
            },
        };
        if let Some(existing) = word_placed {
            return Err(CrosswordError::WordAlreadyPlaced(word_id, existing.0));
        }
        let allowed = match self.get_word(word_id) {
            Ok(w) => w.allowed_in_direction(word_direction),
            Err(e) => false,
        };
        if !allowed {
            return Err(CrosswordError::InvalidWordDirection(word_id, word_direction));
        }
        let r = self.place_word_in_cell(location, word_id, index_in_word, word_direction);
        proof {
            if r is Err {
                assert(*self == blackened);
                assert(self.spec_boundaries_in_box());
                assert(self.spec_no_black_overlap());
            } else {
                assert(self.spec_boundaries_in_box());
                assert(self.spec_no_black_overlap());
            }
        }
        r
    }

    /// Recomputing the black marks keeps every placement consistent: the
    /// letters and their owners are untouched.
    proof fn lemma_blacken_keeps_ok(self, orig: CrosswordGrid)
        requires
            orig.wf(),
            orig.spec_placement_ok(),
            orig.spec_no_black_overlap(),
            self.wf(),
            self.spec_words() == orig.spec_words(),
            self.spec_top_left() == orig.spec_top_left(),
            self.spec_bottom_right() == orig.spec_bottom_right(),
            forall|r: int, c: int|
                orig.spec_in_box(r, c) ==> self.spec_cell(r, c) == CrosswordGrid::spec_blackened(
                    orig.spec_cell(r, c),
                    orig.spec_expected_black(r, c),
                ),
        ensures
            self.spec_placement_ok(),
    {
        assert forall|k: int|
            0 <= k < self.spec_words().len() implies {
            let e = #[trigger] self.spec_words()[k];
            e.word.placement is Some ==> {
                let p = e.word.placement.unwrap();
                forall|i: int|
                    0 <= i < e.word.word_text@.len() ==> {
                        let l = #[trigger] spec_step(p.start_location, i, p.direction);
                        &&& self.spec_in_box(l.0 as int, l.1 as int)
                        &&& self.spec_cell(l.0 as int, l.1 as int).spec_is_filled()
                        &&& self.spec_cell(l.0 as int, l.1 as int).spec_letter()
                            == e.word.word_text@[i]
                        &&& self.spec_cell(l.0 as int, l.1 as int).spec_word_id(p.direction)
                            == Some(e.id)
                    }
            }
        } by {
            let e = self.spec_words()[k];
            if e.word.placement is Some {
                let p = e.word.placement.unwrap();
                assert forall|i: int|
                    0 <= i < e.word.word_text@.len() implies {
                    let l = #[trigger] spec_step(p.start_location, i, p.direction);
                    &&& self.spec_in_box(l.0 as int, l.1 as int)
                    &&& self.spec_cell(l.0 as int, l.1 as int).spec_is_filled()
                    &&& self.spec_cell(l.0 as int, l.1 as int).spec_letter()
                        == e.word.word_text@[i]
                    &&& self.spec_cell(l.0 as int, l.1 as int).spec_word_id(p.direction) == Some(
                        e.id,
                    )
                } by {
                    let l = spec_step(p.start_location, i, p.direction);
                    assert(orig.spec_in_box(l.0 as int, l.1 as int));
                    assert(orig.spec_cell(l.0 as int, l.1 as int).spec_is_filled());
                    assert(!orig.spec_expected_black(l.0 as int, l.1 as int)) by {
                        if orig.spec_expected_black(l.0 as int, l.1 as int) {
                            assert(!orig.spec_cell(l.0 as int, l.1 as int).spec_is_filled());
                        }
                    }
                    assert(self.spec_cell(l.0 as int, l.1 as int) == orig.spec_cell(
                        l.0 as int,
                        l.1 as int,
                    ));
                }
            }
        }
    }

    /// Place the word, then keep the placement only when the grid stays
    /// free of stray adjacencies and its word graph stays connected.
    pub fn try_place_word_in_cell_connected(
        &mut self,
        location: Location,
        word_id: usize,
        index_in_word: usize,
        word_direction: Direction,
    ) -> (r: bool)
        requires
            old(self).wf(),
            old(self).spec_placement_ok(),
            old(self).spec_boundaries_in_box(),
            old(self).spec_no_black_overlap(),
            old(self).spec_letters_bounded(),
            old(self).spec_box_bounded(),
            -PLACE_LIMIT <= location.0 <= PLACE_LIMIT,
            -PLACE_LIMIT <= location.1 <= PLACE_LIMIT,
            index_in_word < PLACE_LIMIT,
            old(self).spec_has_word(word_id) ==> 1 <= old(self).spec_word(word_id).spec_len()
                <= PLACE_LIMIT,
            old(self).spec_has_word(word_id) ==> index_in_word < old(self).spec_word(
                word_id,
            ).spec_len(),
            exists|k: int|
                0 <= k < old(self).spec_words().len() && (#[trigger] old(self).spec_words()[
                k]).id != word_id && old(self).spec_words()[k].word.spec_is_placed(),
        ensures
            final(self).wf(),
            final(self).spec_placement_ok(),
            final(self).spec_boundaries_in_box(),
            final(self).spec_no_black_overlap(),
            final(self).spec_letters_bounded(),
            final(self).spec_box_bounded(),
            r ==> final(self).spec_has_word(word_id) && final(self).spec_word(
                word_id,
            ).spec_is_placed() && !old(self).spec_word(word_id).spec_is_placed(),
            r ==> forall|j: usize|
                j != word_id && old(self).spec_has_word(j) ==> #[trigger] final(self).spec_word(
                    j,
                ) == old(self).spec_word(j),
            r ==> final(self).spec_word(word_id).word_text == old(self).spec_word(
                word_id,
            ).word_text,
            r ==> (forall|rr: int, cc: int, mv: int, d: Direction|
                final(self).spec_in_box(rr, cc) && (mv == -1 || mv == 1)
                    ==> #[trigger] final(self).spec_adjacent_check(
                    Location((rr as isize), (cc as isize)),
                    mv,
                    d,
                ) is Ok),
            r ==> final(self).spec_word_graph_connected(),
            forall|j: usize| #[trigger] final(self).spec_has_word(j) == old(self).spec_has_word(j),
            !r ==> forall|j: usize|
                old(self).spec_has_word(j) ==> (#[trigger] final(self).spec_word(j)).placement
                    == old(self).spec_word(j).placement && final(self).spec_word(j).word_text
                    == old(self).spec_word(j).word_text,
    {
        let placed = self.try_place_word_in_cell(location, word_id, index_in_word, word_direction);
        match placed {
            Err(_) => false,
            Ok(()) => {
                let ok_adjacent = self.check_word_placement_valid().is_ok();
                let graph = self.to_graph();
                let ok_connected = graph.is_connected();
                if ok_adjacent && ok_connected {
                    proof {
                        assert forall|g2: crate::graph::Graph|
                            #[trigger] self.spec_graph_matches(g2)
                            implies g2.spec_connected() by {
                            crate::graph::Graph::lemma_connected_ext(graph, g2);
                        }
                    }
                    true
                } else {
                    proof {
                        let k0 = choose|k: int|
                            0 <= k < old(self).spec_words().len() && (#[trigger] old(self).spec_words()[k]).id != word_id && old(self).spec_words()[
                            k].word.spec_is_placed();
                        let id0 = old(self).spec_words()[k0].id;
                        old(self).lemma_word_index(id0, k0);
                        assert(old(self).spec_word(id0).spec_is_placed());
                        assert(self.spec_has_word(id0));
                        assert(self.spec_word(id0) == old(self).spec_word(id0));
                        let k1 = self.spec_word_index(id0);
                        assert(self.spec_words()[k1].id == id0);
                        assert(self.spec_words()[k1].word.spec_is_placed());
                    }
                    let ghost before_undo = *self;
                    self.unplace_word(word_id);
                    proof {
                        assert forall|j: usize|
                            old(self).spec_has_word(j) implies (#[trigger] self.spec_word(
                            j,
                        )).placement == old(self).spec_word(j).placement && self.spec_word(
                            j,
                        ).word_text == old(self).spec_word(j).word_text by {
                            if j == word_id {
                                assert(!self.spec_word(word_id).spec_is_placed());
                                assert(!old(self).spec_word(word_id).spec_is_placed());
                                assert(self.spec_word(word_id).word_text == before_undo.spec_word(
                                    word_id,
                                ).word_text);
                                assert(before_undo.spec_word(word_id).word_text == old(self).spec_word(word_id).word_text);
                            } else {
                                assert(self.spec_word(j) == before_undo.spec_word(j));
                                assert(before_undo.spec_word(j) == old(self).spec_word(j));
                            }
                        }
                    }
                    false
                }
            },
        }
    }
}

} // verus!
