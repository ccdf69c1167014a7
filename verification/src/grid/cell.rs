use vstd::prelude::*;

use super::Direction;

verus! {

#[derive(Debug, PartialEq, Eq, Structural)]
pub enum CellError {
    WordIdMismatch(usize, usize, Direction),
    LetterMismatch(char, char),
    FillBlack,
}

#[derive(Clone, Copy, Debug)]
pub struct FilledCell {
    pub letter: char,
    pub across_word_id: Option<usize>,
    pub down_word_id: Option<usize>,
}

impl FilledCell {
    pub fn new(letter: char, across_word_id: Option<usize>, down_word_id: Option<usize>) -> (r:
        Self)
        ensures
            r.letter == letter,
            r.across_word_id == across_word_id,
            r.down_word_id == down_word_id,
    {
        FilledCell { letter, across_word_id, down_word_id }
    }
}

#[derive(Clone, Copy, Debug)]
pub enum FillStatus {
    Filled(FilledCell),
    Empty,
    Black,
}

/// One grid cell: empty, black (a forced boundary), or filled with a letter
/// owned by up to one across word and one down word.
#[derive(Clone, Copy, Debug)]
pub struct Cell {
    pub fill_status: FillStatus,
}

impl Cell {
    pub open spec fn spec_across(self) -> Option<usize> {
        match self.fill_status {
            FillStatus::Filled(f) => f.across_word_id,
            _ => None,
        }
    }

    pub open spec fn spec_down(self) -> Option<usize> {
        match self.fill_status {
            FillStatus::Filled(f) => f.down_word_id,
            _ => None,
        }
    }

    pub open spec fn spec_letter(self) -> char {
        match self.fill_status {
            FillStatus::Filled(f) => f.letter,
            _ => ' ',
        }
    }

    pub open spec fn spec_is_filled(self) -> bool {
        self.fill_status is Filled
    }

    pub open spec fn spec_is_empty(self) -> bool {
        self.fill_status is Empty
    }

    pub open spec fn spec_is_black(self) -> bool {
        self.fill_status is Black
    }

    pub open spec fn spec_is_intersection(self) -> bool {
        self.spec_across() is Some && self.spec_down() is Some
    }

    /// The id owning this cell in the given orientation.
    pub open spec fn spec_word_id(self, direction: Direction) -> Option<usize> {
        match direction {
            Direction::Across => self.spec_across(),
            Direction::Down => self.spec_down(),
        }
    }

    pub fn new(letter: char, across_word_id: Option<usize>, down_word_id: Option<usize>) -> (r:
        Self)
        ensures
            r.spec_is_filled(),
            r.spec_letter() == letter,
            r.spec_across() == across_word_id,
            r.spec_down() == down_word_id,
    {
        Cell { fill_status: FillStatus::Filled(FilledCell::new(letter, across_word_id, down_word_id)) }
    }

    pub fn empty() -> (r: Self)
        ensures
            r.spec_is_empty(),
    {
        Cell { fill_status: FillStatus::Empty }
    }

    /// Withdraw `word_id`'s ownership; the cell reverts to empty when no
    /// other word owns it.
    pub fn remove_word(&mut self, word_id: usize)
        ensures
            *final(self) == old(self).spec_after_remove(word_id),
    {
        if let FillStatus::Filled(filled_cell) = self.fill_status {
            let mut across_word_id = self.get_across_word_id();
            let mut down_word_id = self.get_down_word_id();
            if across_word_id == Some(word_id) {
                across_word_id = None;
            }
            if down_word_id == Some(word_id) {
                down_word_id = None;
            }
            if across_word_id.is_none() && down_word_id.is_none() {
                self.fill_status = FillStatus::Empty;
            } else {
                self.fill_status = FillStatus::Filled(
                    FilledCell::new(filled_cell.letter, across_word_id, down_word_id),
                );
            }
        }
    }

    /// The cell after `remove_word(word_id)`.
    pub open spec fn spec_after_remove(self, word_id: usize) -> Cell {
        match self.fill_status {
            FillStatus::Filled(f) => {
                let a = if f.across_word_id == Some(word_id) {
                    None
                } else {
                    f.across_word_id
                };
                let d = if f.down_word_id == Some(word_id) {
                    None
                } else {
                    f.down_word_id
                };
                if a is None && d is None {
                    Cell { fill_status: FillStatus::Empty }
                } else {
                    Cell {
                        fill_status: FillStatus::Filled(
                            FilledCell { letter: f.letter, across_word_id: a, down_word_id: d },
                        ),
                    }
                }
            },
            _ => self,
        }
    }

    /// Renumber an owner id.
    pub fn update_word_id(&mut self, old_word_id: usize, new_word_id: usize)
        ensures
            final(self).spec_is_filled() == old(self).spec_is_filled(),
            final(self).spec_is_empty() == old(self).spec_is_empty(),
            final(self).spec_is_black() == old(self).spec_is_black(),
            final(self).spec_letter() == old(self).spec_letter(),
            final(self).spec_across() == (if old(self).spec_is_filled() && old(self).spec_across()
                == Some(old_word_id) {
                Some(new_word_id)
            } else {
                old(self).spec_across()
            }),
            final(self).spec_down() == (if old(self).spec_is_filled() && old(self).spec_down()
                == Some(old_word_id) {
                Some(new_word_id)
            } else {
                old(self).spec_down()
            }),
    {
        if let FillStatus::Filled(mut filled_cell) = self.fill_status {
            if self.get_across_word_id() == Some(old_word_id) {
                filled_cell.across_word_id = Some(new_word_id);
            }
            if self.get_down_word_id() == Some(old_word_id) {
                filled_cell.down_word_id = Some(new_word_id);
            }
            self.fill_status = FillStatus::Filled(filled_cell);
        }
    }

    /// Could `add_word` succeed, and with what error otherwise?
    pub open spec fn spec_add_error(self, word_id: usize, letter: char, direction: Direction)
        -> Option<CellError> {
        match self.fill_status {
            FillStatus::Filled(f) => {
                let existing = self.spec_word_id(direction);
                if existing is Some && existing != Some(word_id) {
                    Some(CellError::WordIdMismatch(word_id, existing.unwrap(), direction))
                } else if f.letter != letter {
                    Some(CellError::LetterMismatch(letter, f.letter))
                } else {
                    None
                }
            },
            FillStatus::Empty => None,
            FillStatus::Black => Some(CellError::FillBlack),
        }
    }

    /// The cell after a successful `add_word`.
    pub open spec fn spec_after_add(self, word_id: usize, letter: char, direction: Direction)
        -> Cell {
        let a = if direction is Across {
            Some(word_id)
        } else {
            self.spec_across()
        };
        let d = if direction is Down {
            Some(word_id)
        } else {
            self.spec_down()
        };
        Cell {
            fill_status: FillStatus::Filled(
                FilledCell { letter, across_word_id: a, down_word_id: d },
            ),
        }
    }

    /// Claim this cell for `word_id` with `letter` along `direction`.
    /// Fails, leaving the cell unchanged, when the cell is black, holds
    /// another letter, or is already owned in that orientation by another
    /// word.
    pub fn add_word(&mut self, word_id: usize, letter: char, direction: Direction) -> (r: Result<
        (),
        CellError,
    >)
        ensures
            match r {
                Ok(()) => old(self).spec_add_error(word_id, letter, direction) is None
                    && *final(self) == old(self).spec_after_add(word_id, letter, direction),
                Err(e) => Some(e) == old(self).spec_add_error(word_id, letter, direction)
                    && *final(self) == *old(self),
            },
    {
        let mut across_word_id: Option<usize> = None;
        let mut down_word_id: Option<usize> = None;
        match direction {
            Direction::Across => {
                across_word_id = Some(word_id);
            },
            Direction::Down => {
                down_word_id = Some(word_id);
            },
        }
        match self.fill_status {
            FillStatus::Filled(filled_cell) => {
                let existing_across = filled_cell.across_word_id;
                let existing_down = filled_cell.down_word_id;
                match direction {
                    Direction::Across => {
                        down_word_id = existing_down;
                        if let Some(existing) = existing_across {
                            if existing != word_id {
                                return Err(
                                    CellError::WordIdMismatch(word_id, existing, direction),
                                );
                            }
                        }
                    },
                    Direction::Down => {
                        across_word_id = existing_across;
                        if let Some(existing) = existing_down {
                            if existing != word_id {
                                return Err(
                                    CellError::WordIdMismatch(word_id, existing, direction),
                                );
                            }
                        }
                    },
                }
                if filled_cell.letter != letter {
                    return Err(CellError::LetterMismatch(letter, filled_cell.letter));
                }
            },
            FillStatus::Empty => {},
            FillStatus::Black => {
                return Err(CellError::FillBlack);
            },
        }
        self.fill_status = FillStatus::Filled(
            FilledCell::new(letter, across_word_id, down_word_id),
        );
        Ok(())
    }

    pub fn get_down_word_id(&self) -> (r: Option<usize>)
        ensures
            r == self.spec_down(),
    {
        if let FillStatus::Filled(filled_cell) = self.fill_status {
            filled_cell.down_word_id
        } else {
            None
        }
    }

    pub fn get_across_word_id(&self) -> (r: Option<usize>)
        ensures
            r == self.spec_across(),
    {
        if let FillStatus::Filled(filled_cell) = self.fill_status {
            filled_cell.across_word_id
        } else {
            None
        }
    }

    /// The owner id along `direction`.
    pub fn get_word_id(&self, direction: Direction) -> (r: Option<usize>)
        ensures
            r == self.spec_word_id(direction),
    {
        match direction {
            Direction::Across => self.get_across_word_id(),
            Direction::Down => self.get_down_word_id(),
        }
    }

    pub fn is_intersection(&self) -> (r: bool)
        ensures
            r == self.spec_is_intersection(),
    {
        if self.get_across_word_id().is_some() && self.get_down_word_id().is_some() {
            true
        } else {
            false
        }
    }

    pub fn set_empty(&mut self)
        ensures
            final(self).spec_is_empty(),
            final(self).spec_across() is None,
            final(self).spec_down() is None,
    {
        self.fill_status = FillStatus::Empty;
    }

    pub fn set_black(&mut self)
        ensures
            final(self).spec_is_black(),
            final(self).spec_across() is None,
            final(self).spec_down() is None,
            !final(self).spec_is_filled(),
    {
        self.fill_status = FillStatus::Black;
    }

    pub fn contains_letter(&self) -> (r: bool)
        ensures
            r == self.spec_is_filled(),
    {
        if let FillStatus::Filled(_filled_cell) = self.fill_status {
            true
        } else {
            false
        }
    }

    pub fn to_char(&self) -> (r: char)
        ensures
            r == self.spec_letter(),
    {
        if let FillStatus::Filled(filled_cell) = self.fill_status {
            filled_cell.letter
        } else {
            ' '
        }
    }

    pub fn is_empty(&self) -> (r: bool)
        ensures
            r == self.spec_is_empty(),
    {
        if let FillStatus::Empty = self.fill_status {
            true
        } else {
            false
        }
    }

    pub fn is_black(&self) -> (r: bool)
        ensures
            r == self.spec_is_black(),
    {
        if let FillStatus::Black = self.fill_status {
            true
        } else {
            false
        }
    }
}

} // verus!
