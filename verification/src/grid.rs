use vstd::prelude::*;

use crate::graph::Graph;
use crate::graph::edge_list_has_endpoint;

pub mod builder;
pub(crate) mod word;
pub(crate) mod cell;

pub(crate) mod add_word;
mod random;
mod spacing;
mod properties;
mod matrix;
mod validity;

pub use builder::CrosswordGridBuilder;
pub use word::Word;
pub use word::ParseError;
pub use word::parse_answer_string;
pub use word::digits_of;
pub use word::str_to_chars;
pub use cell::Cell;
pub use cell::CellError;
use word::WordPlacement;

verus! {

/// Letters accepted in an answer, in encoding order.
pub const VALID_ANSWERCHARS: &'static str = "ABCDEFGHIJKLMNOPQRSTUVWXYZ";

/// Bound on grid coordinates: all cell locations, and the number of rows and
/// columns, stay well inside `isize`, so that single steps never overflow.
pub const COORD_LIMIT: isize = 16384;

#[derive(Clone, Copy, Debug, PartialEq, Eq, Structural, Hash)]
pub enum Direction {
    Across,
    Down,
}

impl Direction {
    /// The other orientation.
    pub fn rotate(&self) -> (r: Self)
        ensures
            r == (match self {
                Direction::Across => Direction::Down,
                Direction::Down => Direction::Across,
            }),
    {
        match self {
            Direction::Across => Direction::Down,
            Direction::Down => Direction::Across,
        }
    }
}

/// A cell position: row, then column.
#[derive(Clone, Copy, Debug, PartialEq, Eq, Structural, Hash)]
pub struct Location(pub isize, pub isize);

impl Location {
    /// The location `move_across` rows down and `move_down` columns right.
    pub fn relative_location(&self, move_across: isize, move_down: isize) -> (r: Location)
        requires
            isize::MIN <= self.0 + move_across <= isize::MAX,
            isize::MIN <= self.1 + move_down <= isize::MAX,
        ensures
            r.0 == self.0 + move_across,
            r.1 == self.1 + move_down,
    {
        Location(self.0 + move_across, self.1 + move_down)
    }

    /// The location `move_size` steps along `direction`.
    pub fn relative_location_directed(&self, move_size: isize, direction: Direction) -> (r:
        Location)
        requires
            isize::MIN <= self.0 + move_size <= isize::MAX,
            isize::MIN <= self.1 + move_size <= isize::MAX,
        ensures
            r == spec_step(*self, move_size as int, direction),
    {
        match direction {
            Direction::Across => Location(self.0, self.1 + move_size),
            Direction::Down => Location(self.0 + move_size, self.1),
        }
    }
}

/// The location `k` steps from `l` along `direction`.
pub open spec fn spec_step(l: Location, k: int, direction: Direction) -> Location {
    match direction {
        Direction::Across => Location(l.0, (l.1 + k) as isize),
        Direction::Down => Location((l.0 + k) as isize, l.1),
    }
}

/// Within `isize` range, distinct step counts give distinct locations.
pub proof fn lemma_step_injective(start: Location, a: int, b: int, direction: Direction)
    requires
        isize::MIN <= start.0 + a <= isize::MAX,
        isize::MIN <= start.1 + a <= isize::MAX,
        isize::MIN <= start.0 + b <= isize::MAX,
        isize::MIN <= start.1 + b <= isize::MAX,
        spec_step(start, a, direction) == spec_step(start, b, direction),
    ensures
        a == b,
{
}

#[derive(Debug, PartialEq, Eq, Structural)]
pub enum CrosswordError {
    AdjacentCellsNoLinkWord(Location, Location),
    AdjacentCellsMismatchedLinkWord(Location, Location, usize, usize),
    CellError(Location, CellError),
    NonEmptyWordBoundary(Location, Location),
    CellNotFound(Location),
    WordAlreadyPlaced(usize, Location),
    InvalidWordDirection(usize, Direction),
    WordNotFound(usize),
}

/// One entry of the word map: a stable id and its word.
#[derive(Clone, Debug)]
pub struct WordEntry {
    pub id: usize,
    pub word: Word,
}

/// A crossword grid: a dense rectangle of cells covering the bounding box,
/// and the words, placed or not, keyed by stable ids.
#[derive(Clone, Debug)]
pub struct CrosswordGrid {
    cells: Vec<Vec<Cell>>,
    word_map: Vec<WordEntry>,
    top_left_cell_index: Location,
    bottom_right_cell_index: Location,
}

impl CrosswordGrid {
    pub closed spec fn spec_rows(self) -> int {
        self.cells@.len() as int
    }

    pub closed spec fn spec_cols(self) -> int {
        self.cells@[0]@.len() as int
    }

    pub closed spec fn spec_top_left(self) -> Location {
        self.top_left_cell_index
    }

    pub closed spec fn spec_bottom_right(self) -> Location {
        self.bottom_right_cell_index
    }

    /// Is the absolute location (r, c) inside the bounding box?
    pub open spec fn spec_in_box(self, r: int, c: int) -> bool {
        &&& self.spec_top_left().0 <= r <= self.spec_bottom_right().0
        &&& self.spec_top_left().1 <= c <= self.spec_bottom_right().1
    }

    /// The cell at `l`.
    pub open spec fn spec_cell_at_loc(self, l: Location) -> Cell {
        self.spec_cell(l.0 as int, l.1 as int)
    }

    /// The cell at absolute location (r, c).
    pub closed spec fn spec_cell(self, r: int, c: int) -> Cell {
        self.cells@[r - self.spec_top_left().0]@[c - self.spec_top_left().1]
    }

    pub closed spec fn spec_words(self) -> Seq<WordEntry> {
        self.word_map@
    }

    pub open spec fn spec_has_word(self, id: usize) -> bool {
        exists|k: int| 0 <= k < self.spec_words().len() && (#[trigger] self.spec_words()[k]).id == id
    }

    pub closed spec fn spec_word_index(self, id: usize) -> int {
        choose|k: int| 0 <= k < self.spec_words().len() && (#[trigger] self.spec_words()[k]).id == id
    }

    /// The word stored under `id`.
    pub open spec fn spec_word(self, id: usize) -> Word {
        self.spec_words()[self.spec_word_index(id)].word
    }

    /// Structural well-formedness: a non-empty rectangle of cells matching
    /// the corner indices, bounded coordinates, and word ids strictly
    /// ascending.
    pub closed spec fn wf(self) -> bool {
        &&& self.spec_rows() >= 1
        &&& self.spec_cols() >= 1
        &&& (forall|k: int|
            0 <= k < self.cells@.len() ==> (#[trigger] self.cells@[k]@.len()) as int
                == self.spec_cols())
        &&& self.spec_bottom_right().0 == self.spec_top_left().0 + self.spec_rows() - 1
        &&& self.spec_bottom_right().1 == self.spec_top_left().1 + self.spec_cols() - 1
        &&& -COORD_LIMIT <= self.spec_top_left().0
        &&& -COORD_LIMIT <= self.spec_top_left().1
        &&& self.spec_bottom_right().0 <= COORD_LIMIT
        &&& self.spec_bottom_right().1 <= COORD_LIMIT
        &&& (forall|p: int, q: int|
            0 <= p < q < self.spec_words().len() ==> (#[trigger] self.spec_words()[p]).id < (
            #[trigger] self.spec_words()[q]).id)
        &&& (forall|k: int|
            0 <= k < self.spec_words().len() ==> (#[trigger] self.spec_words()[k]).word.wf())
    }

    /// The index of `id` in the word map, when present.
    fn find_word_index(&self, id: usize) -> (r: Option<usize>)
        ensures
            match r {
                Some(k) => k < self.spec_words().len() && self.spec_words()[k as int].id == id,
                None => !self.spec_has_word(id),
            },
    {
        let mut k: usize = 0;
        while k < self.word_map.len()
            invariant
                k <= self.spec_words().len(),
                forall|q: int| 0 <= q < k ==> (#[trigger] self.spec_words()[q]).id != id,
            decreases self.spec_words().len() - k,
        {
            if self.word_map[k].id == id {
                return Some(k);
            }
            k += 1;
        }
        None
    }

    proof fn lemma_word_index(self, id: usize, k: int)
        requires
            self.wf(),
            0 <= k < self.spec_words().len(),
            self.spec_words()[k].id == id,
        ensures
            self.spec_word_index(id) == k,
            self.spec_has_word(id),
            self.spec_word(id) == self.spec_words()[k].word,
    {
        let j = self.spec_word_index(id);
        if j != k {
            if j < k {
                assert(self.spec_words()[j].id < self.spec_words()[k].id);
            } else {
                assert(self.spec_words()[k].id < self.spec_words()[j].id);
            }
        }
    }

    /// The word stored under `word_id`, or `WordNotFound`.
    pub fn get_word(&self, word_id: usize) -> (r: Result<&Word, CrosswordError>)
        requires
            self.wf(),
        ensures
            match r {
                Ok(w) => self.spec_has_word(word_id) && *w == self.spec_word(word_id),
                Err(e) => !self.spec_has_word(word_id) && e == CrosswordError::WordNotFound(
                    word_id,
                ),
            },
    {
        match self.find_word_index(word_id) {
            Some(k) => {
                proof {
                    self.lemma_word_index(word_id, k as int);
                }
                Ok(&self.word_map[k].word)
            },
            None => Err(CrosswordError::WordNotFound(word_id)),
        }
    }

    /// The cell at `location`, or `CellNotFound` when it lies outside the
    /// bounding box.
    pub fn get_cell(&self, location: &Location) -> (r: Result<&Cell, CrosswordError>)
        requires
            self.wf(),
        ensures
            match r {
                Ok(c) => self.spec_in_box(location.0 as int, location.1 as int) && *c
                    == self.spec_cell(location.0 as int, location.1 as int),
                Err(e) => !self.spec_in_box(location.0 as int, location.1 as int) && e
                    == CrosswordError::CellNotFound(*location),
            },
    {
        if location.0 >= self.top_left_cell_index.0 && location.0 <= self.bottom_right_cell_index.0
            && location.1 >= self.top_left_cell_index.1 && location.1
            <= self.bottom_right_cell_index.1 {
            let r = (location.0 - self.top_left_cell_index.0) as usize;
            let c = (location.1 - self.top_left_cell_index.1) as usize;
            Ok(&self.cells[r][c])
        } else {
            Err(CrosswordError::CellNotFound(*location))
        }
    }

    /// The cell at absolute coordinates (row, col), which must lie inside
    /// the box.
    pub(crate) fn cell_at(&self, row: isize, col: isize) -> (r: Cell)
        requires
            self.wf(),
            self.spec_in_box(row as int, col as int),
        ensures
            r == self.spec_cell(row as int, col as int),
    {
        let rr = (row - self.top_left_cell_index.0) as usize;
        let cc = (col - self.top_left_cell_index.1) as usize;
        self.cells[rr][cc]
    }

    /// Overwrite the cell at `location`, which must lie inside the box.
    fn set_cell(&mut self, location: &Location, cell: Cell)
        requires
            old(self).wf(),
            old(self).spec_in_box(location.0 as int, location.1 as int),
        ensures
            final(self).wf(),
            final(self).spec_words() == old(self).spec_words(),
            final(self).spec_top_left() == old(self).spec_top_left(),
            final(self).spec_bottom_right() == old(self).spec_bottom_right(),
            final(self).spec_rows() == old(self).spec_rows(),
            final(self).spec_cols() == old(self).spec_cols(),
            final(self).spec_cell(location.0 as int, location.1 as int) == cell,
            forall|r: int, c: int|
                old(self).spec_in_box(r, c) && !(r == location.0 && c == location.1)
                    ==> final(self).spec_cell(r, c) == old(self).spec_cell(r, c),
    {
        let r = (location.0 - self.top_left_cell_index.0) as usize;
        let c = (location.1 - self.top_left_cell_index.1) as usize;
        let mut row = self.cells.remove(r);
        row.set(c, cell);
        self.cells.insert(r, row);
        proof {
            old(self).cells@.remove_ensures(r as int);
            assert(self.cells@.len() == old(self).cells@.len());
            assert forall|k: int|
                0 <= k < self.cells@.len() && k != r implies self.cells@[k] == old(self).cells@[k] by {}
            assert(self.cells@[r as int]@ == old(self).cells@[r as int]@.update(c as int, cell));
        }
    }

    /// Every letter cell lies well inside the coordinate range used by
    /// placement, leaving room for boundary cells and buffer rows.
    pub open spec fn spec_letters_bounded(self) -> bool {
        forall|r: int, c: int|
            self.spec_in_box(r, c) && (#[trigger] self.spec_cell(r, c)).spec_is_filled()
                ==> -16381 <= r <= 16381 && -16381 <= c <= 16381
    }

    /// The box corners stay one cell inside the coordinate limit.
    pub open spec fn spec_box_bounded(self) -> bool {
        &&& self.spec_top_left().0 >= -16382
        &&& self.spec_top_left().1 >= -16382
        &&& self.spec_bottom_right().0 <= 16382
        &&& self.spec_bottom_right().1 <= 16382
    }

    /// Every placed word lies inside the box, letter by letter: each of its
    /// cells is filled with the right letter and owned by it in its
    /// direction.
    pub open spec fn spec_placement_ok(self) -> bool {
        forall|k: int|
            0 <= k < self.spec_words().len() ==> {
                let e = #[trigger] self.spec_words()[k];
                e.word.placement is Some ==> {
                    let p = e.word.placement.unwrap();
                    forall|i: int|
                        0 <= i < e.word.word_text@.len() ==> {
                            let l = #[trigger] spec_step(p.start_location, i, p.direction);
                            &&& self.spec_in_box(l.0 as int, l.1 as int)
                            &&& self.spec_cell(l.0 as int, l.1 as int).spec_is_filled()
                            &&& self.spec_cell(l.0 as int, l.1 as int).spec_letter()
                                == e.word.word_text@[i]
                            &&& self.spec_cell(l.0 as int, l.1 as int).spec_word_id(p.direction)
                                == Some(e.id)
                        }
                }
            }
    }

    /// The lowest id that no word in the map uses.
    pub fn find_lowest_unused_word_id(&self) -> (r: usize)
        requires
            self.wf(),
            self.spec_words().len() < usize::MAX,
        ensures
            !self.spec_has_word(r),
            forall|j: usize| j < r ==> self.spec_has_word(j),
    {
        let mut word_id: usize = 0;
        let mut k: usize = 0;
        while k < self.word_map.len()
            invariant
                self.wf(),
                self.spec_words().len() < usize::MAX,
                k <= self.spec_words().len(),
                word_id <= k,
                forall|j: usize| j < word_id ==> self.spec_has_word(j),
                forall|q: int| 0 <= q < k ==> (#[trigger] self.spec_words()[q]).id < word_id,
            decreases self.spec_words().len() - k,
        {
            if self.word_map[k].id == word_id {
                word_id += 1;
            } else if self.word_map[k].id > word_id {
                proof {
                    assert forall|q: int|
                        k as int <= q < self.spec_words().len() implies (
                        #[trigger] self.spec_words()[q]).id > word_id by {
                        if q > k {
                            assert(self.spec_words()[k as int].id < self.spec_words()[q].id);
                        }
                    }
                    if self.spec_has_word(word_id) {
                        let q = choose|q: int|
                            0 <= q < self.spec_words().len() && (
                            #[trigger] self.spec_words()[q]).id == word_id;
                        assert(q < k || q >= k);
                    }
                }
                return word_id;
            } else {
                proof {
                    assert(self.spec_words()[k as int].id < word_id);
                }
            }
            k += 1;
        }
        proof {
            if self.spec_has_word(word_id) {
                let q = choose|q: int|
                    0 <= q < self.spec_words().len() && (#[trigger] self.spec_words()[q]).id
                        == word_id;
            }
        }
        word_id
    }

    /// Store `word` under `word_id`, replacing any word already there.
    fn put_word(&mut self, word_id: usize, word: Word)
        requires
            old(self).wf(),
            word.wf(),
        ensures
            final(self).wf(),
            final(self).spec_has_word(word_id),
            final(self).spec_word(word_id) == word,
            final(self).spec_words().len() == old(self).spec_words().len() + if old(
                self,
            ).spec_has_word(word_id) {
                0int
            } else {
                1int
            },
            forall|j: usize|
                j != word_id ==> #[trigger] final(self).spec_has_word(j) == old(self).spec_has_word(j),
            forall|j: usize|
                j != word_id && old(self).spec_has_word(j) ==> #[trigger] final(self).spec_word(j)
                    == old(self).spec_word(j),
            final(self).spec_top_left() == old(self).spec_top_left(),
            final(self).spec_bottom_right() == old(self).spec_bottom_right(),
            final(self).spec_rows() == old(self).spec_rows(),
            final(self).spec_cols() == old(self).spec_cols(),
            forall|r: int, c: int|
                old(self).spec_in_box(r, c) ==> final(self).spec_cell(r, c) == old(self).spec_cell(
                    r,
                    c,
                ),
    {
        let mut k: usize = 0;
        while k < self.word_map.len() && self.word_map[k].id < word_id
            invariant
                self.wf(),
                self == old(self),
                k <= self.spec_words().len(),
                forall|q: int| 0 <= q < k ==> (#[trigger] self.spec_words()[q]).id < word_id,
            decreases self.spec_words().len() - k,
        {
            k += 1;
        }
        let ghost pre = self.word_map@;
        if k < self.word_map.len() && self.word_map[k].id == word_id {
            let mut e = self.word_map.remove(k);
            e.word = word;
            self.word_map.insert(k, e);
            proof {
                pre.remove_ensures(k as int);
                assert forall|q: int|
                    0 <= q < self.word_map@.len() && q != k implies self.word_map@[q] == pre[
                q] by {}
                assert(self.word_map@[k as int].id == word_id);
                assert(self.word_map@[k as int].word == word);
                self.lemma_put_post(*old(self), word_id, word, k as int);
            }
        } else {
            self.word_map.insert(k, WordEntry { id: word_id, word });
            proof {
                pre.insert_ensures(k as int, WordEntry { id: word_id, word });
                assert forall|q: int|
                    0 <= q < self.word_map@.len() implies (if q < k {
                        self.word_map@[q] == pre[q]
                    } else if q == k {
                        self.word_map@[q].id == word_id && self.word_map@[q].word == word
                    } else {
                        self.word_map@[q] == pre[q - 1]
                    }) by {}
                assert forall|p: int, q: int|
                    0 <= p < q < self.word_map@.len() implies (#[trigger] self.word_map@[p]).id
                    < (#[trigger] self.word_map@[q]).id by {
                    if p < k && q == k {
                        assert(pre[p].id < word_id);
                    } else if p == k && q > k {
                        assert(pre[q - 1].id >= word_id);
                        assert(pre[q - 1].id != word_id) by {
                            if pre[q - 1].id == word_id {
                                assert(old(self).spec_words()[q - 1].id == word_id);
                                assert(q - 1 >= k);
                                if q - 1 > k {
                                    assert(pre[k as int].id < pre[q - 1].id);
                                    assert(pre[k as int].id > word_id || pre[k as int].id
                                        == word_id || pre[k as int].id < word_id);
                                }
                            }
                        }
                    }
                }
                self.lemma_put_post(*old(self), word_id, word, k as int);
            }
        }
    }

    proof fn lemma_put_post(self, pre: CrosswordGrid, word_id: usize, word: Word, k: int)
        requires
            pre.wf(),
            self.uniq_ids(),
            0 <= k < self.spec_words().len(),
            self.spec_words()[k].id == word_id,
            self.spec_words()[k].word == word,
            self.spec_words().len() == pre.spec_words().len() || self.spec_words().len()
                == pre.spec_words().len() + 1,
            forall|q: int|
                0 <= q < self.spec_words().len() && q != k ==> (#[trigger] self.spec_words()[q])
                    == pre.spec_words()[if q < k {
                    q
                } else if self.spec_words().len() == pre.spec_words().len() {
                    q
                } else {
                    q - 1
                }],
            self.spec_words().len() == pre.spec_words().len() ==> pre.spec_words()[k].id
                == word_id,
            forall|q: int|
                0 <= q < pre.spec_words().len() && self.spec_words().len()
                    == pre.spec_words().len() + 1 ==> (#[trigger] pre.spec_words()[q]).id
                    != word_id,
        ensures
            self.spec_has_word(word_id),
            self.spec_word(word_id) == word,
            forall|j: usize|
                j != word_id ==> #[trigger] self.spec_has_word(j) == pre.spec_has_word(j),
            forall|j: usize|
                j != word_id && pre.spec_has_word(j) ==> #[trigger] self.spec_word(j)
                    == pre.spec_word(j),
    {
        self.lemma_word_index_u(word_id, k);
        let grew = self.spec_words().len() == pre.spec_words().len() + 1;
        assert forall|j: usize|
            j != word_id implies #[trigger] self.spec_has_word(j) == pre.spec_has_word(j) by {
            if self.spec_has_word(j) {
                let q = choose|q: int|
                    0 <= q < self.spec_words().len() && (#[trigger] self.spec_words()[q]).id
                        == j;
                assert(q != k);
                if grew {
                    if q < k {
                        assert(pre.spec_words()[q].id == j);
                    } else {
                        assert(pre.spec_words()[q - 1].id == j);
                    }
                } else {
                    assert(pre.spec_words()[q].id == j);
                }
            }
            if pre.spec_has_word(j) {
                let q = choose|q: int|
                    0 <= q < pre.spec_words().len() && (#[trigger] pre.spec_words()[q]).id == j;
                if grew {
                    if q < k {
                        assert(self.spec_words()[q].id == j);
                    } else {
                        assert(self.spec_words()[q + 1] == pre.spec_words()[q]);
                        assert(self.spec_words()[q + 1].id == j);
                    }
                } else {
                    assert(self.spec_words()[q].id == j);
                }
            }
        }
        assert forall|j: usize|
            j != word_id && pre.spec_has_word(j) implies #[trigger] self.spec_word(j)
            == pre.spec_word(j) by {
            let q = choose|q: int|
                0 <= q < pre.spec_words().len() && (#[trigger] pre.spec_words()[q]).id == j;
            pre.lemma_word_index(j, q);
            if grew {
                if q < k {
                    self.lemma_word_index_u(j, q);
                } else {
                    assert(self.spec_words()[q + 1] == pre.spec_words()[q]);
                    self.lemma_word_index_u(j, q + 1);
                }
            } else {
                self.lemma_word_index_u(j, q);
            }
        }
    }

    /// Uniqueness of word ids, without the rest of well-formedness.
    pub open spec fn uniq_ids(self) -> bool {
        forall|p: int, q: int|
            0 <= p < q < self.spec_words().len() ==> (#[trigger] self.spec_words()[p]).id < (
            #[trigger] self.spec_words()[q]).id
    }

    proof fn lemma_word_index_u(self, id: usize, k: int)
        requires
            self.uniq_ids(),
            0 <= k < self.spec_words().len(),
            self.spec_words()[k].id == id,
        ensures
            self.spec_word_index(id) == k,
            self.spec_has_word(id),
            self.spec_word(id) == self.spec_words()[k].word,
    {
        let j = self.spec_word_index(id);
        if j != k {
            if j < k {
                assert(self.spec_words()[j].id < self.spec_words()[k].id);
            } else {
                assert(self.spec_words()[k].id < self.spec_words()[j].id);
            }
        }
    }

    /// Add a word with no placement under the given id, replacing any word
    /// already stored there.
    pub fn add_unplaced_word_at_id(
        &mut self,
        word_text: &str,
        clue: &str,
        word_id: usize,
        required_direction: Option<Direction>,
    )
        requires
            old(self).wf(),
        ensures
            final(self).wf(),
            final(self).spec_has_word(word_id),
            final(self).spec_word(word_id).word_text@ == word_text@,
            final(self).spec_word(word_id).clue@ == clue@,
            !final(self).spec_word(word_id).spec_is_placed(),
            final(self).spec_word(word_id).required_direction == required_direction,
            forall|j: usize|
                j != word_id ==> #[trigger] final(self).spec_has_word(j) == old(self).spec_has_word(j),
            forall|j: usize|
                j != word_id && old(self).spec_has_word(j) ==> #[trigger] final(self).spec_word(j)
                    == old(self).spec_word(j),
            final(self).spec_words().len() == old(self).spec_words().len() + if old(
                self,
            ).spec_has_word(word_id) {
                0int
            } else {
                1int
            },
            final(self).spec_top_left() == old(self).spec_top_left(),
            final(self).spec_bottom_right() == old(self).spec_bottom_right(),
            forall|r: int, c: int|
                old(self).spec_in_box(r, c) ==> final(self).spec_cell(r, c) == old(self).spec_cell(
                    r,
                    c,
                ),
    {
        let word = Word::new_unplaced(word_text, clue, required_direction);
        self.put_word(word_id, word);
    }

    /// Add a word with no placement under the lowest unused id; returns that
    /// id.
    pub fn add_unplaced_word(
        &mut self,
        word_text: &str,
        clue: &str,
        required_direction: Option<Direction>,
    ) -> (r: usize)
        requires
            old(self).wf(),
            old(self).spec_words().len() < usize::MAX,
        ensures
            final(self).wf(),
            !old(self).spec_has_word(r),
            forall|j: usize| j < r ==> old(self).spec_has_word(j),
            final(self).spec_has_word(r),
            final(self).spec_word(r).word_text@ == word_text@,
            !final(self).spec_word(r).spec_is_placed(),
            final(self).spec_word(r).required_direction == required_direction,
            forall|j: usize|
                j != r ==> #[trigger] final(self).spec_has_word(j) == old(self).spec_has_word(j),
            forall|j: usize|
                j != r && old(self).spec_has_word(j) ==> #[trigger] final(self).spec_word(j)
                    == old(self).spec_word(j),
            final(self).spec_words().len() == old(self).spec_words().len() + 1,
            final(self).spec_top_left() == old(self).spec_top_left(),
            final(self).spec_bottom_right() == old(self).spec_bottom_right(),
            forall|r2: int, c: int|
                old(self).spec_in_box(r2, c) ==> final(self).spec_cell(r2, c) == old(self).spec_cell(r2, c),
    {
        let word_id = self.find_lowest_unused_word_id();
        self.add_unplaced_word_at_id(word_text, clue, word_id, required_direction);
        word_id
    }

    /// The letters of row `r` at interior columns before `c`.
    pub open spec fn spec_render_row(self, r: int, c: int) -> Seq<char>
        decreases c - self.spec_top_left().1 - 1,
    {
        if c <= self.spec_top_left().1 + 1 {
            Seq::<char>::empty()
        } else {
            self.spec_render_row(r, c - 1).push(self.spec_cell(r, c - 1).spec_letter())
        }
    }

    /// The rendering of the interior rows before `r`, one line per row.
    pub open spec fn spec_render_rows(self, r: int) -> Seq<char>
        decreases r - self.spec_top_left().0 - 1,
    {
        if r <= self.spec_top_left().0 + 1 {
            Seq::<char>::empty()
        } else {
            self.spec_render_rows(r - 1) + self.spec_render_row(
                r - 1,
                self.spec_bottom_right().1 as int,
            ) + seq!['\n']
        }
    }

    /// The textual rendering: the interior of the box, row by row, a space
    /// for each cell without a letter, a newline after each row.
    pub open spec fn spec_render(self) -> Seq<char> {
        self.spec_render_rows(self.spec_bottom_right().0 as int)
    }

    /// Render the grid interior as text.
    pub fn to_string(&self) -> (r: String)
        requires
            self.wf(),
        ensures
            r@ == self.spec_render(),
    {
        let mut out: Vec<char> = Vec::new();
        let mut row = self.top_left_cell_index.0 + 1;
        while row < self.bottom_right_cell_index.0
            invariant
                self.wf(),
                self.spec_top_left().0 + 1 <= row as int <= vstd::math::max(
                    self.spec_bottom_right().0 as int,
                    self.spec_top_left().0 + 1,
                ),
                out@ == self.spec_render_rows(row as int),
            decreases self.spec_bottom_right().0 - row,
        {
            let mut col = self.top_left_cell_index.1 + 1;
            while col < self.bottom_right_cell_index.1
                invariant
                    self.wf(),
                    self.spec_top_left().0 + 1 <= row as int,
                    (row as int) < self.spec_bottom_right().0,
                    self.spec_top_left().1 + 1 <= col as int <= vstd::math::max(
                        self.spec_bottom_right().1 as int,
                        self.spec_top_left().1 + 1,
                    ),
                    out@ == self.spec_render_rows(row as int) + self.spec_render_row(
                        row as int,
                        col as int,
                    ),
                decreases self.spec_bottom_right().1 - col,
            {
                let c = self.cell_at(row, col).to_char();
                out.push(c);
                col += 1;
                proof {
                    assert(out@ =~= self.spec_render_rows(row as int) + self.spec_render_row(
                        row as int,
                        col as int,
                    ));
                }
            }
            out.push('\n');
            row += 1;
            proof {
                assert(out@ =~= self.spec_render_rows(row as int));
            }
        }
        chars_to_string(&out)
    }

    /// An intersection cell exists whose across owner is `a` and whose down
    /// owner is `b`.
    pub open spec fn spec_word_edge(self, a: usize, b: usize) -> bool {
        exists|rr: int, cc: int|
            self.spec_in_box(rr, cc) && (#[trigger] self.spec_cell(rr, cc)).spec_across() == Some(
                a,
            ) && self.spec_cell(rr, cc).spec_down() == Some(b)
    }

    /// As `spec_word_edge`, but only over cells scanned before (row, col) in
    /// row-major order.
    pub open spec fn spec_word_edge_upto(self, row: int, col: int, a: usize, b: usize) -> bool {
        exists|rr: int, cc: int|
            self.spec_in_box(rr, cc) && (rr < row || (rr == row && cc < col)) && (
            #[trigger] self.spec_cell(rr, cc)).spec_across() == Some(a) && self.spec_cell(
                rr,
                cc,
            ).spec_down() == Some(b)
    }

    /// Every intersection cell's pair of owners, in scan order.
    fn get_all_intersections(&self) -> (r: Vec<(usize, usize)>)
        requires
            self.wf(),
        ensures
            forall|a: usize, b: usize|
                r@.contains((a, b)) == self.spec_word_edge(a, b),
    {
        let mut edges: Vec<(usize, usize)> = Vec::new();
        let mut row = self.top_left_cell_index.0;
        while row <= self.bottom_right_cell_index.0
            invariant
                self.wf(),
                self.spec_top_left().0 <= row as int <= self.spec_bottom_right().0 + 1,
                forall|a: usize, b: usize|
                    edges@.contains((a, b)) == self.spec_word_edge_upto(
                        row as int,
                        self.spec_top_left().1 as int,
                        a,
                        b,
                    ),
            decreases self.spec_bottom_right().0 + 1 - row,
        {
            let mut col = self.top_left_cell_index.1;
            while col <= self.bottom_right_cell_index.1
                invariant
                    self.wf(),
                    self.spec_top_left().0 <= row as int <= self.spec_bottom_right().0,
                    self.spec_top_left().1 <= col as int <= self.spec_bottom_right().1 + 1,
                    forall|a: usize, b: usize|
                        edges@.contains((a, b)) == self.spec_word_edge_upto(
                            row as int,
                            col as int,
                            a,
                            b,
                        ),
                decreases self.spec_bottom_right().1 + 1 - col,
            {
                let cell = self.cell_at(row, col);
                let ghost pre = edges@;
                if cell.is_intersection() {
                    let a = match cell.get_across_word_id() {
                        Some(a) => a,
                        None => 0,
                    };
                    let b = match cell.get_down_word_id() {
                        Some(b) => b,
                        None => 0,
                    };
                    edges.push((a, b));
                }
                col += 1;
                proof {
                    self.lemma_edge_scan_step(pre, edges@, row as int, col as int);
                }
            }
            row += 1;
            proof {
                assert forall|a: usize, b: usize|
                    edges@.contains((a, b)) == self.spec_word_edge_upto(
                        row as int,
                        self.spec_top_left().1 as int,
                        a,
                        b,
                    ) by {
                    assert(self.spec_word_edge_upto(
                        row as int,
                        self.spec_top_left().1 as int,
                        a,
                        b,
                    ) == self.spec_word_edge_upto(
                        row - 1,
                        self.spec_bottom_right().1 + 1,
                        a,
                        b,
                    )) by {
                        if self.spec_word_edge_upto(
                            row as int,
                            self.spec_top_left().1 as int,
                            a,
                            b,
                        ) {
                            let (rr, cc) = choose|rr: int, cc: int|
                                self.spec_in_box(rr, cc) && (rr < row as int || (rr == row as int
                                    && cc < self.spec_top_left().1)) && (
                                #[trigger] self.spec_cell(rr, cc)).spec_across() == Some(a)
                                    && self.spec_cell(rr, cc).spec_down() == Some(b);
                            assert(rr < row as int);
                        }
                    }
                }
            }
        }
        proof {
            assert forall|a: usize, b: usize|
                edges@.contains((a, b)) == self.spec_word_edge(a, b) by {
                let row = self.spec_bottom_right().0 + 1;
                if self.spec_word_edge(a, b) {
                    let (rr, cc) = choose|rr: int, cc: int|
                        self.spec_in_box(rr, cc) && (#[trigger] self.spec_cell(
                            rr,
                            cc,
                        )).spec_across() == Some(a) && self.spec_cell(rr, cc).spec_down()
                            == Some(b);
                    assert(self.spec_word_edge_upto(
                        row,
                        self.spec_top_left().1 as int,
                        a,
                        b,
                    ));
                }
                if self.spec_word_edge_upto(row, self.spec_top_left().1 as int, a, b) {
                    let (rr, cc) = choose|rr: int, cc: int|
                        self.spec_in_box(rr, cc) && (rr < row || (rr == row && cc
                            < self.spec_top_left().1)) && (#[trigger] self.spec_cell(
                            rr,
                            cc,
                        )).spec_across() == Some(a) && self.spec_cell(rr, cc).spec_down()
                            == Some(b);
                    assert(self.spec_word_edge(a, b));
                }
            }
        }
        edges
    }

    /// One scan step accounts for exactly the cell that was just passed.
    proof fn lemma_edge_scan_step(
        self,
        pre: Seq<(usize, usize)>,
        post: Seq<(usize, usize)>,
        row: int,
        col: int,
    )
        requires
            self.wf(),
            self.spec_top_left().0 <= row <= self.spec_bottom_right().0,
            self.spec_top_left().1 < col <= self.spec_bottom_right().1 + 1,
            forall|a: usize, b: usize|
                pre.contains((a, b)) == self.spec_word_edge_upto(row, col - 1, a, b),
            if self.spec_cell(row, col - 1).spec_is_intersection() {
                post == pre.push(
                    (
                        self.spec_cell(row, col - 1).spec_across().unwrap(),
                        self.spec_cell(row, col - 1).spec_down().unwrap(),
                    ),
                )
            } else {
                post == pre
            },
        ensures
            forall|a: usize, b: usize|
                post.contains((a, b)) == self.spec_word_edge_upto(row, col, a, b),
    {
        assert forall|a: usize, b: usize|
            post.contains((a, b)) == self.spec_word_edge_upto(row, col, a, b) by {
            if post.contains((a, b)) {
                let w = choose|w: int| 0 <= w < post.len() && post[w] == (a, b);
                if w < pre.len() {
                    assert(pre[w] == (a, b));
                    assert(pre.contains((a, b)));
                    let (rr, cc) = choose|rr: int, cc: int|
                        self.spec_in_box(rr, cc) && (rr < row || (rr == row && cc < col - 1))
                            && (#[trigger] self.spec_cell(rr, cc)).spec_across() == Some(a)
                            && self.spec_cell(rr, cc).spec_down() == Some(b);
                    assert(self.spec_word_edge_upto(row, col, a, b));
                } else {
                    assert(self.spec_cell(row, col - 1).spec_across() == Some(a));
                    assert(self.spec_cell(row, col - 1).spec_down() == Some(b));
                    assert(self.spec_word_edge_upto(row, col, a, b));
                }
            }
            if self.spec_word_edge_upto(row, col, a, b) {
                let (rr, cc) = choose|rr: int, cc: int|
                    self.spec_in_box(rr, cc) && (rr < row || (rr == row && cc < col)) && (
                    #[trigger] self.spec_cell(rr, cc)).spec_across() == Some(a)
                        && self.spec_cell(rr, cc).spec_down() == Some(b);
                if rr == row && cc == col - 1 {
                    assert(self.spec_cell(row, col - 1).spec_is_intersection());
                    assert(post.last() == (a, b));
                } else {
                    assert(self.spec_word_edge_upto(row, col - 1, a, b));
                    assert(pre.contains((a, b)));
                    let w = choose|w: int| 0 <= w < pre.len() && pre[w] == (a, b);
                    assert(post[w] == (a, b));
                    assert(post.contains((a, b)));
                }
            }
        }
    }

    /// Is `id` a word of this grid with a placement?
    pub open spec fn spec_is_placed_word(self, id: usize) -> bool {
        self.spec_has_word(id) && self.spec_word(id).spec_is_placed()
    }

    /// The grid's word graph matches `g`: nodes are the placed word ids and
    /// the endpoints of intersections, edges are the intersections.
    pub open spec fn spec_graph_matches(self, g: Graph) -> bool {
        &&& (forall|x: usize|
            g.spec_has_node(x) == (self.spec_is_placed_word(x) || exists|b: usize|
                #![trigger self.spec_word_edge(x, b)]
                #![trigger self.spec_word_edge(b, x)]
                (self.spec_word_edge(x, b) || self.spec_word_edge(b, x))))
        &&& (forall|a: usize, b: usize|
            #[trigger] g.spec_has_edge(a, b) == (self.spec_word_edge(a, b)
                || self.spec_word_edge(b, a)))
    }

    /// Every graph that matches this grid's words and intersections is
    /// connected.
    pub open spec fn spec_word_graph_connected(self) -> bool {
        forall|g: Graph| #[trigger] self.spec_graph_matches(g) ==> g.spec_connected()
    }

    /// Build the word-intersection graph: one node per placed word, one
    /// undirected edge per intersection cell.
    pub fn to_graph(&self) -> (g: Graph)
        requires
            self.wf(),
        ensures
            g.well_formed(),
            self.spec_graph_matches(g),
    {
        let edges = self.get_all_intersections();
        let mut graph = Graph::new_from_edges(edges);
        let ghost g0 = graph;
        let mut k: usize = 0;
        while k < self.word_map.len()
            invariant
                self.wf(),
                graph.well_formed(),
                k <= self.spec_words().len(),
                forall|a: usize, b: usize|
                    graph.spec_has_edge(a, b) == g0.spec_has_edge(a, b),
                forall|x: usize|
                    graph.spec_has_node(x) == (g0.spec_has_node(x) || exists|q: int|
                        0 <= q < k && (#[trigger] self.spec_words()[q]).id == x
                            && self.spec_words()[q].word.spec_is_placed()),
            decreases self.spec_words().len() - k,
        {
            let ghost gpre = graph;
            if self.word_map[k].word.is_placed() {
                graph.add_node(self.word_map[k].id);
            }
            k += 1;
            proof {
                assert forall|x: usize|
                    graph.spec_has_node(x) == (g0.spec_has_node(x) || exists|q: int|
                        0 <= q < k && (#[trigger] self.spec_words()[q]).id == x
                            && self.spec_words()[q].word.spec_is_placed()) by {
                    if graph.spec_has_node(x) {
                        if !g0.spec_has_node(x) {
                            if gpre.spec_has_node(x) {
                                let q = choose|q: int|
                                    0 <= q < k - 1 && (#[trigger] self.spec_words()[q]).id == x
                                        && self.spec_words()[q].word.spec_is_placed();
                                assert(self.spec_words()[q].id == x);
                            } else {
                                assert(self.spec_words()[k - 1].id == x
                                    && self.spec_words()[k - 1].word.spec_is_placed());
                            }
                        }
                    }
                    if exists|q: int|
                        0 <= q < k && (#[trigger] self.spec_words()[q]).id == x
                            && self.spec_words()[q].word.spec_is_placed() {
                        let q = choose|q: int|
                            0 <= q < k && (#[trigger] self.spec_words()[q]).id == x
                                && self.spec_words()[q].word.spec_is_placed();
                        if q < k - 1 {
                            assert(gpre.spec_has_node(x));
                        }
                    }
                }
            }
        }
        proof {
            assert forall|x: usize|
                graph.spec_has_node(x) == (self.spec_is_placed_word(x) || exists|b: usize|
                    #![trigger self.spec_word_edge(x, b)]
                    #![trigger self.spec_word_edge(b, x)]
                    (self.spec_word_edge(x, b) || self.spec_word_edge(b, x))) by {
                if graph.spec_has_node(x) {
                    if g0.spec_has_node(x) {
                        assert(edge_list_has_endpoint(edges@, x));
                        let k2 = choose|k2: int|
                            0 <= k2 < edges@.len() && ((#[trigger] edges@[k2]).0 == x
                                || edges@[k2].1 == x);
                        let pair = edges@[k2];
                        assert(edges@.contains(pair));
                        assert(self.spec_word_edge(pair.0, pair.1));
                        if pair.0 == x {
                            assert(self.spec_word_edge(x, pair.1));
                        } else {
                            assert(self.spec_word_edge(pair.0, x));
                        }
                    } else {
                        let q = choose|q: int|
                            0 <= q < self.spec_words().len() && (
                            #[trigger] self.spec_words()[q]).id == x
                                && self.spec_words()[q].word.spec_is_placed();
                        self.lemma_word_index(x, q);
                        assert(self.spec_is_placed_word(x));
                    }
                }
                if self.spec_is_placed_word(x) {
                    let q = self.spec_word_index(x);
                    assert(self.spec_words()[q].id == x
                        && self.spec_words()[q].word.spec_is_placed());
                }
                if exists|b: usize|
                    #![trigger self.spec_word_edge(x, b)]
                    #![trigger self.spec_word_edge(b, x)]
                    (self.spec_word_edge(x, b) || self.spec_word_edge(b, x)) {
                    let b = choose|b: usize|
                        #![trigger self.spec_word_edge(x, b)]
                        #![trigger self.spec_word_edge(b, x)]
                        (self.spec_word_edge(x, b) || self.spec_word_edge(b, x));
                    if self.spec_word_edge(x, b) {
                        assert(edges@.contains((x, b)));
                        assert(edge_list_has_endpoint(edges@, x)) by {
                            let w = choose|w: int|
                                0 <= w < edges@.len() && edges@[w] == (x, b);
                            assert((#[trigger] edges@[w]).0 == x);
                        }
                        assert(g0.spec_has_node(x));
                    } else {
                        assert(edges@.contains((b, x)));
                        assert(edge_list_has_endpoint(edges@, x)) by {
                            let w = choose|w: int|
                                0 <= w < edges@.len() && edges@[w] == (b, x);
                            assert((#[trigger] edges@[w]).1 == x);
                        }
                        assert(g0.spec_has_node(x));
                    }
                }
            }
            assert forall|a: usize, b: usize|
                #[trigger] graph.spec_has_edge(a, b) == (self.spec_word_edge(a, b)
                    || self.spec_word_edge(b, a)) by {
                assert(graph.spec_has_edge(a, b) == (edges@.contains((a, b)) || edges@.contains(
                    (b, a),
                )));
            }
        }
        graph
    }

    /// Are all owner ids written in cells ids of stored words?
    pub open spec fn spec_cell_ids_valid(self) -> bool {
        forall|r: int, c: int|
            self.spec_in_box(r, c) ==> {
                let cell = #[trigger] self.spec_cell(r, c);
                &&& (cell.spec_across() is Some ==> self.spec_has_word(cell.spec_across().unwrap()))
                &&& (cell.spec_down() is Some ==> self.spec_has_word(cell.spec_down().unwrap()))
            }
    }

    /// Check the grid's structural soundness: every owner id written in a
    /// cell names a stored word, and the word-intersection graph is one
    /// connected component.
    pub fn check_valid(&self) -> (r: bool)
        requires
            self.wf(),
        ensures
            r == (self.spec_cell_ids_valid() && self.spec_word_graph_connected()),
    {
        let mut ids_ok = true;
        let mut row = self.top_left_cell_index.0;
        while row <= self.bottom_right_cell_index.0
            invariant
                self.wf(),
                self.spec_top_left().0 <= row as int <= self.spec_bottom_right().0 + 1,
                ids_ok == (forall|r: int, c: int|
                    self.spec_in_box(r, c) && r < row as int ==> {
                        let cell = #[trigger] self.spec_cell(r, c);
                        &&& (cell.spec_across() is Some ==> self.spec_has_word(
                            cell.spec_across().unwrap(),
                        ))
                        &&& (cell.spec_down() is Some ==> self.spec_has_word(
                            cell.spec_down().unwrap(),
                        ))
                    }),
            decreases self.spec_bottom_right().0 + 1 - row,
        {
            let mut col = self.top_left_cell_index.1;
            while col <= self.bottom_right_cell_index.1
                invariant
                    self.wf(),
                    self.spec_top_left().0 <= row as int <= self.spec_bottom_right().0,
                    self.spec_top_left().1 <= col as int <= self.spec_bottom_right().1 + 1,
                    ids_ok == (forall|r: int, c: int|
                        self.spec_in_box(r, c) && (r < row as int || (r == row as int && c
                            < col as int)) ==> {
                            let cell = #[trigger] self.spec_cell(r, c);
                            &&& (cell.spec_across() is Some ==> self.spec_has_word(
                                cell.spec_across().unwrap(),
                            ))
                            &&& (cell.spec_down() is Some ==> self.spec_has_word(
                                cell.spec_down().unwrap(),
                            ))
                        }),
                decreases self.spec_bottom_right().1 + 1 - col,
            {
                let cell = self.cell_at(row, col);
                let ghost pre_ok = ids_ok;
                if let Some(id) = cell.get_across_word_id() {
                    if self.find_word_index(id).is_none() {
                        ids_ok = false;
                    }
                }
                if let Some(id) = cell.get_down_word_id() {
                    if self.find_word_index(id).is_none() {
                        ids_ok = false;
                    }
                }
                col += 1;
                proof {
                    assert forall|r: int, c: int|
                        self.spec_in_box(r, c) && (r < row as int || (r == row as int && c
                            < col as int)) && ids_ok implies {
                        let cell2 = #[trigger] self.spec_cell(r, c);
                        &&& (cell2.spec_across() is Some ==> self.spec_has_word(
                            cell2.spec_across().unwrap(),
                        ))
                        &&& (cell2.spec_down() is Some ==> self.spec_has_word(
                            cell2.spec_down().unwrap(),
                        ))
                    } by {
                        if !(r == row as int && c == col - 1) {
                            assert(pre_ok);
                        }
                    }
                    if !ids_ok {
                        assert(!(forall|r: int, c: int|
                            self.spec_in_box(r, c) && (r < row as int || (r == row as int && c
                                < col as int)) ==> {
                                let cell2 = #[trigger] self.spec_cell(r, c);
                                &&& (cell2.spec_across() is Some ==> self.spec_has_word(
                                    cell2.spec_across().unwrap(),
                                ))
                                &&& (cell2.spec_down() is Some ==> self.spec_has_word(
                                    cell2.spec_down().unwrap(),
                                ))
                            })) by {
                            if pre_ok {
                                assert(self.spec_in_box(row as int, col - 1));
                            }
                        }
                    }
                }
            }
            row += 1;
        }
        let graph = self.to_graph();
        let connected = graph.is_connected();
        proof {
            if connected {
                assert forall|g2: Graph| #[trigger] self.spec_graph_matches(g2)
                    implies g2.spec_connected() by {
                    crate::graph::Graph::lemma_connected_ext(graph, g2);
                }
            } else {
                assert(self.spec_graph_matches(graph));
            }
            assert(ids_ok == self.spec_cell_ids_valid());
        }
        ids_ok && connected
    }


    /// Two grids with the same cells and corners agree on letters and fit.
    proof fn lemma_same_cells_shape(self, other: CrosswordGrid)
        requires
            self.cells == other.cells,
            self.top_left_cell_index == other.top_left_cell_index,
            self.bottom_right_cell_index == other.bottom_right_cell_index,
        ensures
            self.spec_fitted() == other.spec_fitted(),
            self.spec_has_letter() == other.spec_has_letter(),
    {
        assert forall|r: int|
            #[trigger] self.spec_row_has_letter(r) == other.spec_row_has_letter(r) by {
            if self.spec_row_has_letter(r) {
                let c = choose|c: int|
                    self.spec_top_left().1 <= c <= self.spec_bottom_right().1 && (
                    #[trigger] self.spec_cell(r, c)).spec_is_filled();
                assert(other.spec_cell(r, c).spec_is_filled());
                assert(other.spec_row_has_letter(r));
            }
            if other.spec_row_has_letter(r) {
                let c = choose|c: int|
                    other.spec_top_left().1 <= c <= other.spec_bottom_right().1 && (
                    #[trigger] other.spec_cell(r, c)).spec_is_filled();
                assert(self.spec_cell(r, c).spec_is_filled());
                assert(self.spec_row_has_letter(r));
            }
        }
        assert forall|c: int|
            #[trigger] self.spec_col_has_letter(c) == other.spec_col_has_letter(c) by {
            if self.spec_col_has_letter(c) {
                let r = choose|r: int|
                    self.spec_top_left().0 <= r <= self.spec_bottom_right().0 && (
                    #[trigger] self.spec_cell(r, c)).spec_is_filled();
                assert(other.spec_cell(r, c).spec_is_filled());
                assert(other.spec_col_has_letter(c));
            }
            if other.spec_col_has_letter(c) {
                let r = choose|r: int|
                    other.spec_top_left().0 <= r <= other.spec_bottom_right().0 && (
                    #[trigger] other.spec_cell(r, c)).spec_is_filled();
                assert(self.spec_cell(r, c).spec_is_filled());
                assert(self.spec_col_has_letter(c));
            }
        }
        if self.spec_has_letter() {
            let r = choose|r: int|
                self.spec_top_left().0 <= r <= self.spec_bottom_right().0
                    && #[trigger] self.spec_row_has_letter(r);
            assert(other.spec_row_has_letter(r));
            assert(other.spec_has_letter());
        }
        if other.spec_has_letter() {
            let r = choose|r: int|
                other.spec_top_left().0 <= r <= other.spec_bottom_right().0
                    && #[trigger] other.spec_row_has_letter(r);
            assert(self.spec_row_has_letter(r));
            assert(self.spec_has_letter());
        }
    }

    /// Build a grid from parts that already satisfy the shape rules.
    pub(crate) fn assemble(
        cells: Vec<Vec<Cell>>,
        word_map: Vec<WordEntry>,
        top_left: Location,
        bottom_right: Location,
    ) -> (g: CrosswordGrid)
        requires
            cells@.len() >= 1,
            cells@[0]@.len() >= 1,
            forall|k: int| 0 <= k < cells@.len() ==> (#[trigger] cells@[k]@.len()) == cells@[0]@.len(),
            bottom_right.0 == top_left.0 + cells@.len() - 1,
            bottom_right.1 == top_left.1 + cells@[0]@.len() - 1,
            -COORD_LIMIT <= top_left.0,
            -COORD_LIMIT <= top_left.1,
            bottom_right.0 <= COORD_LIMIT,
            bottom_right.1 <= COORD_LIMIT,
            forall|p: int, q: int|
                0 <= p < q < word_map@.len() ==> (#[trigger] word_map@[p]).id < (
                #[trigger] word_map@[q]).id,
            forall|k: int| 0 <= k < word_map@.len() ==> (#[trigger] word_map@[k]).word.wf(),
        ensures
            g.wf(),
            g.spec_words() == word_map@,
            g.spec_top_left() == top_left,
            g.spec_bottom_right() == bottom_right,
            forall|r: int, c: int|
                g.spec_in_box(r, c) ==> g.spec_cell(r, c) == cells@[r - top_left.0]@[c
                    - top_left.1],
    {
        CrosswordGrid { cells, word_map, top_left_cell_index: top_left, bottom_right_cell_index: bottom_right }
    }

    /// A grid holding just the given rendering, most often a single word:
    /// each character of the text sits on its row and column, everything
    /// else is empty, and nothing is black.
    pub fn new_single_word(word: &str) -> (g: CrosswordGrid)
        requires
            word@.len() < 8000,
        ensures
            g.wf(),
            forall|r: int, c: int|
                #[trigger] g.spec_in_box(r, c) ==> builder::builder_cell_ok(
                    g.spec_cell(r, c),
                    word@,
                    r,
                    c,
                ),
            forall|r: int, c: int|
                #[trigger] builder::spec_text_char(word@, r, c) != ' ' ==> g.spec_in_box(r, c),
    {
        let mut builder = CrosswordGridBuilder::new();
        builder.from_string(word)
    }

    /// Some entry of `s` carries the id `x`.
    pub open spec fn seq_has_id(s: Seq<WordEntry>, x: usize) -> bool {
        exists|q: int| 0 <= q < s.len() && (#[trigger] s[q]).id == x
    }

    /// Two id-sorted word maps with the same id membership list the same
    /// ids at the same positions.
    pub proof fn lemma_same_ids_pointwise(a: Seq<WordEntry>, b: Seq<WordEntry>)
        requires
            forall|p: int, q: int|
                0 <= p < q < a.len() ==> (#[trigger] a[p]).id < (#[trigger] a[q]).id,
            forall|p: int, q: int|
                0 <= p < q < b.len() ==> (#[trigger] b[p]).id < (#[trigger] b[q]).id,
            forall|x: usize|
                #[trigger] CrosswordGrid::seq_has_id(a, x) == CrosswordGrid::seq_has_id(b, x),
        ensures
            a.len() == b.len(),
            forall|q: int| 0 <= q < a.len() ==> (#[trigger] a[q]).id == b[q].id,
        decreases a.len(),
    {
        if a.len() == 0 {
            if b.len() > 0 {
                assert(CrosswordGrid::seq_has_id(b, b[0].id));
                assert(CrosswordGrid::seq_has_id(a, b[0].id));
                assert(false);
            }
        } else if b.len() == 0 {
            assert(CrosswordGrid::seq_has_id(a, a[0].id));
            assert(CrosswordGrid::seq_has_id(b, a[0].id));
            assert(false);
        } else {
            assert(a[0].id == b[0].id) by {
                assert(CrosswordGrid::seq_has_id(a, a[0].id));
                assert(CrosswordGrid::seq_has_id(b, a[0].id));
                let qb = choose|q: int| 0 <= q < b.len() && (#[trigger] b[q]).id == a[0].id;
                assert(b[0].id <= b[qb].id);
                assert(CrosswordGrid::seq_has_id(b, b[0].id));
                assert(CrosswordGrid::seq_has_id(a, b[0].id));
                let qa = choose|q: int| 0 <= q < a.len() && (#[trigger] a[q]).id == b[0].id;
                assert(a[0].id <= a[qa].id);
            }
            let ta = a.drop_first();
            let tb = b.drop_first();
            assert forall|x: usize|
                #[trigger] CrosswordGrid::seq_has_id(ta, x) == CrosswordGrid::seq_has_id(
                tb,
                x,
            ) by {
                if CrosswordGrid::seq_has_id(ta, x) {
                    let q = choose|q: int| 0 <= q < ta.len() && (#[trigger] ta[q]).id == x;
                    assert(a[q + 1].id == x);
                    assert(x > a[0].id);
                    assert(CrosswordGrid::seq_has_id(a, x));
                    assert(CrosswordGrid::seq_has_id(b, x));
                    let qb = choose|q2: int| 0 <= q2 < b.len() && (#[trigger] b[q2]).id == x;
                    assert(qb > 0) by {
                        if qb == 0 {
                            assert(b[0].id == x);
                        }
                    }
                    assert(tb[qb - 1].id == x);
                    assert(CrosswordGrid::seq_has_id(tb, x));
                }
                if CrosswordGrid::seq_has_id(tb, x) {
                    let q = choose|q: int| 0 <= q < tb.len() && (#[trigger] tb[q]).id == x;
                    assert(b[q + 1].id == x);
                    assert(x > b[0].id);
                    assert(CrosswordGrid::seq_has_id(b, x));
                    assert(CrosswordGrid::seq_has_id(a, x));
                    let qa = choose|q2: int| 0 <= q2 < a.len() && (#[trigger] a[q2]).id == x;
                    assert(qa > 0) by {
                        if qa == 0 {
                            assert(a[0].id == x);
                        }
                    }
                    assert(ta[qa - 1].id == x);
                    assert(CrosswordGrid::seq_has_id(ta, x));
                }
            }
            Self::lemma_same_ids_pointwise(ta, tb);
            assert forall|q: int| 0 <= q < a.len() implies (#[trigger] a[q]).id == b[q].id by {
                if q > 0 {
                    assert(ta[q - 1].id == tb[q - 1].id);
                }
            }
        }
    }

    /// Counting placed entries over maps that agree entry by entry except
    /// at one position where a placement appears or disappears.
    pub proof fn lemma_count_placed_flip(a: CrosswordGrid, b: CrosswordGrid, k: int, n: int)
        requires
            a.spec_words().len() == b.spec_words().len(),
            0 <= k < a.spec_words().len(),
            0 <= n <= a.spec_words().len(),
            forall|q: int|
                0 <= q < a.spec_words().len() && q != k ==> (#[trigger] a.spec_words()[
                q]).word.spec_is_placed() == b.spec_words()[q].word.spec_is_placed(),
            !a.spec_words()[k].word.spec_is_placed(),
            b.spec_words()[k].word.spec_is_placed(),
        ensures
            b.spec_count_placed(n) == a.spec_count_placed(n) + if k < n {
                1int
            } else {
                0int
            },
        decreases n,
    {
        if n > 0 {
            Self::lemma_count_placed_flip(a, b, k, n - 1);
        }
    }

    /// Placed counts agree when placements agree entry by entry.
    pub proof fn lemma_count_placed_same(a: CrosswordGrid, b: CrosswordGrid, n: int)
        requires
            a.spec_words().len() == b.spec_words().len(),
            n <= a.spec_words().len(),
            forall|q: int|
                0 <= q < a.spec_words().len() ==> (#[trigger] a.spec_words()[
                q]).word.spec_is_placed() == b.spec_words()[q].word.spec_is_placed(),
        ensures
            a.spec_count_placed(n) == b.spec_count_placed(n),
        decreases n,
    {
        if n > 0 {
            Self::lemma_count_placed_same(a, b, n - 1);
        }
    }

    /// A pass that withdraws at most the placement at position `k` lowers
    /// the placed count by at most one, and never raises it.
    pub proof fn lemma_count_placed_drop(pre: CrosswordGrid, post: CrosswordGrid, k: int, n: int)
        requires
            pre.spec_words().len() == post.spec_words().len(),
            n <= pre.spec_words().len(),
            forall|q: int|
                0 <= q < post.spec_words().len() && q != k ==> (#[trigger] post.spec_words()[
                q]).word.spec_is_placed() == pre.spec_words()[q].word.spec_is_placed(),
            0 <= k < post.spec_words().len() ==> (post.spec_words()[k].word.spec_is_placed()
                ==> pre.spec_words()[k].word.spec_is_placed()),
        ensures
            post.spec_count_placed(n) >= pre.spec_count_placed(n) - 1,
            post.spec_count_placed(n) <= pre.spec_count_placed(n),
            !(0 <= k < n) ==> post.spec_count_placed(n) == pre.spec_count_placed(n),
        decreases n,
    {
        if n > 0 {
            Self::lemma_count_placed_drop(pre, post, k, n - 1);
        }
    }

    /// Remove `word_id`'s ownership from every cell.
    fn strip_word_from_cells(&mut self, word_id: usize)
        requires
            old(self).wf(),
        ensures
            final(self).wf(),
            final(self).spec_words() == old(self).spec_words(),
            final(self).spec_top_left() == old(self).spec_top_left(),
            final(self).spec_bottom_right() == old(self).spec_bottom_right(),
            forall|r: int, c: int|
                old(self).spec_in_box(r, c) ==> final(self).spec_cell(r, c) == (
                #[trigger] old(self).spec_cell(r, c)).spec_after_remove(word_id),
    {
        let mut row = self.top_left_cell_index.0;
        while row <= self.bottom_right_cell_index.0
            invariant
                self.wf(),
                self.spec_words() == old(self).spec_words(),
                self.spec_top_left() == old(self).spec_top_left(),
                self.spec_bottom_right() == old(self).spec_bottom_right(),
                self.spec_top_left().0 <= row as int <= self.spec_bottom_right().0 + 1,
                forall|r: int, c: int|
                    old(self).spec_in_box(r, c) && r < row as int ==> self.spec_cell(r, c) == (
                    #[trigger] old(self).spec_cell(r, c)).spec_after_remove(word_id),
                forall|r: int, c: int|
                    old(self).spec_in_box(r, c) && r >= row as int ==> self.spec_cell(r, c) == (
                    #[trigger] old(self).spec_cell(r, c)),
            decreases self.spec_bottom_right().0 + 1 - row,
        {
            let mut col = self.top_left_cell_index.1;
            while col <= self.bottom_right_cell_index.1
                invariant
                    self.wf(),
                    self.spec_words() == old(self).spec_words(),
                    self.spec_top_left() == old(self).spec_top_left(),
                    self.spec_bottom_right() == old(self).spec_bottom_right(),
                    self.spec_top_left().0 <= row as int <= self.spec_bottom_right().0,
                    self.spec_top_left().1 <= col as int <= self.spec_bottom_right().1 + 1,
                    forall|r: int, c: int|
                        old(self).spec_in_box(r, c) && (r < row as int || (r == row as int && c
                            < col as int)) ==> self.spec_cell(r, c) == (#[trigger] old(self).spec_cell(r, c)).spec_after_remove(word_id),
                    forall|r: int, c: int|
                        old(self).spec_in_box(r, c) && (r > row as int || (r == row as int && c
                            >= col as int)) ==> self.spec_cell(r, c) == (#[trigger] old(self).spec_cell(r, c)),
                decreases self.spec_bottom_right().1 + 1 - col,
            {
                let mut cell = self.cell_at(row, col);
                cell.remove_word(word_id);
                self.set_cell(&Location(row, col), cell);
                col += 1;
            }
            row += 1;
        }
    }

    /// Remove the word's placement and its marks in the cells, then re-fit
    /// the grid. Some other word must remain placed.
    #[verifier::rlimit(100)]
    #[verifier::spinoff_prover]
    pub fn unplace_word(&mut self, word_id: usize)
        requires
            old(self).wf(),
            old(self).spec_placement_ok(),
            old(self).spec_top_left().0 > -COORD_LIMIT,
            old(self).spec_top_left().1 > -COORD_LIMIT,
            old(self).spec_bottom_right().0 < COORD_LIMIT,
            old(self).spec_bottom_right().1 < COORD_LIMIT,
            exists|k: int|
                0 <= k < old(self).spec_words().len() && (#[trigger] old(self).spec_words()[
                k]).id != word_id && old(self).spec_words()[k].word.spec_is_placed(),
        ensures
            final(self).wf(),
            final(self).spec_placement_ok(),
            final(self).spec_fitted(),
            final(self).spec_boundaries_in_box(),
            old(self).spec_letters_bounded() ==> final(self).spec_letters_bounded() && final(self).spec_box_bounded(),
            old(self).spec_no_black_overlap() ==> final(self).spec_no_black_overlap(),
            forall|j: usize|
                #[trigger] final(self).spec_has_word(j) == old(self).spec_has_word(j),
            forall|j: usize|
                j != word_id && old(self).spec_has_word(j) ==> #[trigger] final(self).spec_word(j)
                    == old(self).spec_word(j),
            old(self).spec_has_word(word_id) ==> !final(self).spec_word(
                word_id,
            ).spec_is_placed() && final(self).spec_word(word_id).word_text == old(self).spec_word(
                word_id,
            ).word_text,
            forall|r: int, c: int|
                final(self).spec_in_box(r, c) && old(self).spec_in_box(r, c) ==> final(self).spec_cell(r, c) == (#[trigger] old(self).spec_cell(r, c)).spec_after_remove(
                    word_id,
                ),
    {
        self.strip_word_from_cells(word_id);
        let ghost stripped = *self;
        match self.find_word_index(word_id) {
            Some(k) => {
                proof {
                    self.lemma_word_index(word_id, k as int);
                }
                let ghost pre_words = self.word_map@;
                let mut e = self.word_map.remove(k);
                e.word.remove_placement();
                self.word_map.insert(k, e);
                proof {
                    pre_words.remove_ensures(k as int);
                    assert forall|q: int|
                        0 <= q < self.word_map@.len() && q != k implies self.word_map@[q]
                        == pre_words[q] by {}
                    assert(self.word_map@[k as int].id == word_id);
                }
            },
            None => {},
        }
        let ghost unplaced = *self;
        proof {
            let k0 = choose|k: int|
                0 <= k < old(self).spec_words().len() && (#[trigger] old(self).spec_words()[
                k]).id != word_id && old(self).spec_words()[k].word.spec_is_placed();
            self.lemma_other_word_keeps_letters(*old(self), stripped, word_id, k0);
        }
        self.fit_to_size();
        proof {
            self.lemma_unplace_post(*old(self), stripped, unplaced, word_id);
            self.lemma_fitted_boundaries();
            if old(self).spec_letters_bounded() {
                assert forall|rr: int, cc: int|
                    self.spec_in_box(rr, cc) && (#[trigger] self.spec_cell(
                        rr,
                        cc,
                    )).spec_is_filled() implies -16381 <= rr <= 16381 && -16381 <= cc
                    <= 16381 by {
                    if unplaced.spec_in_box(rr, cc) {
                        assert(self.spec_cell(rr, cc) == unplaced.spec_cell(rr, cc));
                        assert(old(self).spec_cell(rr, cc).spec_is_filled());
                    } else {
                        assert(!self.spec_cell(rr, cc).spec_is_filled());
                    }
                }
                assert(self.spec_letters_bounded());
                self.lemma_fitted_boundaries();
            }
            if old(self).spec_no_black_overlap() {
                assert forall|rr: int, cc: int|
                    self.spec_in_box(rr, cc) && #[trigger] self.spec_expected_black(rr, cc)
                    implies !self.spec_cell(rr, cc).spec_is_filled() by {
                    if unplaced.spec_in_box(rr, cc) {
                        assert(self.spec_cell(rr, cc) == unplaced.spec_cell(rr, cc));
                        if unplaced.spec_cell(rr, cc).spec_is_filled() {
                            assert(old(self).spec_cell(rr, cc).spec_is_filled());
                            assert(old(self).spec_expected_black(rr, cc)) by {
                                let q = choose|q: int|
                                    0 <= q < self.spec_words().len() && {
                                        let e = #[trigger] self.spec_words()[q];
                                        e.word.placement is Some && {
                                            let p = e.word.placement.unwrap();
                                            Location((rr as isize), (cc as isize)) == spec_step(
                                                p.start_location,
                                                -1,
                                                p.direction,
                                            ) || Location((rr as isize), (cc as isize))
                                                == spec_step(
                                                p.start_location,
                                                e.word.word_text@.len() as int,
                                                p.direction,
                                            )
                                        }
                                    };
                                let e = self.spec_words()[q];
                                let id_q = e.id;
                                self.lemma_word_index(id_q, q);
                                assert(old(self).spec_has_word(id_q));
                                let qo = old(self).spec_word_index(id_q);
                                assert(old(self).spec_words()[qo].id == id_q);
                                if id_q != word_id {
                                    assert(old(self).spec_word(id_q) == self.spec_word(id_q));
                                    assert(old(self).spec_words()[qo].word == e.word);
                                } else {
                                    assert(!e.word.spec_is_placed());
                                }
                            }
                        }
                    } else {
                        assert(!self.spec_cell(rr, cc).spec_is_filled());
                    }
                }
            }
        }
    }

    /// After stripping `word_id`, any other placed word still covers filled
    /// cells, so the grid still holds a letter; and the word map keeps every
    /// placement consistent.
    proof fn lemma_other_word_keeps_letters(
        self,
        orig: CrosswordGrid,
        stripped: CrosswordGrid,
        word_id: usize,
        k0: int,
    )
        requires
            orig.wf(),
            orig.spec_placement_ok(),
            stripped.wf(),
            stripped.spec_top_left() == orig.spec_top_left(),
            stripped.spec_bottom_right() == orig.spec_bottom_right(),
            forall|r: int, c: int|
                orig.spec_in_box(r, c) ==> stripped.spec_cell(r, c) == (#[trigger] orig.spec_cell(
                    r,
                    c,
                )).spec_after_remove(word_id),
            0 <= k0 < orig.spec_words().len(),
            orig.spec_words()[k0].id != word_id,
            orig.spec_words()[k0].word.spec_is_placed(),
            self.wf(),
            self.spec_top_left() == stripped.spec_top_left(),
            self.spec_bottom_right() == stripped.spec_bottom_right(),
            forall|r: int, c: int|
                stripped.spec_in_box(r, c) ==> self.spec_cell(r, c) == stripped.spec_cell(r, c),
            self.spec_words().len() == orig.spec_words().len(),
            forall|q: int|
                0 <= q < self.spec_words().len() ==> (#[trigger] self.spec_words()[q]).id
                    == orig.spec_words()[q].id,
            forall|q: int|
                0 <= q < self.spec_words().len() && orig.spec_words()[q].id != word_id ==> (
                #[trigger] self.spec_words()[q]) == orig.spec_words()[q],
            forall|q: int|
                0 <= q < self.spec_words().len() && orig.spec_words()[q].id == word_id ==> !(
                #[trigger] self.spec_words()[q]).word.spec_is_placed(),
        ensures
            self.spec_has_letter(),
            self.spec_placement_ok(),
    {
        let e0 = orig.spec_words()[k0];
        let p0 = e0.word.placement.unwrap();
        let l0 = spec_step(p0.start_location, 0, p0.direction);
        assert(orig.spec_in_box(l0.0 as int, l0.1 as int));
        assert(orig.spec_cell(l0.0 as int, l0.1 as int).spec_word_id(p0.direction) == Some(e0.id));
        assert(self.spec_cell(l0.0 as int, l0.1 as int).spec_is_filled());
        assert(self.spec_row_has_letter(l0.0 as int));
        assert(self.spec_has_letter());
        assert forall|k: int|
            0 <= k < self.spec_words().len() implies {
            let e = #[trigger] self.spec_words()[k];
            e.word.placement is Some ==> {
                let p = e.word.placement.unwrap();
                forall|i: int|
                    0 <= i < e.word.word_text@.len() ==> {
                        let l = #[trigger] spec_step(p.start_location, i, p.direction);
                        &&& self.spec_in_box(l.0 as int, l.1 as int)
                        &&& self.spec_cell(l.0 as int, l.1 as int).spec_is_filled()
                        &&& self.spec_cell(l.0 as int, l.1 as int).spec_letter()
                            == e.word.word_text@[i]
                        &&& self.spec_cell(l.0 as int, l.1 as int).spec_word_id(p.direction)
                            == Some(e.id)
                    }
            }
        } by {
            let e = self.spec_words()[k];
            if e.word.placement is Some {
                assert(orig.spec_words()[k].id != word_id);
                assert(e == orig.spec_words()[k]);
                let p = e.word.placement.unwrap();
                assert forall|i: int|
                    0 <= i < e.word.word_text@.len() implies {
                    let l = #[trigger] spec_step(p.start_location, i, p.direction);
                    &&& self.spec_in_box(l.0 as int, l.1 as int)
                    &&& self.spec_cell(l.0 as int, l.1 as int).spec_is_filled()
                    &&& self.spec_cell(l.0 as int, l.1 as int).spec_letter()
                        == e.word.word_text@[i]
                    &&& self.spec_cell(l.0 as int, l.1 as int).spec_word_id(p.direction) == Some(
                        e.id,
                    )
                } by {
                    let l = spec_step(p.start_location, i, p.direction);
                    assert(orig.spec_in_box(l.0 as int, l.1 as int));
                    assert(orig.spec_cell(l.0 as int, l.1 as int).spec_word_id(p.direction)
                        == Some(e.id));
                    assert(orig.spec_cell(l.0 as int, l.1 as int).spec_letter()
                        == e.word.word_text@[i]);
                }
            }
        }
    }

    /// After the final fit, placements remain consistent and cells in both
    /// boxes relate to the original through the ownership removal.
    proof fn lemma_unplace_post(
        self,
        orig: CrosswordGrid,
        stripped: CrosswordGrid,
        unplaced: CrosswordGrid,
        word_id: usize,
    )
        requires
            orig.wf(),
            stripped.wf(),
            unplaced.wf(),
            self.wf(),
            stripped.spec_top_left() == orig.spec_top_left(),
            stripped.spec_bottom_right() == orig.spec_bottom_right(),
            forall|r: int, c: int|
                orig.spec_in_box(r, c) ==> stripped.spec_cell(r, c) == (#[trigger] orig.spec_cell(
                    r,
                    c,
                )).spec_after_remove(word_id),
            unplaced.spec_top_left() == stripped.spec_top_left(),
            unplaced.spec_bottom_right() == stripped.spec_bottom_right(),
            forall|r: int, c: int|
                stripped.spec_in_box(r, c) ==> unplaced.spec_cell(r, c) == stripped.spec_cell(
                    r,
                    c,
                ),
            unplaced.spec_placement_ok(),
            self.spec_words() == unplaced.spec_words(),
            forall|r: int, c: int|
                unplaced.spec_in_box(r, c) && (#[trigger] unplaced.spec_cell(
                    r,
                    c,
                )).spec_is_filled() ==> self.spec_in_box(r, c) && self.spec_cell(r, c)
                    == unplaced.spec_cell(r, c),
            forall|r: int, c: int|
                self.spec_in_box(r, c) ==> (unplaced.spec_in_box(r, c) ==> self.spec_cell(r, c)
                    == unplaced.spec_cell(r, c)) && (unplaced.spec_in_box(r, c) || !(
                #[trigger] self.spec_cell(r, c)).spec_is_filled()),
        ensures
            self.spec_placement_ok(),
            forall|r: int, c: int|
                self.spec_in_box(r, c) && orig.spec_in_box(r, c) ==> self.spec_cell(r, c) == (
                #[trigger] orig.spec_cell(r, c)).spec_after_remove(word_id),
    {
        assert forall|k: int|
            0 <= k < self.spec_words().len() implies {
            let e = #[trigger] self.spec_words()[k];
            e.word.placement is Some ==> {
                let p = e.word.placement.unwrap();
                forall|i: int|
                    0 <= i < e.word.word_text@.len() ==> {
                        let l = #[trigger] spec_step(p.start_location, i, p.direction);
                        &&& self.spec_in_box(l.0 as int, l.1 as int)
                        &&& self.spec_cell(l.0 as int, l.1 as int).spec_is_filled()
                        &&& self.spec_cell(l.0 as int, l.1 as int).spec_letter()
                            == e.word.word_text@[i]
                        &&& self.spec_cell(l.0 as int, l.1 as int).spec_word_id(p.direction)
                            == Some(e.id)
                    }
            }
        } by {
            let e = self.spec_words()[k];
            if e.word.placement is Some {
                let p = e.word.placement.unwrap();
                assert forall|i: int|
                    0 <= i < e.word.word_text@.len() implies {
                    let l = #[trigger] spec_step(p.start_location, i, p.direction);
                    &&& self.spec_in_box(l.0 as int, l.1 as int)
                    &&& self.spec_cell(l.0 as int, l.1 as int).spec_is_filled()
                    &&& self.spec_cell(l.0 as int, l.1 as int).spec_letter()
                        == e.word.word_text@[i]
                    &&& self.spec_cell(l.0 as int, l.1 as int).spec_word_id(p.direction) == Some(
                        e.id,
                    )
                } by {
                    let l = spec_step(p.start_location, i, p.direction);
                    assert(unplaced.spec_words()[k] == e);
                    assert(unplaced.spec_in_box(l.0 as int, l.1 as int));
                    assert(unplaced.spec_cell(l.0 as int, l.1 as int).spec_is_filled());
                }
            }
        }
    }

    /// Unplace the word and drop it from the word map entirely.
    pub fn delete_word(&mut self, word_id: usize)
        requires
            old(self).wf(),
            old(self).spec_placement_ok(),
            old(self).spec_top_left().0 > -COORD_LIMIT,
            old(self).spec_top_left().1 > -COORD_LIMIT,
            old(self).spec_bottom_right().0 < COORD_LIMIT,
            old(self).spec_bottom_right().1 < COORD_LIMIT,
            exists|k: int|
                0 <= k < old(self).spec_words().len() && (#[trigger] old(self).spec_words()[
                k]).id != word_id && old(self).spec_words()[k].word.spec_is_placed(),
        ensures
            final(self).wf(),
            final(self).spec_placement_ok(),
            final(self).spec_fitted(),
            !final(self).spec_has_word(word_id),
            forall|j: usize|
                j != word_id ==> #[trigger] final(self).spec_has_word(j) == old(self).spec_has_word(j),
            forall|j: usize|
                j != word_id && old(self).spec_has_word(j) ==> #[trigger] final(self).spec_word(j)
                    == old(self).spec_word(j),
    {
        self.unplace_word(word_id);
        let ghost mid = *self;
        proof {
            assert(mid.spec_fitted());
        }
        match self.find_word_index(word_id) {
            Some(k) => {
                proof {
                    self.lemma_word_index(word_id, k as int);
                }
                let ghost pre_words = self.word_map@;
                self.word_map.remove(k);
                proof {
                    pre_words.remove_ensures(k as int);
                    assert forall|j: usize|
                        #[trigger] self.spec_has_word(j) == (mid.spec_has_word(j) && j
                            != word_id) by {
                        if self.spec_has_word(j) {
                            let q = choose|q: int|
                                0 <= q < self.spec_words().len() && (
                                #[trigger] self.spec_words()[q]).id == j;
                            if q < k {
                                assert(mid.spec_words()[q].id == j);
                            } else {
                                assert(mid.spec_words()[q + 1].id == j);
                            }
                            assert(mid.spec_has_word(j));
                            assert(j != word_id) by {
                                if j == word_id {
                                    if q < k {
                                        mid.lemma_word_index(word_id, q);
                                    } else {
                                        mid.lemma_word_index(word_id, q + 1);
                                    }
                                }
                            }
                        }
                        if mid.spec_has_word(j) && j != word_id {
                            let q = choose|q: int|
                                0 <= q < mid.spec_words().len() && (
                                #[trigger] mid.spec_words()[q]).id == j;
                            assert(q != k);
                            if q < k {
                                assert(self.spec_words()[q].id == j);
                            } else {
                                assert(self.spec_words()[q - 1] == mid.spec_words()[q]);
                                assert(self.spec_words()[q - 1].id == j);
                            }
                        }
                    }
                    assert forall|j: usize|
                        j != word_id && mid.spec_has_word(j) implies #[trigger] self.spec_word(
                        j,
                    ) == mid.spec_word(j) by {
                        let q = choose|q: int|
                            0 <= q < mid.spec_words().len() && (#[trigger] mid.spec_words()[
                            q]).id == j;
                        mid.lemma_word_index(j, q);
                        if q < k {
                            self.lemma_word_index_u(j, q);
                        } else {
                            assert(self.spec_words()[q - 1] == mid.spec_words()[q]);
                            self.lemma_word_index_u(j, q - 1);
                        }
                    }
                    assert forall|k2: int|
                        0 <= k2 < self.spec_words().len() implies (
                        #[trigger] self.spec_words()[k2]).word.wf() by {
                        if k2 < k {
                            assert(self.spec_words()[k2] == mid.spec_words()[k2]);
                        } else {
                            assert(self.spec_words()[k2] == mid.spec_words()[k2 + 1]);
                        }
                    }
                    assert(self.spec_placement_ok()) by {
                        assert forall|k2: int|
                            0 <= k2 < self.spec_words().len() implies {
                            let e = #[trigger] self.spec_words()[k2];
                            e.word.placement is Some ==> {
                                let p = e.word.placement.unwrap();
                                forall|i: int|
                                    0 <= i < e.word.word_text@.len() ==> {
                                        let l = #[trigger] spec_step(
                                            p.start_location,
                                            i,
                                            p.direction,
                                        );
                                        &&& self.spec_in_box(l.0 as int, l.1 as int)
                                        &&& self.spec_cell(
                                            l.0 as int,
                                            l.1 as int,
                                        ).spec_is_filled()
                                        &&& self.spec_cell(l.0 as int, l.1 as int).spec_letter()
                                            == e.word.word_text@[i]
                                        &&& self.spec_cell(l.0 as int, l.1 as int).spec_word_id(
                                            p.direction,
                                        ) == Some(e.id)
                                    }
                            }
                        } by {
                            if k2 < k {
                                assert(self.spec_words()[k2] == mid.spec_words()[k2]);
                            } else {
                                assert(self.spec_words()[k2] == mid.spec_words()[k2 + 1]);
                            }
                        }
                    }
                    self.lemma_same_cells_shape(mid);
                }
            },
            None => {},
        }
    }
}

/// Relies on `String::from_iter` over characters: the returned string
/// holds exactly the given characters in order.
#[verifier::external_body]
pub fn chars_to_string(chars: &Vec<char>) -> (r: String)
    ensures
        r@ == chars@,
{
    chars.iter().collect()
}

} // verus!
