use vstd::prelude::*;

use super::CrosswordGrid;
use super::Direction;
use super::Location;
use super::add_word::PLACE_LIMIT;

verus! {

/// A deterministic random number generator seeded explicitly; the source of
/// all randomness used by the placement search.
#[verifier::external_type_specification]
#[verifier::external_body]
pub struct ExStdRng(rand::rngs::StdRng);

/// Relies on `rand::rngs::StdRng::seed_from_u64`: builds the deterministic
/// generator for this seed.
#[verifier::external_body]
pub(crate) fn rng_from_seed(seed: u64) -> (r: rand::rngs::StdRng) {
    <rand::rngs::StdRng as rand::SeedableRng>::seed_from_u64(seed)
}

/// Relies on `rand::seq::SliceRandom::shuffle`: reorders the elements in
/// place; the multiset of elements is unchanged.
#[verifier::external_body]
pub(crate) fn shuffle_usizes(v: &mut Vec<usize>, rng: &mut rand::rngs::StdRng)
    ensures
        final(v)@.to_multiset() == old(v)@.to_multiset(),
{
    rand::seq::SliceRandom::shuffle(v.as_mut_slice(), rng);
}

/// Relies on `rand::seq::SliceRandom::shuffle`: reorders the slot list in
/// place; the multiset of slots is unchanged.
#[verifier::external_body]
pub(crate) fn shuffle_slots(v: &mut Vec<(Location, Direction)>, rng: &mut rand::rngs::StdRng)
    ensures
        final(v)@.to_multiset() == old(v)@.to_multiset(),
{
    rand::seq::SliceRandom::shuffle(v.as_mut_slice(), rng);
}

impl CrosswordGrid {
    /// The open slots: letter cells owned in only one orientation, paired
    /// with the orientation a new word would need there.
    fn collect_open_slots(&self) -> (r: Vec<(Location, Direction)>)
        requires
            self.wf(),
        ensures
            forall|q: int|
                0 <= q < r@.len() ==> self.spec_in_box(
                    (#[trigger] r@[q]).0.0 as int,
                    r@[q].0.1 as int,
                ),
    {
        let mut slots: Vec<(Location, Direction)> = Vec::new();
        let mut row = self.top_left_cell_index.0;
        while row <= self.bottom_right_cell_index.0
            invariant
                self.wf(),
                self.spec_top_left().0 <= row as int <= self.spec_bottom_right().0 + 1,
                forall|q: int|
                    0 <= q < slots@.len() ==> self.spec_in_box(
                        (#[trigger] slots@[q]).0.0 as int,
                        slots@[q].0.1 as int,
                    ),
            decreases self.spec_bottom_right().0 + 1 - row,
        {
            let mut col = self.top_left_cell_index.1;
            while col <= self.bottom_right_cell_index.1
                invariant
                    self.wf(),
                    self.spec_top_left().0 <= row as int <= self.spec_bottom_right().0,
                    self.spec_top_left().1 <= col as int <= self.spec_bottom_right().1 + 1,
                    forall|q: int|
                        0 <= q < slots@.len() ==> self.spec_in_box(
                            (#[trigger] slots@[q]).0.0 as int,
                            slots@[q].0.1 as int,
                        ),
                decreases self.spec_bottom_right().1 + 1 - col,
            {
                let cell = self.cell_at(row, col);
                if cell.contains_letter() && !cell.is_intersection() {
                    let direction = match cell.get_across_word_id() {
                        Some(_w) => Direction::Down,
                        None => Direction::Across,
                    };
                    slots.push((Location(row, col), direction));
                }
                col += 1;
            }
            row += 1;
        }
        slots
    }

    /// The ids of words not yet placed, ascending.
    fn collect_unplaced_ids(&self) -> (r: Vec<usize>)
        requires
            self.wf(),
        ensures
            forall|q: int| 0 <= q < r@.len() ==> self.spec_has_word(#[trigger] r@[q]),
    {
        let mut ids: Vec<usize> = Vec::new();
        let mut k: usize = 0;
        while k < self.word_map.len()
            invariant
                self.wf(),
                k <= self.spec_words().len(),
                forall|q: int| 0 <= q < ids@.len() ==> self.spec_has_word(#[trigger] ids@[q]),
            decreases self.spec_words().len() - k,
        {
            if !self.word_map[k].word.is_placed() {
                let id = self.word_map[k].id;
                proof {
                    assert(self.spec_words()[k as int].id == id);
                }
                ids.push(id);
            }
            k += 1;
        }
        ids
    }

    /// The words of `self` and `other` pair up position by position with
    /// equal ids.
    proof fn lemma_words_pointwise(self, other: CrosswordGrid)
        requires
            self.wf(),
            other.wf(),
            forall|j: usize| #[trigger] self.spec_has_word(j) == other.spec_has_word(j),
        ensures
            self.spec_words().len() == other.spec_words().len(),
            forall|q: int|
                0 <= q < self.spec_words().len() ==> (#[trigger] self.spec_words()[q]).id
                    == other.spec_words()[q].id,
            forall|q: int|
                0 <= q < self.spec_words().len() ==> (#[trigger] self.spec_words()[q]).word
                    == self.spec_word(self.spec_words()[q].id) && other.spec_words()[q].word
                    == other.spec_word(self.spec_words()[q].id),
    {
        assert forall|x: usize|
            #[trigger] CrosswordGrid::seq_has_id(self.spec_words(), x)
                == CrosswordGrid::seq_has_id(other.spec_words(), x) by {
            assert(self.spec_has_word(x) == other.spec_has_word(x));
            assert(CrosswordGrid::seq_has_id(self.spec_words(), x) == self.spec_has_word(x));
            assert(CrosswordGrid::seq_has_id(other.spec_words(), x) == other.spec_has_word(x));
        }
        CrosswordGrid::lemma_same_ids_pointwise(self.spec_words(), other.spec_words());
        assert forall|q: int|
            0 <= q < self.spec_words().len() implies (#[trigger] self.spec_words()[q]).word
            == self.spec_word(self.spec_words()[q].id) && other.spec_words()[q].word
            == other.spec_word(self.spec_words()[q].id) by {
            self.lemma_word_index(self.spec_words()[q].id, q);
            other.lemma_word_index(self.spec_words()[q].id, q);
        }
    }

    /// All placements agree with `other`'s, entry by entry.
    proof fn lemma_placements_equal_count(self, other: CrosswordGrid)
        requires
            self.wf(),
            other.wf(),
            forall|j: usize| #[trigger] self.spec_has_word(j) == other.spec_has_word(j),
            forall|j: usize|
                other.spec_has_word(j) ==> (#[trigger] self.spec_word(j)).placement
                    == other.spec_word(j).placement,
        ensures
            self.spec_count_placed(self.spec_words().len() as int) == other.spec_count_placed(
                other.spec_words().len() as int,
            ),
    {
        self.lemma_words_pointwise(other);
        assert forall|q: int|
            0 <= q < self.spec_words().len() implies (#[trigger] self.spec_words()[
        q]).word.spec_is_placed() == other.spec_words()[q].word.spec_is_placed() by {
            let id = self.spec_words()[q].id;
            assert(other.spec_has_word(id)) by {
                assert(other.spec_words()[q].id == id);
            }
        }
        CrosswordGrid::lemma_count_placed_same(
            self,
            other,
            self.spec_words().len() as int,
        );
    }

    /// Try the seeded-shuffled candidate placements (each unplaced word,
    /// each letter of it, each open slot holding that letter) and keep the
    /// first that succeeds. Returns whether any placement succeeded: exactly
    /// one more word is placed on success, and no placement moves on
    /// failure.
    #[verifier::rlimit(100)]
    #[verifier::spinoff_prover]
    pub fn place_random_word(&mut self, seed: u64) -> (r: bool)
        requires
            old(self).wf(),
            old(self).spec_placement_ok(),
            old(self).spec_boundaries_in_box(),
            old(self).spec_no_black_overlap(),
            old(self).spec_letters_bounded(),
            old(self).spec_box_bounded(),
        ensures
            final(self).wf(),
            final(self).spec_placement_ok(),
            final(self).spec_boundaries_in_box(),
            final(self).spec_no_black_overlap(),
            final(self).spec_letters_bounded(),
            final(self).spec_box_bounded(),
            forall|j: usize| #[trigger] final(self).spec_has_word(j) == old(self).spec_has_word(j),
            forall|j: usize|
                old(self).spec_has_word(j) ==> (#[trigger] final(self).spec_word(j)).word_text
                    == old(self).spec_word(j).word_text,
            !r ==> forall|j: usize|
                old(self).spec_has_word(j) ==> (#[trigger] final(self).spec_word(j)).placement
                    == old(self).spec_word(j).placement,
            r ==> final(self).spec_count_placed(final(self).spec_words().len() as int) == old(self).spec_count_placed(old(self).spec_words().len() as int) + 1,
    {
        let mut rng = rng_from_seed(seed);
        let mut slots = self.collect_open_slots();
        shuffle_slots(&mut slots, &mut rng);
        let mut words = self.collect_unplaced_ids();
        shuffle_usizes(&mut words, &mut rng);
        let ghost orig = *old(self);
        let mut w: usize = 0;
        while w < words.len()
            invariant
                self.wf(),
                self.spec_placement_ok(),
                self.spec_boundaries_in_box(),
                self.spec_no_black_overlap(),
                self.spec_letters_bounded(),
                self.spec_box_bounded(),
                orig.wf(),
                orig == *old(self),
                forall|j: usize| #[trigger] self.spec_has_word(j) == orig.spec_has_word(j),
                forall|j: usize|
                    orig.spec_has_word(j) ==> (#[trigger] self.spec_word(j)).placement
                        == orig.spec_word(j).placement && self.spec_word(j).word_text
                        == orig.spec_word(j).word_text,
                w <= words@.len(),
            decreases words@.len() - w,
        {
            let word_id = words[w];
            let len = match self.get_word(word_id) {
                Ok(word) => word.len(),
                Err(_) => 0,
            };
            let mut index: usize = 0;
            while index < len
                invariant
                    self.wf(),
                    self.spec_placement_ok(),
                    self.spec_boundaries_in_box(),
                    self.spec_no_black_overlap(),
                    self.spec_letters_bounded(),
                    self.spec_box_bounded(),
                    orig.wf(),
                    orig == *old(self),
                    forall|j: usize| #[trigger] self.spec_has_word(j) == orig.spec_has_word(j),
                    forall|j: usize|
                        orig.spec_has_word(j) ==> (#[trigger] self.spec_word(j)).placement
                            == orig.spec_word(j).placement && self.spec_word(j).word_text
                            == orig.spec_word(j).word_text,
                    index <= len,
                decreases len - index,
            {
                let mut s: usize = 0;
                while s < slots.len()
                    invariant
                        self.wf(),
                        self.spec_placement_ok(),
                        self.spec_boundaries_in_box(),
                        self.spec_no_black_overlap(),
                        self.spec_letters_bounded(),
                        self.spec_box_bounded(),
                        orig.wf(),
                        orig == *old(self),
                        forall|j: usize|
                            #[trigger] self.spec_has_word(j) == orig.spec_has_word(j),
                        forall|j: usize|
                            orig.spec_has_word(j) ==> (#[trigger] self.spec_word(j)).placement
                                == orig.spec_word(j).placement && self.spec_word(j).word_text
                                == orig.spec_word(j).word_text,
                        s <= slots@.len(),
                    decreases slots@.len() - s,
                {
                    let (location, direction) = slots[s];
                    let letter_matches = {
                        let slot_cell = match self.get_cell(&location) {
                            Ok(c) => Some(*c),
                            Err(_) => None,
                        };
                        let want = match self.get_word(word_id) {
                            Ok(word) => {
                                if index < word.len() {
                                    Some(word.get_char_at_index(index))
                                } else {
                                    None
                                }
                            },
                            Err(_) => None,
                        };
                        match (slot_cell, want) {
                            (Some(c), Some(ch)) => c.contains_letter() && c.to_char() == ch,
                            _ => false,
                        }
                    };
                    let in_bounds = location.0 > -PLACE_LIMIT && location.0 < PLACE_LIMIT
                        && location.1 > -PLACE_LIMIT && location.1 < PLACE_LIMIT;
                    let word_ok = match self.get_word(word_id) {
                        Ok(word) => 1 <= word.len() && word.len() < PLACE_LIMIT as usize && index
                            < word.len(),
                        Err(_) => false,
                    };
                    let some_placed = self.has_placed_word_other_than(word_id);
                    if letter_matches && in_bounds && word_ok && some_placed {
                        let ghost pre = *self;
                        let placed = self.try_place_word_in_cell_connected(
                            location,
                            word_id,
                            index,
                            direction,
                        );
                        if placed {
                            proof {
                                self.lemma_place_success(pre, orig, word_id);
                            }
                            return true;
                        }
                        proof {
                            assert forall|j: usize|
                                orig.spec_has_word(j) implies (#[trigger] self.spec_word(
                                j,
                            )).placement == orig.spec_word(j).placement && self.spec_word(
                                j,
                            ).word_text == orig.spec_word(j).word_text by {
                                assert(self.spec_word(j).placement == pre.spec_word(
                                    j,
                                ).placement);
                            }
                        }
                    }
                    s += 1;
                }
                index += 1;
            }
            w += 1;
        }
        proof {
            self.lemma_placements_equal_count(orig);
        }
        false
    }

    /// A successful placement raises the placed count by exactly one,
    /// relative to the state the search started from.
    proof fn lemma_place_success(
        self,
        pre: CrosswordGrid,
        orig: CrosswordGrid,
        word_id: usize,
    )
        requires
            self.wf(),
            pre.wf(),
            orig.wf(),
            forall|j: usize| #[trigger] pre.spec_has_word(j) == orig.spec_has_word(j),
            forall|j: usize|
                orig.spec_has_word(j) ==> (#[trigger] pre.spec_word(j)).placement
                    == orig.spec_word(j).placement && pre.spec_word(j).word_text
                    == orig.spec_word(j).word_text,
            forall|j: usize| #[trigger] self.spec_has_word(j) == pre.spec_has_word(j),
            self.spec_has_word(word_id),
            self.spec_word(word_id).spec_is_placed(),
            !pre.spec_word(word_id).spec_is_placed(),
            self.spec_word(word_id).word_text == pre.spec_word(word_id).word_text,
            forall|j: usize|
                j != word_id && pre.spec_has_word(j) ==> #[trigger] self.spec_word(j)
                    == pre.spec_word(j),
        ensures
            forall|j: usize| #[trigger] self.spec_has_word(j) == orig.spec_has_word(j),
            forall|j: usize|
                orig.spec_has_word(j) ==> (#[trigger] self.spec_word(j)).word_text
                    == orig.spec_word(j).word_text,
            self.spec_count_placed(self.spec_words().len() as int) == orig.spec_count_placed(
                orig.spec_words().len() as int,
            ) + 1,
    {
        assert(orig.spec_has_word(word_id));
        assert(!orig.spec_word(word_id).spec_is_placed());
        self.lemma_words_pointwise(orig);
        let k = self.spec_word_index(word_id);
        assert(self.spec_words()[k].id == word_id);
        assert(orig.spec_words()[k].id == word_id);
        orig.lemma_word_index(word_id, k);
        assert forall|q: int|
            0 <= q < self.spec_words().len() && q != k implies (#[trigger] orig.spec_words()[
        q]).word.spec_is_placed() == self.spec_words()[q].word.spec_is_placed() by {
            let id = self.spec_words()[q].id;
            assert(id != word_id) by {
                if id == word_id {
                    self.lemma_word_index(word_id, q);
                }
            }
            assert(self.spec_word(id) == pre.spec_word(id));
        }
        CrosswordGrid::lemma_count_placed_flip(
            orig,
            self,
            k,
            self.spec_words().len() as int,
        );
    }

    /// Is some word other than `word_id` placed?
    fn has_placed_word_other_than(&self, word_id: usize) -> (r: bool)
        requires
            self.wf(),
        ensures
            r == exists|k: int|
                0 <= k < self.spec_words().len() && (#[trigger] self.spec_words()[k]).id
                    != word_id && self.spec_words()[k].word.spec_is_placed(),
    {
        let mut k: usize = 0;
        while k < self.word_map.len()
            invariant
                self.wf(),
                k <= self.spec_words().len(),
                forall|q: int|
                    0 <= q < k ==> !((#[trigger] self.spec_words()[q]).id != word_id
                        && self.spec_words()[q].word.spec_is_placed()),
            decreases self.spec_words().len() - k,
        {
            if self.word_map[k].id != word_id && self.word_map[k].word.is_placed() {
                proof {
                    assert(self.spec_words()[k as int].id != word_id);
                }
                return true;
            }
            k += 1;
        }
        false
    }

    /// Unplace up to `num_leaves` leaf words (words intersecting at most one
    /// other), chosen in seeded-shuffled order, while more than one word
    /// stays placed. Words are never added, renamed or newly placed, and at
    /// least one placed word survives.
    pub fn remove_random_leaves(&mut self, num_leaves: usize, seed: u64)
        requires
            old(self).wf(),
            old(self).spec_placement_ok(),
            old(self).spec_boundaries_in_box(),
            old(self).spec_no_black_overlap(),
            old(self).spec_letters_bounded(),
            old(self).spec_box_bounded(),
        ensures
            final(self).wf(),
            final(self).spec_placement_ok(),
            final(self).spec_boundaries_in_box(),
            final(self).spec_no_black_overlap(),
            final(self).spec_letters_bounded(),
            final(self).spec_box_bounded(),
            forall|j: usize| #[trigger] final(self).spec_has_word(j) == old(self).spec_has_word(j),
            forall|j: usize|
                old(self).spec_has_word(j) ==> (#[trigger] final(self).spec_word(j)).word_text
                    == old(self).spec_word(j).word_text,
            forall|j: usize|
                old(self).spec_has_word(j) && (#[trigger] final(self).spec_word(
                    j,
                )).spec_is_placed() ==> final(self).spec_word(j).placement == old(self).spec_word(j).placement,
            (exists|k: int|
                0 <= k < old(self).spec_words().len() && (#[trigger] old(self).spec_words()[
                k]).word.spec_is_placed()) ==> exists|k: int|
                0 <= k < final(self).spec_words().len() && (#[trigger] final(self).spec_words()[k]).word.spec_is_placed(),
            final(self).spec_count_placed(final(self).spec_words().len() as int) >= old(self).spec_count_placed(old(self).spec_words().len() as int) - num_leaves,
    {
        let graph = self.to_graph();
        let mut leaves = graph.find_leaves();
        let mut rng = rng_from_seed(seed);
        shuffle_usizes(&mut leaves, &mut rng);
        let ghost orig = *old(self);
        let mut count: usize = 0;
        while count < num_leaves
            invariant
                self.wf(),
                self.spec_placement_ok(),
                self.spec_boundaries_in_box(),
                self.spec_no_black_overlap(),
                self.spec_letters_bounded(),
                self.spec_box_bounded(),
                orig.wf(),
                orig == *old(self),
                count <= num_leaves,
                forall|j: usize| #[trigger] self.spec_has_word(j) == orig.spec_has_word(j),
                forall|j: usize|
                    orig.spec_has_word(j) ==> (#[trigger] self.spec_word(j)).word_text
                        == orig.spec_word(j).word_text,
                forall|j: usize|
                    orig.spec_has_word(j) && (#[trigger] self.spec_word(j)).spec_is_placed()
                        ==> self.spec_word(j).placement == orig.spec_word(j).placement,
                self.spec_count_placed(self.spec_words().len() as int) >= orig.spec_count_placed(
                    orig.spec_words().len() as int,
                ) - count,
                (exists|k: int|
                    0 <= k < orig.spec_words().len() && (#[trigger] orig.spec_words()[
                    k]).word.spec_is_placed()) ==> exists|k: int|
                    0 <= k < self.spec_words().len() && (#[trigger] self.spec_words()[
                    k]).word.spec_is_placed(),
            decreases num_leaves - count,
        {
            if self.count_placed_words() <= 1 {
                return ;
            }
            let popped = leaves.pop();
            let ghost pre = *self;
            match popped {
                Some(word_id) => {
                    if self.can_unplace(word_id) {
                        self.unplace_word(word_id);
                        proof {
                            self.lemma_leaf_removal_step(pre, orig, word_id, count as int);
                            let k0 = choose|k: int|
                                0 <= k < pre.spec_words().len() && (
                                #[trigger] pre.spec_words()[k]).id != word_id
                                    && pre.spec_words()[k].word.spec_is_placed();
                            let id0 = pre.spec_words()[k0].id;
                            pre.lemma_word_index(id0, k0);
                            assert(self.spec_word(id0) == pre.spec_word(id0));
                            assert(self.spec_has_word(id0));
                            let k1 = self.spec_word_index(id0);
                            assert(self.spec_words()[k1].id == id0);
                            assert(self.spec_words()[k1].word.spec_is_placed());
                        }
                    }
                },
                None => {},
            }
            count += 1;
        }
    }

    /// One leaf removal keeps the word set, texts, kept placements and the
    /// count bound.
    proof fn lemma_leaf_removal_step(
        self,
        pre: CrosswordGrid,
        orig: CrosswordGrid,
        word_id: usize,
        count: int,
    )
        requires
            self.wf(),
            pre.wf(),
            orig.wf(),
            count >= 0,
            forall|j: usize| #[trigger] pre.spec_has_word(j) == orig.spec_has_word(j),
            forall|j: usize|
                orig.spec_has_word(j) ==> (#[trigger] pre.spec_word(j)).word_text
                    == orig.spec_word(j).word_text,
            forall|j: usize|
                orig.spec_has_word(j) && (#[trigger] pre.spec_word(j)).spec_is_placed()
                    ==> pre.spec_word(j).placement == orig.spec_word(j).placement,
            pre.spec_count_placed(pre.spec_words().len() as int) >= orig.spec_count_placed(
                orig.spec_words().len() as int,
            ) - count,
            forall|j: usize| #[trigger] self.spec_has_word(j) == pre.spec_has_word(j),
            forall|j: usize|
                j != word_id && pre.spec_has_word(j) ==> #[trigger] self.spec_word(j)
                    == pre.spec_word(j),
            pre.spec_has_word(word_id) ==> !self.spec_word(word_id).spec_is_placed()
                && self.spec_word(word_id).word_text == pre.spec_word(word_id).word_text,
        ensures
            forall|j: usize| #[trigger] self.spec_has_word(j) == orig.spec_has_word(j),
            forall|j: usize|
                orig.spec_has_word(j) ==> (#[trigger] self.spec_word(j)).word_text
                    == orig.spec_word(j).word_text,
            forall|j: usize|
                orig.spec_has_word(j) && (#[trigger] self.spec_word(j)).spec_is_placed()
                    ==> self.spec_word(j).placement == orig.spec_word(j).placement,
            self.spec_count_placed(self.spec_words().len() as int) >= orig.spec_count_placed(
                orig.spec_words().len() as int,
            ) - count - 1,
    {
        self.lemma_words_pointwise(pre);
        let k: int = if pre.spec_has_word(word_id) {
            pre.spec_word_index(word_id)
        } else {
            -1
        };
        assert forall|q: int|
            0 <= q < self.spec_words().len() && q != k implies (#[trigger] self.spec_words()[
        q]).word.spec_is_placed() == pre.spec_words()[q].word.spec_is_placed() by {
            let id = self.spec_words()[q].id;
            assert(id != word_id) by {
                if id == word_id {
                    pre.lemma_word_index(word_id, q);
                }
            }
            assert(self.spec_word(id) == pre.spec_word(id));
            self.lemma_word_index(id, q);
            pre.lemma_word_index(id, q);
        }
        if 0 <= k < self.spec_words().len() {
            assert(self.spec_words()[k].id == word_id) by {
                assert(pre.spec_words()[k].id == word_id);
            }
            self.lemma_word_index(word_id, k);
            assert(!self.spec_words()[k].word.spec_is_placed());
        }
        CrosswordGrid::lemma_count_placed_drop(
            pre,
            self,
            k,
            self.spec_words().len() as int,
        );
    }

    /// May `word_id` be unplaced while leaving a letter on the grid?
    fn can_unplace(&self, word_id: usize) -> (r: bool)
        requires
            self.wf(),
        ensures
            r == exists|k: int|
                0 <= k < self.spec_words().len() && (#[trigger] self.spec_words()[k]).id
                    != word_id && self.spec_words()[k].word.spec_is_placed(),
    {
        self.has_placed_word_other_than(word_id)
    }
}

} // verus!
