use vstd::prelude::*;

use super::Direction;
use super::Location;
use super::spec_step;

verus! {

#[derive(Debug)]
pub enum ParseError {
    InvalidAnswerChar(char, Vec<char>),
    EmptyAnswer(Vec<char>),
}

/// The characters of `s` as a vector.
pub fn str_to_chars(s: &str) -> (r: Vec<char>)
    ensures
        r@ == s@,
{
    let n = s.unicode_len();
    let mut out: Vec<char> = Vec::new();
    let mut i: usize = 0;
    while i < n
        invariant
            n == s@.len(),
            i <= n,
            out@ == s@.take(i as int),
        decreases n - i,
    {
        out.push(s.get_char(i));
        i += 1;
        proof {
            assert(out@ =~= s@.take(i as int));
        }
    }
    proof {
        assert(s@.take(n as int) =~= s@);
    }
    out
}

pub open spec fn spec_digit_char(d: int) -> char {
    if d == 0 {
        '0'
    } else if d == 1 {
        '1'
    } else if d == 2 {
        '2'
    } else if d == 3 {
        '3'
    } else if d == 4 {
        '4'
    } else if d == 5 {
        '5'
    } else if d == 6 {
        '6'
    } else if d == 7 {
        '7'
    } else if d == 8 {
        '8'
    } else {
        '9'
    }
}

/// The decimal digits of `n`, most significant first.
pub open spec fn spec_digits(n: int) -> Seq<char>
    decreases n,
{
    if n < 10 {
        seq![spec_digit_char(n)]
    } else {
        spec_digits(n / 10).push(spec_digit_char(n % 10))
    }
}

/// `n` written in decimal.
pub fn digits_of(n: usize) -> (r: Vec<char>)
    ensures
        r@ == spec_digits(n as int),
    decreases n,
{
    if n < 10 {
        let c: char = match n {
            0 => '0',
            1 => '1',
            2 => '2',
            3 => '3',
            4 => '4',
            5 => '5',
            6 => '6',
            7 => '7',
            8 => '8',
            _ => '9',
        };
        let mut r: Vec<char> = Vec::new();
        r.push(c);
        proof {
            assert(r@ =~= spec_digits(n as int));
        }
        r
    } else {
        let mut r = digits_of(n / 10);
        let c: char = match n % 10 {
            0 => '0',
            1 => '1',
            2 => '2',
            3 => '3',
            4 => '4',
            5 => '5',
            6 => '6',
            7 => '7',
            8 => '8',
            _ => '9',
        };
        r.push(c);
        r
    }
}

/// A character the answer parser accepts as a letter: an ASCII letter.
pub open spec fn spec_is_answer_char(c: char) -> bool {
    ('A' <= c && c <= 'Z') || ('a' <= c && c <= 'z')
}

/// Upper-case for ASCII lower-case letters, identity otherwise.
pub open spec fn spec_upper(c: char) -> char {
    if 'a' <= c && c <= 'z' {
        (((c as int) - 32) as u8) as char
    } else {
        c
    }
}

fn upper_char(c: char) -> (r: char)
    ensures
        r == spec_upper(c),
{
    if c >= 'a' && c <= 'z' {
        (((c as u32) - 32) as u8) as char
    } else {
        c
    }
}

/// The answer parser's state after reading `s`: the upper-cased letters, the
/// word-length marker built so far, the length of the current fragment, and
/// whether every character was acceptable.
pub open spec fn spec_parse_answer(s: Seq<char>) -> (Seq<char>, Seq<char>, int, bool)
    decreases s.len(),
{
    if s.len() == 0 {
        (Seq::<char>::empty(), seq!['('], 0int, true)
    } else {
        let prev = spec_parse_answer(s.drop_last());
        let c = s.last();
        if c == '-' {
            (prev.0, prev.1 + spec_digits(prev.2) + seq!['-'], 0int, prev.3)
        } else if c == ' ' {
            (prev.0, prev.1 + spec_digits(prev.2) + seq![','], 0int, prev.3)
        } else if spec_is_answer_char(c) {
            (prev.0.push(spec_upper(c)), prev.1, prev.2 + 1, prev.3)
        } else {
            (prev.0, prev.1, prev.2, false)
        }
    }
}

/// Once a bad character has been seen, the whole parse stays rejected.
proof fn lemma_parse_prefix_bad(s: Seq<char>, j: int)
    requires
        0 <= j <= s.len(),
        !spec_parse_answer(s.take(j)).3,
    ensures
        !spec_parse_answer(s).3,
    decreases s.len() - j,
{
    if j < s.len() {
        assert(s.take(j + 1).drop_last() =~= s.take(j));
        assert(!spec_parse_answer(s.take(j + 1)).3);
        lemma_parse_prefix_bad(s, j + 1);
    } else {
        assert(s.take(j) =~= s);
    }
}

/// Parse an answer: letters are upper-cased and collected, spaces and
/// hyphens split fragments, and the fragment lengths are recorded in a
/// marker such as `(3-4)`. Rejects other characters, and empty answers.
pub fn parse_answer_string(string: &str) -> (r: Result<(Vec<char>, Vec<char>), ParseError>)
    ensures
        ({
            let parsed = spec_parse_answer(string@);
            match r {
                Ok(parts) => {
                    &&& parsed.3
                    &&& parsed.0.len() > 0
                    &&& parts.0@ == parsed.0
                    &&& parts.1@ == parsed.1 + spec_digits(parsed.2) + seq![')']
                },
                Err(ParseError::InvalidAnswerChar(c, s)) => {
                    &&& !parsed.3
                    &&& s@ == string@
                    &&& exists|i: int|
                        0 <= i < string@.len() && string@[i] == c && !spec_is_answer_char(c) && c
                            != '-' && c != ' '
                },
                Err(ParseError::EmptyAnswer(s)) => {
                    &&& parsed.3
                    &&& parsed.0.len() == 0
                    &&& s@ == string@
                },
            }
        }),
{
    let chars = str_to_chars(string);
    let mut word: Vec<char> = Vec::new();
    let mut word_lengths: Vec<char> = Vec::new();
    word_lengths.push('(');
    let mut current_word_len: usize = 0;
    let mut i: usize = 0;
    proof {
        assert(word_lengths@ =~= seq!['(']);
    }
    while i < chars.len()
        invariant
            chars@ == string@,
            i <= chars@.len(),
            current_word_len <= i,
            ({
                let parsed = spec_parse_answer(string@.take(i as int));
                &&& parsed.3
                &&& word@ == parsed.0
                &&& word_lengths@ == parsed.1
                &&& current_word_len as int == parsed.2
            }),
        decreases chars@.len() - i,
    {
        let c = chars[i];
        proof {
            assert(string@.take(i + 1).drop_last() =~= string@.take(i as int));
            assert(string@.take(i + 1).last() == c);
        }
        if c == '-' {
            let mut ds = digits_of(current_word_len);
            word_lengths.append(&mut ds);
            word_lengths.push('-');
            current_word_len = 0;
            proof {
                let parsed = spec_parse_answer(string@.take(i + 1));
                assert(word_lengths@ =~= parsed.1);
            }
        } else if c == ' ' {
            let mut ds = digits_of(current_word_len);
            word_lengths.append(&mut ds);
            word_lengths.push(',');
            current_word_len = 0;
            proof {
                let parsed = spec_parse_answer(string@.take(i + 1));
                assert(word_lengths@ =~= parsed.1);
            }
        } else if (c >= 'A' && c <= 'Z') || (c >= 'a' && c <= 'z') {
            word.push(upper_char(c));
            current_word_len += 1;
        } else {
            proof {
                assert(string@[i as int] == c);
                assert(!spec_parse_answer(string@.take(i + 1)).3);
                lemma_parse_prefix_bad(string@, i + 1);
            }
            return Err(ParseError::InvalidAnswerChar(c, chars));
        }
        i += 1;
    }
    proof {
        assert(string@.take(chars@.len() as int) =~= string@);
    }
    if word.len() == 0 {
        return Err(ParseError::EmptyAnswer(chars));
    }
    let mut ds = digits_of(current_word_len);
    word_lengths.append(&mut ds);
    word_lengths.push(')');
    proof {
        let parsed = spec_parse_answer(string@);
        assert(word_lengths@ =~= parsed.1 + spec_digits(parsed.2) + seq![')']);
    }
    Ok((word, word_lengths))
}

#[derive(Clone, Copy, Debug, PartialEq, Eq, Structural)]
pub struct WordPlacement {
    pub start_location: Location,
    pub end_location: Location,
    pub direction: Direction,
}

impl WordPlacement {
    /// A placement of a word of length `len` from `start_location` along
    /// `direction`; the end location is `len - 1` steps further.
    pub fn new(len: usize, start_location: Location, direction: Direction) -> (r: Self)
        requires
            len >= 1,
            len <= super::COORD_LIMIT,
            -super::COORD_LIMIT <= start_location.0 <= super::COORD_LIMIT,
            -super::COORD_LIMIT <= start_location.1 <= super::COORD_LIMIT,
        ensures
            r.start_location == start_location,
            r.direction == direction,
            r.end_location == spec_step(start_location, len - 1, direction),
    {
        let mut end_location = start_location;
        match direction {
            Direction::Across => {
                end_location.1 = end_location.1 + (len as isize) - 1;
            },
            Direction::Down => {
                end_location.0 = end_location.0 + (len as isize) - 1;
            },
        }
        WordPlacement { start_location, end_location, direction }
    }
}

/// A word: its answer text, its clue, an optional forced orientation, and
/// its current placement when placed.
#[derive(Clone, Debug)]
pub struct Word {
    pub word_text: Vec<char>,
    pub placement: Option<WordPlacement>,
    pub clue: Vec<char>,
    pub required_direction: Option<Direction>,
}

impl Word {
    /// A word is well formed when its placement, if any, spans exactly its
    /// length, within coordinate bounds.
    pub open spec fn wf(self) -> bool {
        match self.placement {
            Some(p) => {
                &&& self.word_text@.len() >= 1
                &&& self.word_text@.len() <= super::COORD_LIMIT
                &&& -super::COORD_LIMIT <= p.start_location.0 <= super::COORD_LIMIT
                &&& -super::COORD_LIMIT <= p.start_location.1 <= super::COORD_LIMIT
                &&& p.end_location == spec_step(
                    p.start_location,
                    self.word_text@.len() - 1,
                    p.direction,
                )
                &&& (match self.required_direction {
                    Some(d) => d == p.direction,
                    None => true,
                })
            },
            None => true,
        }
    }

    pub open spec fn spec_is_placed(self) -> bool {
        self.placement is Some
    }

    pub open spec fn spec_len(self) -> int {
        self.word_text@.len() as int
    }

    /// A newly placed word.
    pub fn new(
        string: &str,
        start_location: Location,
        direction: Direction,
        required_direction: Option<Direction>,
    ) -> (r: Self)
        requires
            string@.len() >= 1,
            string@.len() <= super::COORD_LIMIT,
            -super::COORD_LIMIT <= start_location.0 <= super::COORD_LIMIT,
            -super::COORD_LIMIT <= start_location.1 <= super::COORD_LIMIT,
            match required_direction {
                Some(d) => d == direction,
                None => true,
            },
        ensures
            r.word_text@ == string@,
            r.spec_is_placed(),
            r.placement.unwrap().start_location == start_location,
            r.placement.unwrap().direction == direction,
            r.required_direction == required_direction,
            r.wf(),
    {
        let word_text = str_to_chars(string);
        let placement = WordPlacement::new(word_text.len(), start_location, direction);
        Word {
            word_text,
            placement: Some(placement),
            clue: str_to_chars("Bla bla bla (6)"),
            required_direction,
        }
    }

    /// A placed word built from its letters.
    pub fn new_placed_chars(
        word_text: Vec<char>,
        start_location: Location,
        direction: Direction,
    ) -> (r: Self)
        requires
            1 <= word_text@.len() <= super::COORD_LIMIT,
            -super::COORD_LIMIT <= start_location.0 <= super::COORD_LIMIT,
            -super::COORD_LIMIT <= start_location.1 <= super::COORD_LIMIT,
        ensures
            r.word_text@ == word_text@,
            r.spec_is_placed(),
            r.placement.unwrap().start_location == start_location,
            r.placement.unwrap().direction == direction,
            r.required_direction is None,
            r.wf(),
    {
        let placement = WordPlacement::new(word_text.len(), start_location, direction);
        Word {
            word_text,
            placement: Some(placement),
            clue: Vec::new(),
            required_direction: None,
        }
    }

    /// A word not yet placed in any grid.
    pub fn new_unplaced(word_text: &str, clue: &str, required_direction: Option<Direction>) -> (r:
        Self)
        ensures
            r.word_text@ == word_text@,
            r.clue@ == clue@,
            !r.spec_is_placed(),
            r.required_direction == required_direction,
            r.wf(),
    {
        Word {
            word_text: str_to_chars(word_text),
            placement: None,
            clue: str_to_chars(clue),
            required_direction,
        }
    }

    /// The start, end and direction of the placement, when placed.
    pub fn get_location(&self) -> (r: Option<(Location, Location, Direction)>)
        ensures
            match r {
                Some(t) => self.spec_is_placed() && t.0 == self.placement.unwrap().start_location
                    && t.1 == self.placement.unwrap().end_location && t.2
                    == self.placement.unwrap().direction,
                None => !self.spec_is_placed(),
            },
    {
        if let Some(word_placement) = &self.placement {
            Some(
                (
                    word_placement.start_location,
                    word_placement.end_location,
                    word_placement.direction,
                ),
            )
        } else {
            None
        }
    }

    /// A deep copy of this word.
    pub fn clone_data(&self) -> (r: Word)
        ensures
            r.word_text@ == self.word_text@,
            r.placement == self.placement,
            r.clue@ == self.clue@,
            r.required_direction == self.required_direction,
            r.wf() == self.wf(),
    {
        let mut text: Vec<char> = Vec::new();
        let mut k: usize = 0;
        while k < self.word_text.len()
            invariant
                k <= self.word_text@.len(),
                text@ == self.word_text@.take(k as int),
            decreases self.word_text@.len() - k,
        {
            text.push(self.word_text[k]);
            k += 1;
            proof {
                assert(text@ =~= self.word_text@.take(k as int));
            }
        }
        let mut clue: Vec<char> = Vec::new();
        let mut k2: usize = 0;
        while k2 < self.clue.len()
            invariant
                k2 <= self.clue@.len(),
                clue@ == self.clue@.take(k2 as int),
            decreases self.clue@.len() - k2,
        {
            clue.push(self.clue[k2]);
            k2 += 1;
            proof {
                assert(clue@ =~= self.clue@.take(k2 as int));
            }
        }
        proof {
            assert(self.word_text@.take(self.word_text@.len() as int) =~= self.word_text@);
            assert(self.clue@.take(self.clue@.len() as int) =~= self.clue@);
        }
        Word {
            word_text: text,
            placement: self.placement,
            clue,
            required_direction: self.required_direction,
        }
    }

    pub fn remove_placement(&mut self)
        ensures
            !final(self).spec_is_placed(),
            final(self).word_text == old(self).word_text,
            final(self).clue == old(self).clue,
            final(self).required_direction == old(self).required_direction,
            final(self).wf(),
    {
        self.placement = None;
    }

    pub fn is_placed(&self) -> (r: bool)
        ensures
            r == self.spec_is_placed(),
    {
        self.placement.is_some()
    }

    pub fn len(&self) -> (r: usize)
        ensures
            r == self.spec_len(),
    {
        self.word_text.len()
    }

    /// The letter at `index`.
    pub fn get_char_at_index(&self, index: usize) -> (r: char)
        requires
            index < self.spec_len(),
        ensures
            r == self.word_text@[index as int],
    {
        self.word_text[index]
    }

    pub fn get_required_direction(&self) -> (r: Option<Direction>)
        ensures
            r == self.required_direction,
    {
        self.required_direction
    }

    /// May this word lie along `direction`?
    pub fn allowed_in_direction(&self, direction: Direction) -> (r: bool)
        ensures
            r == self.spec_allowed_in(direction),
    {
        match self.required_direction {
            None => true,
            Some(dir) => dir == direction,
        }
    }

    pub open spec fn spec_allowed_in(self, direction: Direction) -> bool {
        match self.required_direction {
            None => true,
            Some(dir) => dir == direction,
        }
    }

    /// Place the word at `start_location` along `direction`.
    pub fn update_location(&mut self, start_location: Location, direction: Direction)
        requires
            old(self).spec_allowed_in(direction),
            old(self).spec_len() >= 1,
            old(self).spec_len() <= super::COORD_LIMIT,
            -super::COORD_LIMIT <= start_location.0 <= super::COORD_LIMIT,
            -super::COORD_LIMIT <= start_location.1 <= super::COORD_LIMIT,
        ensures
            final(self).word_text == old(self).word_text,
            final(self).clue == old(self).clue,
            final(self).required_direction == old(self).required_direction,
            final(self).spec_is_placed(),
            final(self).placement.unwrap().start_location == start_location,
            final(self).placement.unwrap().direction == direction,
            final(self).placement.unwrap().end_location == spec_step(
                start_location,
                old(self).spec_len() - 1,
                direction,
            ),
            final(self).wf(),
    {
        let placement = WordPlacement::new(self.word_text.len(), start_location, direction);
        self.placement = Some(placement);
    }
}

} // verus!
