use vstd::prelude::*;

use super::Cell;
use super::CrosswordGrid;
use super::Direction;
use super::Location;
use super::Word;
use super::WordEntry;
use super::word::str_to_chars;

verus! {

/// The index of the first newline in `s`, or its length when none.
pub open spec fn spec_first_nl(s: Seq<char>) -> int
    decreases s.len(),
{
    if s.len() == 0 {
        0
    } else if s.first() == '\n' {
        0
    } else {
        1 + spec_first_nl(s.drop_first())
    }
}

/// Line `r` of the text: characters between the `r`-th and the next
/// newline; empty past the last line.
pub open spec fn spec_line(s: Seq<char>, r: int) -> Seq<char>
    decreases r,
{
    if r <= 0 {
        s.take(spec_first_nl(s))
    } else if spec_first_nl(s) >= s.len() {
        Seq::<char>::empty()
    } else {
        spec_line(s.skip(spec_first_nl(s) + 1), r - 1)
    }
}

/// The character of the text at row `r`, column `c`: a space outside the
/// written region.
pub open spec fn spec_text_char(s: Seq<char>, r: int, c: int) -> char {
    if r >= 0 && 0 <= c < spec_line(s, r).len() {
        spec_line(s, r)[c]
    } else {
        ' '
    }
}

/// The first newline is where the first `'\n'` character sits.
proof fn lemma_first_nl_at(u: Seq<char>, j: int)
    requires
        0 <= j < u.len(),
        u[j] == '\n',
        forall|k: int| 0 <= k < j ==> u[k] != '\n',
    ensures
        spec_first_nl(u) == j,
    decreases j,
{
    if j > 0 {
        assert(u.first() != '\n');
        let t = u.drop_first();
        assert(t[j - 1] == '\n');
        assert forall|k: int| 0 <= k < j - 1 implies t[k] != '\n' by {
            assert(t[k] == u[k + 1]);
        }
        lemma_first_nl_at(t, j - 1);
    }
}

/// With no newline at all, the first newline is the end.
proof fn lemma_first_nl_none(u: Seq<char>)
    requires
        forall|k: int| 0 <= k < u.len() ==> u[k] != '\n',
    ensures
        spec_first_nl(u) == u.len(),
    decreases u.len(),
{
    if u.len() > 0 {
        let t = u.drop_first();
        assert forall|k: int| 0 <= k < t.len() implies t[k] != '\n' by {
            assert(t[k] == u[k + 1]);
        }
        lemma_first_nl_none(t);
    }
}

/// Lines of equal texts are equal.
proof fn lemma_line_ext(u: Seq<char>, v: Seq<char>, q: int)
    requires
        u == v,
    ensures
        spec_line(u, q) == spec_line(v, q),
{
}

/// Builds a grid from its textual rendering: rows of letters and spaces,
/// one line per row. Maximal runs of two or more letters become placed
/// words, across ones row by row and down ones column by column.
pub struct CrosswordGridBuilder {
    word_index: usize,
}

impl CrosswordGridBuilder {
    pub fn new() -> (r: Self) {
        CrosswordGridBuilder { word_index: 0 }
    }

    /// Parse a rendering into a grid: each text character lands on its
    /// row and column, spaces and missing columns give empty cells, and
    /// nothing is black. When the text holds any letter, the grid is
    /// re-fitted around it.
    #[verifier::rlimit(100)]
    #[verifier::spinoff_prover]
    pub fn from_string(&mut self, string: &str) -> (g: CrosswordGrid)
        requires
            string@.len() < 8000,
        ensures
            g.wf(),
            forall|r: int, c: int|
                #[trigger] g.spec_in_box(r, c) ==> builder_cell_ok(
                    g.spec_cell(r, c),
                    string@,
                    r,
                    c,
                ),
            forall|r: int, c: int|
                #[trigger] spec_text_char(string@, r, c) != ' ' ==> g.spec_in_box(r, c),
    {
        let ghost sv = string@;
        let chars = str_to_chars(string);
        // split into rows
        let mut rows: Vec<Vec<char>> = Vec::new();
        let mut current: Vec<char> = Vec::new();
        let mut i: usize = 0;
        proof {
            assert(sv.skip(0) =~= sv);
        }
        while i < chars.len()
            invariant
                chars@ == sv,
                sv.len() < 8000,
                i <= sv.len(),
                current@.len() <= i,
                rows@.len() <= i,
                current@ == sv.subrange(i - current@.len(), i as int),
                forall|k: int|
                    0 <= k < current@.len() ==> #[trigger] current@[k] != '\n',
                forall|q: int|
                    0 <= q < rows@.len() ==> (#[trigger] rows@[q]@) == spec_line(sv, q),
                forall|q: int|
                    q >= 0 ==> #[trigger] spec_line(sv, rows@.len() + q) == spec_line(
                        sv.skip(i - current@.len()),
                        q,
                    ),
                forall|q: int| 0 <= q < rows@.len() ==> (#[trigger] rows@[q]@.len()) < 8000,
            decreases sv.len() - i,
        {
            let ghost base = i - current@.len();
            let ghost u = sv.skip(base);
            let c = chars[i];
            if c == '\n' {
                proof {
                    assert forall|k: int| 0 <= k < i - base implies #[trigger] u[k] != '\n' by {
                        assert(u[k] == sv[base + k]);
                        assert(sv[base + k] == current@[k]);
                    }
                    assert(u[i - base] == '\n');
                    lemma_first_nl_at(u, i - base);
                    assert(u.take(i - base) =~= current@);
                    assert(spec_line(u, 0) == current@);
                    assert(spec_line(sv, rows@.len() as int + 0) == spec_line(
                        sv.skip(i - current@.len()),
                        0,
                    ));
                    assert(spec_line(sv, rows@.len() as int) == current@);
                }
                let ghost rows_pre = rows@;
                rows.push(current);
                current = Vec::new();
                proof {
                    assert forall|q: int|
                        0 <= q < rows@.len() implies (#[trigger] rows@[q]@) == spec_line(
                        sv,
                        q,
                    ) by {
                        if q < rows_pre.len() {
                            assert(rows@[q] == rows_pre[q]);
                        }
                    }
                    assert(u.skip(i - base + 1) =~= sv.skip(i + 1));
                    assert forall|q: int|
                        q >= 0 implies #[trigger] spec_line(sv, rows@.len() + q) == spec_line(
                        sv.skip(i + 1),
                        q,
                    ) by {
                        assert(spec_line(sv, rows_pre.len() + (1 + q)) == spec_line(u, 1 + q));
                        assert(spec_line(u, 1 + q) == spec_line(
                            u.skip(spec_first_nl(u) + 1),
                            q,
                        ));
                        lemma_line_ext(u.skip(i - base + 1), sv.skip(i + 1), q);
                    }
                    assert(current@ =~= sv.subrange(i + 1 - current@.len(), i + 1));
                }
            } else {
                current.push(c);
                proof {
                    assert(current@ =~= sv.subrange(i + 1 - current@.len(), i + 1));
                }
            }
            i += 1;
        }
        let ghost hbase = i - current@.len();
        if current.len() > 0 {
            proof {
                let u = sv.skip(hbase);
                assert forall|k: int| 0 <= k < u.len() implies #[trigger] u[k] != '\n' by {
                    assert(u[k] == sv[hbase + k]);
                    assert(sv[hbase + k] == current@[k]);
                }
                lemma_first_nl_none(u);
                assert(u.take(u.len() as int) =~= u);
                assert(u =~= current@);
                assert(spec_line(sv, rows@.len() as int + 0) == spec_line(
                    sv.skip(i - current@.len()),
                    0,
                ));
                assert(spec_line(sv, rows@.len() as int) == current@);
            }
            let ghost rows_pre = rows@;
            rows.push(current);
            proof {
                assert forall|q: int|
                    0 <= q < rows@.len() implies (#[trigger] rows@[q]@) == spec_line(sv, q) by {
                    if q < rows_pre.len() {
                        assert(rows@[q] == rows_pre[q]);
                    }
                }
                let u = sv.skip(hbase);
                assert forall|q: int|
                    q >= rows@.len() implies (#[trigger] spec_line(sv, q)).len() == 0 by {
                    let j = q - rows_pre.len();
                    assert(spec_line(sv, rows_pre.len() + j) == spec_line(
                        sv.skip(i - (rows@[rows_pre.len() as int]@.len() as int)),
                        j,
                    )) by {
                        assert(sv.skip(i - (rows@[rows_pre.len() as int]@.len() as int)) == u);
                    }
                    assert(spec_first_nl(u) >= u.len());
                    assert(spec_line(u, j).len() == 0);
                }
            }
        } else {
            proof {
                let u = sv.skip(hbase);
                assert(u =~= current@);
                assert(u.len() == 0);
                assert forall|q: int|
                    q >= rows@.len() implies (#[trigger] spec_line(sv, q)).len() == 0 by {
                    let j = q - rows@.len();
                    assert(spec_line(sv, rows@.len() + j) == spec_line(
                        sv.skip(i - current@.len()),
                        j,
                    ));
                    assert(sv.skip(i - current@.len()) == u);
                    if j <= 0 {
                        assert(u.take(spec_first_nl(u)) =~= Seq::<char>::empty());
                    } else {
                        assert(spec_first_nl(u) >= u.len());
                    }
                }
            }
        }
        if rows.len() == 0 {
            let ghost rows_was = rows@;
            let empty_row: Vec<char> = Vec::new();
            rows.push(empty_row);
            proof {
                assert(spec_line(sv, 0).len() == 0);
                assert(rows@[0]@ =~= spec_line(sv, 0));
            }
        }
        // width = longest row
        let mut width: usize = 1;
        let mut k: usize = 0;
        while k < rows.len()
            invariant
                k <= rows@.len(),
                1 <= width < 16000,
                forall|q: int| 0 <= q < rows@.len() ==> (#[trigger] rows@[q]@.len()) < 8000,
                forall|q: int| 0 <= q < k ==> (#[trigger] rows@[q]@.len()) <= width,
            decreases rows@.len() - k,
        {
            if rows[k].len() > width {
                width = rows[k].len();
            }
            k += 1;
        }
        let height = rows.len();
        // build the cell rectangle
        let mut cells: Vec<Vec<Cell>> = Vec::new();
        let mut r: usize = 0;
        while r < height
            invariant
                r <= height,
                height == rows@.len(),
                1 <= width < 16000,
                cells@.len() == r,
                forall|q: int| 0 <= q < rows@.len() ==> (#[trigger] rows@[q]@) == spec_line(sv, q),
                forall|q: int| 0 <= q < rows@.len() ==> (#[trigger] rows@[q]@.len()) <= width,
                forall|q: int| 0 <= q < r ==> (#[trigger] cells@[q]@.len()) == width,
                forall|q: int, c2: int|
                    0 <= q < r && 0 <= c2 < width ==> builder_cell_ok(
                    #[trigger] cells@[q]@[c2],
                    sv,
                    q,
                    c2,
                ),
            decreases height - r,
        {
            let mut row_cells: Vec<Cell> = Vec::new();
            let mut c: usize = 0;
            while c < width
                invariant
                    c <= width,
                    r < height,
                    height == rows@.len(),
                    1 <= width < 16000,
                    row_cells@.len() == c,
                    cells@.len() == r,
                    forall|q: int|
                        0 <= q < rows@.len() ==> (#[trigger] rows@[q]@) == spec_line(sv, q),
                    forall|q: int| 0 <= q < rows@.len() ==> (#[trigger] rows@[q]@.len()) <= width,
                    forall|q: int| 0 <= q < r ==> (#[trigger] cells@[q]@.len()) == width,
                    forall|q: int, c2: int|
                        0 <= q < r && 0 <= c2 < width ==> builder_cell_ok(
                        #[trigger] cells@[q]@[c2],
                        sv,
                        q,
                        c2,
                    ),
                    forall|c2: int|
                        0 <= c2 < c ==> builder_cell_ok(
                        #[trigger] row_cells@[c2],
                        sv,
                        r as int,
                        c2,
                    ),
                decreases width - c,
            {
                let ch: char = if c < rows[r].len() {
                    rows[r][c]
                } else {
                    ' '
                };
                proof {
                    assert(ch == spec_text_char(sv, r as int, c as int)) by {
                        if c < rows@[r as int]@.len() {
                            assert(rows@[r as int]@ == spec_line(sv, r as int));
                        } else {
                            assert(spec_line(sv, r as int).len() <= c);
                        }
                    }
                }
                if ch == ' ' {
                    row_cells.push(Cell::empty());
                } else {
                    row_cells.push(Cell::new(ch, None, None));
                }
                c += 1;
            }
            cells.push(row_cells);
            r += 1;
        }
        // detect across words
        let mut word_map: Vec<WordEntry> = Vec::new();
        let mut next_id: usize = 0;
        let mut ar: usize = 0;
        while ar < height
            invariant
                ar <= height,
                height == cells@.len(),
                1 <= width < 16000,
                height < 8001,
                forall|q: int| 0 <= q < height ==> (#[trigger] cells@[q]@.len()) == width,
                forall|q: int, c2: int|
                    0 <= q < height && 0 <= c2 < width ==> builder_cell_ok(
                    #[trigger] cells@[q]@[c2],
                    sv,
                    q,
                    c2,
                ),
                next_id <= 1 + ar * 16000,
                forall|p: int, q: int|
                    0 <= p < q < word_map@.len() ==> (#[trigger] word_map@[p]).id < (
                    #[trigger] word_map@[q]).id,
                forall|kq: int|
                    0 <= kq < word_map@.len() ==> (#[trigger] word_map@[kq]).id < next_id,
                forall|kq: int| 0 <= kq < word_map@.len() ==> (#[trigger] word_map@[kq]).word.wf(),
            decreases height - ar,
        {
            let mut ac: usize = 0;
            while ac < width
                invariant
                    ac <= width,
                    ar < height,
                    height == cells@.len(),
                    1 <= width < 16000,
                    height < 8001,
                    forall|q: int| 0 <= q < height ==> (#[trigger] cells@[q]@.len()) == width,
                    forall|q: int, c2: int|
                        0 <= q < height && 0 <= c2 < width ==> builder_cell_ok(
                        #[trigger] cells@[q]@[c2],
                        sv,
                        q,
                        c2,
                    ),
                    next_id <= 1 + ar * 16000 + ac,
                    forall|p: int, q: int|
                        0 <= p < q < word_map@.len() ==> (#[trigger] word_map@[p]).id < (
                        #[trigger] word_map@[q]).id,
                    forall|kq: int|
                        0 <= kq < word_map@.len() ==> (#[trigger] word_map@[kq]).id < next_id,
                    forall|kq: int|
                        0 <= kq < word_map@.len() ==> (#[trigger] word_map@[kq]).word.wf(),
                decreases width - ac,
            {
                let starts_run = cells[ar][ac].contains_letter() && (ac == 0 || !cells[ar][ac
                    - 1].contains_letter());
                if starts_run {
                    let mut text: Vec<char> = Vec::new();
                    let mut e: usize = ac;
                    while e < width && cells[ar][e].contains_letter()
                        invariant
                            ac <= e <= width,
                            ar < height,
                            height == cells@.len(),
                            1 <= width < 16000,
                            forall|q: int|
                                0 <= q < height ==> (#[trigger] cells@[q]@.len()) == width,
                            text@.len() == e - ac,
                            forall|c2: int|
                                ac <= c2 < e ==> (#[trigger] cells@[ar as int]@[c2]).spec_is_filled(),
                        decreases width - e,
                    {
                        text.push(cells[ar][e].to_char());
                        e += 1;
                    }
                    if text.len() >= 2 {
                        let wid = next_id;
                        let word = Word::new_placed_chars(
                            text,
                            Location(ar as isize, ac as isize),
                            Direction::Across,
                        );
                        word_map.push(WordEntry { id: wid, word });
                        next_id += 1;
                        let mut m: usize = ac;
                        while m < e
                            invariant
                                ac <= m <= e <= width,
                                ar < height,
                                height == cells@.len(),
                                1 <= width < 16000,
                                forall|q: int|
                                    0 <= q < height ==> (#[trigger] cells@[q]@.len()) == width,
                                forall|q: int, c2: int|
                                    0 <= q < height && 0 <= c2 < width ==> builder_cell_ok(
                                    #[trigger] cells@[q]@[c2],
                                    sv,
                                    q,
                                    c2,
                                ),
                                forall|c2: int|
                                    m <= c2 < e ==> (#[trigger] cells@[ar as int]@[c2]).spec_is_filled(),
                            decreases e - m,
                        {
                            let mut row_vec = cells.remove(ar);
                            let ghost rowsnap = row_vec@;
                            let old_cell = row_vec[m];
                            let new_cell = Cell::new(
                                old_cell.to_char(),
                                Some(wid),
                                old_cell.get_down_word_id(),
                            );
                            row_vec.set(m, new_cell);
                            cells.insert(ar, row_vec);
                            m += 1;
                            proof {
                                assert forall|q: int|
                                    0 <= q < height implies (#[trigger] cells@[q]@.len())
                                    == width by {}
                                assert forall|q: int, c2: int|
                                    0 <= q < height && 0 <= c2 < width implies builder_cell_ok(
                                    #[trigger] cells@[q]@[c2],
                                    sv,
                                    q,
                                    c2,
                                ) by {
                                    if q == ar as int && c2 == m - 1 {
                                        assert(old_cell.spec_is_filled());
                                        assert(new_cell.spec_is_filled());
                                        assert(new_cell.spec_letter()
                                            == old_cell.spec_letter());
                                    }
                                }
                            }
                        }
                    }
                }
                ac += 1;
            }
            ar += 1;
        }
        // detect down words
        let mut dc: usize = 0;
        while dc < width
            invariant
                dc <= width,
                height == cells@.len(),
                1 <= width < 16000,
                height < 8001,
                forall|q: int| 0 <= q < height ==> (#[trigger] cells@[q]@.len()) == width,
                forall|q: int, c2: int|
                    0 <= q < height && 0 <= c2 < width ==> builder_cell_ok(
                    #[trigger] cells@[q]@[c2],
                    sv,
                    q,
                    c2,
                ),
                next_id <= 130000000 + dc * 16000,
                forall|p: int, q: int|
                    0 <= p < q < word_map@.len() ==> (#[trigger] word_map@[p]).id < (
                    #[trigger] word_map@[q]).id,
                forall|kq: int|
                    0 <= kq < word_map@.len() ==> (#[trigger] word_map@[kq]).id < next_id,
                forall|kq: int| 0 <= kq < word_map@.len() ==> (#[trigger] word_map@[kq]).word.wf(),
            decreases width - dc,
        {
            let mut dr: usize = 0;
            while dr < height
                invariant
                    dr <= height,
                    dc < width,
                    height == cells@.len(),
                    1 <= width < 16000,
                    height < 8001,
                    forall|q: int| 0 <= q < height ==> (#[trigger] cells@[q]@.len()) == width,
                    forall|q: int, c2: int|
                        0 <= q < height && 0 <= c2 < width ==> builder_cell_ok(
                        #[trigger] cells@[q]@[c2],
                        sv,
                        q,
                        c2,
                    ),
                    next_id <= 130000000 + dc * 16000 + dr,
                    forall|p: int, q: int|
                        0 <= p < q < word_map@.len() ==> (#[trigger] word_map@[p]).id < (
                        #[trigger] word_map@[q]).id,
                    forall|kq: int|
                        0 <= kq < word_map@.len() ==> (#[trigger] word_map@[kq]).id < next_id,
                    forall|kq: int|
                        0 <= kq < word_map@.len() ==> (#[trigger] word_map@[kq]).word.wf(),
                decreases height - dr,
            {
                let starts_run = cells[dr][dc].contains_letter() && (dr == 0 || !cells[dr
                    - 1][dc].contains_letter());
                if starts_run {
                    let mut text: Vec<char> = Vec::new();
                    let mut e: usize = dr;
                    while e < height && cells[e][dc].contains_letter()
                        invariant
                            dr <= e <= height,
                            dc < width,
                            height == cells@.len(),
                            1 <= width < 16000,
                            forall|q: int|
                                0 <= q < height ==> (#[trigger] cells@[q]@.len()) == width,
                            text@.len() == e - dr,
                            forall|q: int|
                                dr <= q < e ==> (#[trigger] cells@[q]@[dc as int]).spec_is_filled(),
                        decreases height - e,
                    {
                        text.push(cells[e][dc].to_char());
                        e += 1;
                    }
                    if text.len() >= 2 {
                        let wid = next_id;
                        let word = Word::new_placed_chars(
                            text,
                            Location(dr as isize, dc as isize),
                            Direction::Down,
                        );
                        word_map.push(WordEntry { id: wid, word });
                        next_id += 1;
                        let mut m: usize = dr;
                        while m < e
                            invariant
                                dr <= m <= e <= height,
                                dc < width,
                                height == cells@.len(),
                                1 <= width < 16000,
                                forall|q: int|
                                    0 <= q < height ==> (#[trigger] cells@[q]@.len()) == width,
                                forall|q: int, c2: int|
                                    0 <= q < height && 0 <= c2 < width ==> builder_cell_ok(
                                    #[trigger] cells@[q]@[c2],
                                    sv,
                                    q,
                                    c2,
                                ),
                                forall|q: int|
                                    m <= q < e ==> (#[trigger] cells@[q]@[dc as int]).spec_is_filled(),
                            decreases e - m,
                        {
                            let mut row_vec = cells.remove(m);
                            let old_cell = row_vec[dc];
                            let new_cell = Cell::new(
                                old_cell.to_char(),
                                old_cell.get_across_word_id(),
                                Some(wid),
                            );
                            row_vec.set(dc, new_cell);
                            cells.insert(m, row_vec);
                            m += 1;
                            proof {
                                assert forall|q: int|
                                    0 <= q < height implies (#[trigger] cells@[q]@.len())
                                    == width by {}
                                assert forall|q: int, c2: int|
                                    0 <= q < height && 0 <= c2 < width implies builder_cell_ok(
                                    #[trigger] cells@[q]@[c2],
                                    sv,
                                    q,
                                    c2,
                                ) by {
                                    if q == m - 1 && c2 == dc as int {
                                        assert(old_cell.spec_is_filled());
                                        assert(new_cell.spec_is_filled());
                                        assert(new_cell.spec_letter()
                                            == old_cell.spec_letter());
                                    }
                                }
                            }
                        }
                    }
                }
                dr += 1;
            }
            dc += 1;
        }
        // look for a letter to anchor the fit
        let mut found2 = false;
        let ghost mut letter2: (int, int) = (0int, 0int);
        let mut fr: usize = 0;
        while fr < height
            invariant
                fr <= height,
                height == cells@.len(),
                1 <= width < 16000,
                forall|q: int| 0 <= q < height ==> (#[trigger] cells@[q]@.len()) == width,
                found2 ==> 0 <= letter2.0 < height && 0 <= letter2.1 < width
                    && cells@[letter2.0]@[letter2.1].spec_is_filled(),
            decreases height - fr,
        {
            let mut fc: usize = 0;
            while fc < width
                invariant
                    fc <= width,
                    fr < height,
                    height == cells@.len(),
                    1 <= width < 16000,
                    forall|q: int| 0 <= q < height ==> (#[trigger] cells@[q]@.len()) == width,
                    found2 ==> 0 <= letter2.0 < height && 0 <= letter2.1 < width
                        && cells@[letter2.0]@[letter2.1].spec_is_filled(),
                decreases width - fc,
            {
                if cells[fr][fc].contains_letter() {
                    found2 = true;
                    proof {
                        letter2 = (fr as int, fc as int);
                    }
                }
                fc += 1;
            }
            fr += 1;
        }
        let ghost cells_built = cells@;
        let mut grid = CrosswordGrid::assemble(
            cells,
            word_map,
            Location(0, 0),
            Location((height as isize) - 1, (width as isize) - 1),
        );
        self.word_index = next_id;
        proof {
            assert forall|r2: int, c2: int|
                #[trigger] grid.spec_in_box(r2, c2) implies builder_cell_ok(
                grid.spec_cell(r2, c2),
                sv,
                r2,
                c2,
            ) by {
                assert(grid.spec_cell(r2, c2) == cells_built[r2]@[c2]);
                assert(builder_cell_ok(cells_built[r2]@[c2], sv, r2, c2));
            }
            assert forall|r2: int, c2: int|
                #[trigger] spec_text_char(sv, r2, c2) != ' ' implies grid.spec_in_box(
                r2,
                c2,
            ) by {
                assert(r2 >= 0 && 0 <= c2 < spec_line(sv, r2).len());
                assert(r2 < height) by {
                    if r2 >= height {
                        assert(spec_line(sv, r2).len() == 0);
                    }
                }
                assert(rows@[r2]@ == spec_line(sv, r2));
                assert(c2 < width);
            }
        }
        if found2 {
            proof {
                assert(grid.spec_cell(letter2.0, letter2.1).spec_is_filled());
                assert(grid.spec_row_has_letter(letter2.0));
                assert(grid.spec_has_letter());
            }
            let ghost unfitted = grid;
            grid.fit_to_size();
            proof {
                assert forall|r2: int, c2: int|
                    #[trigger] grid.spec_in_box(r2, c2) implies builder_cell_ok(
                    grid.spec_cell(r2, c2),
                    sv,
                    r2,
                    c2,
                ) by {
                    if unfitted.spec_in_box(r2, c2) {
                        assert(grid.spec_cell(r2, c2) == unfitted.spec_cell(r2, c2));
                        assert(builder_cell_ok(unfitted.spec_cell(r2, c2), sv, r2, c2));
                    } else {
                        assert(grid.spec_cell(r2, c2).spec_is_empty());
                        assert(spec_text_char(sv, r2, c2) == ' ') by {
                            if spec_text_char(sv, r2, c2) != ' ' {
                                assert(unfitted.spec_in_box(r2, c2));
                            }
                        }
                    }
                }
                assert forall|r2: int, c2: int|
                    #[trigger] spec_text_char(sv, r2, c2) != ' ' implies grid.spec_in_box(
                    r2,
                    c2,
                ) by {
                    assert(unfitted.spec_in_box(r2, c2));
                    assert(unfitted.spec_cell(r2, c2).spec_is_filled());
                }
            }
        } else {
            proof {
                assert forall|r2: int, c2: int|
                    #[trigger] spec_text_char(sv, r2, c2) != ' ' implies grid.spec_in_box(
                    r2,
                    c2,
                ) by {}
            }
        }
        grid
    }
}

/// The cell the builder writes for text position (r, c): empty exactly on a
/// space, otherwise filled with that character; never black.
pub open spec fn builder_cell_ok(cell: Cell, s: Seq<char>, r: int, c: int) -> bool {
    &&& !cell.spec_is_black()
    &&& cell.spec_is_filled() == (spec_text_char(s, r, c) != ' ')
    &&& (cell.spec_is_filled() ==> cell.spec_letter() == spec_text_char(s, r, c))
}

} // verus!
