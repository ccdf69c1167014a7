use vstd::prelude::*;

use super::Cell;
use super::CrosswordGrid;

verus! {

/// A grid rasterized over its bounding box: 0 for empty, 1 for black, and
/// 2 upward for letters.
pub struct CrosswordGridMatrix {
    pub matrix: Vec<Vec<i16>>,
    pub row_shift: isize,
    pub col_shift: isize,
    pub nrows: usize,
    pub ncols: usize,
}

/// The letter code: A to Z take 2 to 27 as the answer alphabet orders them;
/// letters outside that range share codes by a modulus.
pub open spec fn spec_letter_code(c: char) -> int {
    if 'A' <= c && c <= 'Z' {
        (c as int) - 63
    } else {
        28 + ((c as int) % 100)
    }
}

/// The rasterized value of one cell.
pub open spec fn spec_cell_code(cell: Cell) -> int {
    if cell.spec_is_empty() {
        0
    } else if cell.spec_is_black() {
        1
    } else {
        spec_letter_code(cell.spec_letter())
    }
}

fn cell_to_i16(cell: &Cell) -> (r: i16)
    ensures
        r as int == spec_cell_code(*cell),
        0 <= r < 130,
{
    if cell.is_empty() {
        0
    } else if cell.is_black() {
        1
    } else {
        let c = cell.to_char();
        if c >= 'A' && c <= 'Z' {
            ((c as u32) - 63) as i16
        } else {
            (28 + ((c as u32) % 100)) as i16
        }
    }
}

impl CrosswordGridMatrix {
    pub closed spec fn wf(self) -> bool {
        &&& self.matrix@.len() == self.nrows
        &&& (forall|r: int|
            0 <= r < self.matrix@.len() ==> (#[trigger] self.matrix@[r]@.len()) == self.ncols)
        &&& self.nrows <= 40000
        &&& self.ncols <= 40000
        &&& -40000 <= self.row_shift <= 40000
        &&& -40000 <= self.col_shift <= 40000
        &&& (forall|r: int, c: int|
            0 <= r < self.nrows && 0 <= c < self.ncols ==> 0 <= (#[trigger] self.matrix@[r]@[c])
                < 130)
    }

    /// The value at (r, c), taking cells outside the raster as empty.
    pub closed spec fn spec_entry(self, r: int, c: int) -> int {
        if 0 <= r < self.nrows && 0 <= c < self.ncols {
            self.matrix@[r]@[c] as int
        } else {
            0
        }
    }

    /// An all-empty raster.
    pub fn empty(nrows: usize, ncols: usize, row_shift: isize, col_shift: isize) -> (r: Self)
        requires
            1 <= nrows <= 40000,
            1 <= ncols <= 40000,
            -40000 <= row_shift <= 40000,
            -40000 <= col_shift <= 40000,
        ensures
            r.wf(),
            r.nrows == nrows,
            r.ncols == ncols,
            r.row_shift == row_shift,
            r.col_shift == col_shift,
            forall|rr: int, cc: int| r.spec_entry(rr, cc) == 0,
    {
        let mut matrix: Vec<Vec<i16>> = Vec::new();
        let mut k: usize = 0;
        while k < nrows
            invariant
                k <= nrows,
                matrix@.len() == k,
                forall|q: int| 0 <= q < k ==> (#[trigger] matrix@[q]@.len()) == ncols,
                forall|q: int, c: int|
                    0 <= q < k && 0 <= c < ncols ==> (#[trigger] matrix@[q]@[c]) == 0,
            decreases nrows - k,
        {
            let mut row: Vec<i16> = Vec::new();
            let mut c: usize = 0;
            while c < ncols
                invariant
                    c <= ncols,
                    row@.len() == c,
                    forall|q: int| 0 <= q < c ==> (#[trigger] row@[q]) == 0,
                decreases ncols - c,
            {
                row.push(0);
                c += 1;
            }
            matrix.push(row);
            k += 1;
        }
        CrosswordGridMatrix { matrix, row_shift, col_shift, nrows, ncols }
    }

    /// Write `value` at (row, col).
    pub fn set_coord(&mut self, row: usize, col: usize, value: i16)
        requires
            old(self).wf(),
            row < old(self).nrows,
            col < old(self).ncols,
            0 <= value < 130,
        ensures
            final(self).wf(),
            final(self).nrows == old(self).nrows,
            final(self).ncols == old(self).ncols,
            final(self).row_shift == old(self).row_shift,
            final(self).col_shift == old(self).col_shift,
            final(self).spec_entry(row as int, col as int) == value,
            forall|r: int, c: int|
                !(r == row as int && c == col as int) ==> final(self).spec_entry(r, c) == old(
                    self,
                ).spec_entry(r, c),
    {
        let mut mrow = self.matrix.remove(row);
        mrow.set(col, value);
        self.matrix.insert(row, mrow);
        proof {
            old(self).matrix@.remove_ensures(row as int);
            assert forall|r: int, c: int|
                !(r == row as int && c == col as int) implies self.spec_entry(r, c) == old(
                self,
            ).spec_entry(r, c) by {
                if 0 <= r < self.nrows && 0 <= c < self.ncols {
                    if r != row as int {
                        assert(self.matrix@[r] == old(self).matrix@[r]);
                    }
                }
            }
        }
    }

    /// Is the overlay of `other`, displaced by (row_shift, col_shift),
    /// compatible: some letter cells coincide, no two non-empty cells
    /// disagree, and the union holds no two-by-two block of letters?
    pub open spec fn spec_compatible(self, other: CrosswordGridMatrix, rs: int, cs: int) -> bool {
        &&& (exists|r: int, c: int|
            #[trigger] self.spec_entry(r, c) * other.spec_entry(r - rs, c - cs) > 1)
        &&& (forall|r: int, c: int|
            #[trigger] self.spec_entry(r, c) * other.spec_entry(r - rs, c - cs) != 0
                ==> self.spec_entry(r, c) == other.spec_entry(r - rs, c - cs))
        &&& !(exists|r: int, c: int|
            #[trigger] spec_union_letter(self, other, rs, cs, r, c) && spec_union_letter(
                self,
                other,
                rs,
                cs,
                r + 1,
                c,
            ) && spec_union_letter(self, other, rs, cs, r, c + 1) && spec_union_letter(
                self,
                other,
                rs,
                cs,
                r + 1,
                c + 1,
            ))
    }

    /// Check the overlay at the given displacement; returns whether it is
    /// compatible and how many letter cells coincide.
    pub fn assess_compatability(&self, other: &CrosswordGridMatrix, rs: isize, cs: isize) -> (r: (
        bool,
        usize,
    ))
        requires
            self.wf(),
            other.wf(),
            -50000 <= rs <= 50000,
            -50000 <= cs <= 50000,
        ensures
            r.0 == self.spec_compatible(*other, rs as int, cs as int),
    {
        let lo_r: isize = if rs < 0 {
            rs
        } else {
            0
        };
        let lo_c: isize = if cs < 0 {
            cs
        } else {
            0
        };
        let hi_r: isize = {
            let a = self.nrows as isize;
            let b = rs + other.nrows as isize;
            if a > b {
                a
            } else {
                b
            }
        };
        let hi_c: isize = {
            let a = self.ncols as isize;
            let b = cs + other.ncols as isize;
            if a > b {
                a
            } else {
                b
            }
        };
        let mut overlaps: usize = 0;
        let mut mismatch = false;
        let mut square = false;
        let mut r = lo_r;
        while r < hi_r
            invariant
                self.wf(),
                other.wf(),
                lo_r <= r <= hi_r,
                -50000 <= rs <= 50000,
                -50000 <= cs <= 50000,
                -50000 <= lo_r <= 0,
                -50000 <= lo_c <= 0,
                lo_r == vstd::math::min(0, rs as int),
                lo_c == vstd::math::min(0, cs as int),
                0 <= hi_r <= 100000,
                0 <= hi_c <= 100000,
                hi_r >= self.nrows as int && hi_r >= rs + other.nrows,
                hi_c >= self.ncols as int && hi_c >= cs + other.ncols,
                mismatch == (exists|rr: int, cc: int|
                    rr < r && #[trigger] self.spec_entry(rr, cc) * other.spec_entry(
                        rr - rs,
                        cc - cs,
                    ) != 0 && self.spec_entry(rr, cc) != other.spec_entry(rr - rs, cc - cs)),
                (exists|rr: int, cc: int|
                    rr < r && #[trigger] self.spec_entry(rr, cc) * other.spec_entry(
                        rr - rs,
                        cc - cs,
                    ) > 1) ==> overlaps > 0,
                overlaps > 0 ==> (exists|rr: int, cc: int|
                    #[trigger] self.spec_entry(rr, cc) * other.spec_entry(rr - rs, cc - cs)
                        > 1),
                square == (exists|rr: int, cc: int|
                    rr + 1 < r && #[trigger] spec_union_letter(
                        *self,
                        *other,
                        rs as int,
                        cs as int,
                        rr,
                        cc,
                    ) && spec_union_letter(*self, *other, rs as int, cs as int, rr + 1, cc)
                        && spec_union_letter(*self, *other, rs as int, cs as int, rr, cc + 1)
                        && spec_union_letter(
                        *self,
                        *other,
                        rs as int,
                        cs as int,
                        rr + 1,
                        cc + 1,
                    )),
            decreases hi_r - r,
        {
            proof {
                assert forall|rr: int, cc: int| cc < lo_c implies #[trigger] self.spec_entry(
                    rr,
                    cc,
                ) == 0 && other.spec_entry(rr - rs, cc - cs) == 0 by {
                    assert(cc < 0);
                    assert(cc - cs < 0);
                }
                assert forall|rr: int, cc: int| rr < lo_r implies #[trigger] self.spec_entry(
                    rr,
                    cc,
                ) == 0 && other.spec_entry(rr - rs, cc - cs) == 0 by {
                    assert(rr < 0);
                    assert(rr - rs < 0);
                }
            }
            let mut c = lo_c;
            while c < hi_c
                invariant
                    self.wf(),
                    other.wf(),
                    lo_r <= r < hi_r,
                    lo_c <= c <= hi_c,
                    -50000 <= rs <= 50000,
                    -50000 <= cs <= 50000,
                    -50000 <= lo_r <= 0,
                    -50000 <= lo_c <= 0,
                    lo_r == vstd::math::min(0, rs as int),
                    lo_c == vstd::math::min(0, cs as int),
                    0 <= hi_r <= 100000,
                    0 <= hi_c <= 100000,
                    hi_r >= self.nrows as int && hi_r >= rs + other.nrows,
                    hi_c >= self.ncols as int && hi_c >= cs + other.ncols,
                    mismatch == (exists|rr: int, cc: int|
                        (rr < r || (rr == r && cc < c)) && #[trigger] self.spec_entry(rr, cc)
                            * other.spec_entry(rr - rs, cc - cs) != 0 && self.spec_entry(
                            rr,
                            cc,
                        ) != other.spec_entry(rr - rs, cc - cs)),
                    (exists|rr: int, cc: int|
                        (rr < r || (rr == r && cc < c)) && #[trigger] self.spec_entry(rr, cc)
                            * other.spec_entry(rr - rs, cc - cs) > 1) ==> overlaps > 0,
                    overlaps > 0 ==> (exists|rr: int, cc: int|
                        #[trigger] self.spec_entry(rr, cc) * other.spec_entry(
                            rr - rs,
                            cc - cs,
                        ) > 1),
                    square == (exists|rr: int, cc: int|
                        (rr + 1 < r || (rr + 1 == r && cc + 1 < c))
                            && #[trigger] spec_union_letter(
                            *self,
                            *other,
                            rs as int,
                            cs as int,
                            rr,
                            cc,
                        ) && spec_union_letter(*self, *other, rs as int, cs as int, rr + 1, cc)
                            && spec_union_letter(
                            *self,
                            *other,
                            rs as int,
                            cs as int,
                            rr,
                            cc + 1,
                        ) && spec_union_letter(
                            *self,
                            *other,
                            rs as int,
                            cs as int,
                            rr + 1,
                            cc + 1,
                        )),
                decreases hi_c - c,
            {
                let e1 = self.entry_at(r, c);
                let e2 = other.entry_at(r - rs, c - cs);
                proof {
                    assert(0 <= (e1 as int) && (e1 as int) < 130 && 0 <= (e2 as int) && (e2 as int) < 130);
                    assert((e1 as int) * (e2 as int) < 16900) by (nonlinear_arith)
                        requires
                            0 <= (e1 as int) && (e1 as int) < 130,
                            0 <= (e2 as int) && (e2 as int) < 130,
                    ;
                }
                let product = (e1 as i32) * (e2 as i32);
                if product != 0 && e1 != e2 {
                    mismatch = true;
                }
                if product > 1 && overlaps < 2000000000 {
                    overlaps += 1;
                }
                // a two-by-two block of letters ending at this cell
                if r > lo_r && c > lo_c {
                    let a = self.union_letter_at(other, rs, cs, r - 1, c - 1);
                    let b = self.union_letter_at(other, rs, cs, r, c - 1);
                    let d = self.union_letter_at(other, rs, cs, r - 1, c);
                    let e = self.union_letter_at(other, rs, cs, r, c);
                    if a && b && d && e {
                        square = true;
                    }
                }
                c += 1;
            }
            r += 1;
            proof {
                assert forall|rr: int, cc: int|
                    rr < r && #[trigger] self.spec_entry(rr, cc) * other.spec_entry(
                        rr - rs,
                        cc - cs,
                    ) != 0 implies (rr < r - 1 || (rr == r - 1 && cc < hi_c)) by {
                    if rr == r - 1 {
                        assert(self.spec_entry(rr, cc) != 0 || other.spec_entry(
                            rr - rs,
                            cc - cs,
                        ) != 0);
                        if cc >= hi_c {
                            assert(self.spec_entry(rr, cc) == 0);
                            assert(other.spec_entry(rr - rs, cc - cs) == 0);
                        }
                    }
                }
                assert forall|rr: int, cc: int|
                    rr + 1 == r && #[trigger] spec_union_letter(
                        *self,
                        *other,
                        rs as int,
                        cs as int,
                        rr,
                        cc,
                    ) && spec_union_letter(
                        *self,
                        *other,
                        rs as int,
                        cs as int,
                        rr,
                        cc + 1,
                    ) implies cc + 1 < hi_c by {
                    if cc + 1 >= hi_c {
                        assert(self.spec_entry(rr, cc + 1) == 0);
                        assert(other.spec_entry(rr - rs, cc + 1 - cs) == 0);
                    }
                }
            }
        }
        proof {
            assert forall|rr: int, cc: int|
                #[trigger] self.spec_entry(rr, cc) * other.spec_entry(rr - rs, cc - cs) != 0
                implies rr < hi_r by {
                if rr >= hi_r {
                    assert(self.spec_entry(rr, cc) == 0);
                    assert(other.spec_entry(rr - rs, cc - cs) == 0);
                }
            }
            assert forall|rr: int, cc: int|
                #[trigger] spec_union_letter(*self, *other, rs as int, cs as int, rr, cc)
                    && spec_union_letter(*self, *other, rs as int, cs as int, rr + 1, cc)
                implies rr + 1 < hi_r by {
                if rr + 1 >= hi_r {
                    assert(self.spec_entry(rr + 1, cc) == 0);
                    assert(other.spec_entry(rr + 1 - rs, cc - cs) == 0);
                }
            }
        }
        let compatible = overlaps > 0 && !mismatch && !square;
        (compatible, overlaps)
    }

    /// The raster value, empty outside the raster.
    fn entry_at(&self, r: isize, c: isize) -> (v: i16)
        requires
            self.wf(),
            -200000 <= r <= 200000,
            -200000 <= c <= 200000,
        ensures
            v as int == self.spec_entry(r as int, c as int),
            0 <= v < 130,
    {
        if r >= 0 && c >= 0 && (r as usize) < self.nrows && (c as usize) < self.ncols {
            self.matrix[r as usize][c as usize]
        } else {
            0
        }
    }

    /// Does the displaced union hold a letter at (r, c)?
    fn union_letter_at(&self, other: &CrosswordGridMatrix, rs: isize, cs: isize, r: isize, c: isize)
        -> (v: bool)
        requires
            self.wf(),
            other.wf(),
            -50000 <= rs <= 50000,
            -50000 <= cs <= 50000,
            -150000 <= r <= 150000,
            -150000 <= c <= 150000,
        ensures
            v == spec_union_letter(*self, *other, rs as int, cs as int, r as int, c as int),
    {
        self.entry_at(r, c) > 1 || other.entry_at(r - rs, c - cs) > 1
    }

    /// Is the overlay at the given displacement compatible?
    pub fn compatible_with_matrix(
        &self,
        other: &CrosswordGridMatrix,
        other_row_shift: isize,
        other_col_shift: isize,
    ) -> (r: bool)
        requires
            self.wf(),
            other.wf(),
            -50000 <= other_row_shift <= 50000,
            -50000 <= other_col_shift <= 50000,
        ensures
            r == self.spec_compatible(*other, other_row_shift as int, other_col_shift as int),
    {
        let (compatible, _overlaps) = self.assess_compatability(
            other,
            other_row_shift,
            other_col_shift,
        );
        compatible
    }

    /// Scan every displacement in the range spanned by both rasters and keep
    /// the compatible one with the most coinciding letters; earlier
    /// displacements win ties. `None` when no displacement is compatible.
    pub fn find_best_probably_compatible_configuration(&self, other: &CrosswordGridMatrix) -> (r:
        Option<((isize, isize), usize)>)
        requires
            self.wf(),
            other.wf(),
        ensures
            match r {
                Some(best) => self.spec_compatible(*other, best.0.0 as int, best.0.1 as int),
                None => forall|rs: int, cs: int|
                    -(other.nrows as int) <= rs <= self.nrows && -(other.ncols as int) <= cs
                        <= self.ncols ==> !(#[trigger] self.spec_compatible(*other, rs, cs)),
            },
    {
        let min_row_shift: isize = -(other.nrows as isize);
        let min_col_shift: isize = -(other.ncols as isize);
        let max_row_shift: isize = self.nrows as isize;
        let max_col_shift: isize = self.ncols as isize;
        let mut best: Option<((isize, isize), usize)> = None;
        let mut row_shift = min_row_shift;
        while row_shift <= max_row_shift
            invariant
                self.wf(),
                other.wf(),
                min_row_shift == -(other.nrows as int),
                min_col_shift == -(other.ncols as int),
                max_row_shift == self.nrows as int,
                max_col_shift == self.ncols as int,
                min_row_shift <= row_shift <= max_row_shift + 1,
                match best {
                    Some(b) => self.spec_compatible(*other, b.0.0 as int, b.0.1 as int),
                    None => forall|rs: int, cs: int|
                        min_row_shift <= rs < row_shift && min_col_shift <= cs <= max_col_shift
                            ==> !(#[trigger] self.spec_compatible(*other, rs, cs)),
                },
            decreases max_row_shift + 1 - row_shift,
        {
            let mut col_shift = min_col_shift;
            while col_shift <= max_col_shift
                invariant
                    self.wf(),
                    other.wf(),
                    min_row_shift == -(other.nrows as int),
                    min_col_shift == -(other.ncols as int),
                    max_row_shift == self.nrows as int,
                    max_col_shift == self.ncols as int,
                    min_row_shift <= row_shift <= max_row_shift,
                    min_col_shift <= col_shift <= max_col_shift + 1,
                    match best {
                        Some(b) => self.spec_compatible(*other, b.0.0 as int, b.0.1 as int),
                        None => forall|rs: int, cs: int|
                            (min_row_shift <= rs < row_shift && min_col_shift <= cs
                                <= max_col_shift) || (rs == row_shift && min_col_shift <= cs
                                < col_shift) ==> !(#[trigger] self.spec_compatible(
                                *other,
                                rs,
                                cs,
                            )),
                    },
                decreases max_col_shift + 1 - col_shift,
            {
                let (compatible, overlaps) = self.assess_compatability(
                    other,
                    row_shift,
                    col_shift,
                );
                if compatible {
                    match best {
                        Some(b) => {
                            if b.1 < overlaps {
                                best = Some(((row_shift, col_shift), overlaps));
                            }
                        },
                        None => {
                            best = Some(((row_shift, col_shift), overlaps));
                        },
                    }
                }
                col_shift += 1;
            }
            row_shift += 1;
        }
        best
    }
}

/// A letter sits at (r, c) in the union of `m1` and `m2` displaced by
/// (rs, cs).
pub open spec fn spec_union_letter(
    m1: CrosswordGridMatrix,
    m2: CrosswordGridMatrix,
    rs: int,
    cs: int,
    r: int,
    c: int,
) -> bool {
    m1.spec_entry(r, c) > 1 || m2.spec_entry(r - rs, c - cs) > 1
}

/// Compatibility reads only the entry functions: replacing either matrix
/// by one with the same entries preserves compatibility.
proof fn lemma_compatible_ext_one(
    m1: CrosswordGridMatrix,
    m2: CrosswordGridMatrix,
    n1: CrosswordGridMatrix,
    n2: CrosswordGridMatrix,
    rs: int,
    cs: int,
)
    requires
        forall|r: int, c: int| #[trigger] m1.spec_entry(r, c) == n1.spec_entry(r, c),
        forall|r: int, c: int| #[trigger] m2.spec_entry(r, c) == n2.spec_entry(r, c),
        m1.spec_compatible(m2, rs, cs),
    ensures
        n1.spec_compatible(n2, rs, cs),
{
    let (r0, c0) = choose|r: int, c: int|
        #[trigger] m1.spec_entry(r, c) * m2.spec_entry(r - rs, c - cs) > 1;
    assert(n1.spec_entry(r0, c0) * n2.spec_entry(r0 - rs, c0 - cs) > 1);
    assert forall|r: int, c: int|
        #[trigger] n1.spec_entry(r, c) * n2.spec_entry(r - rs, c - cs) != 0 implies n1.spec_entry(
        r,
        c,
    ) == n2.spec_entry(r - rs, c - cs) by {
        assert(m1.spec_entry(r, c) * m2.spec_entry(r - rs, c - cs) != 0);
    }
    if exists|r: int, c: int|
        #[trigger] spec_union_letter(n1, n2, rs, cs, r, c) && spec_union_letter(
            n1,
            n2,
            rs,
            cs,
            r + 1,
            c,
        ) && spec_union_letter(n1, n2, rs, cs, r, c + 1) && spec_union_letter(
            n1,
            n2,
            rs,
            cs,
            r + 1,
            c + 1,
        ) {
        let (r0, c0) = choose|r: int, c: int|
            #[trigger] spec_union_letter(n1, n2, rs, cs, r, c) && spec_union_letter(
                n1,
                n2,
                rs,
                cs,
                r + 1,
                c,
            ) && spec_union_letter(n1, n2, rs, cs, r, c + 1) && spec_union_letter(
                n1,
                n2,
                rs,
                cs,
                r + 1,
                c + 1,
            );
        assert(spec_union_letter(m1, m2, rs, cs, r0, c0));
        assert(spec_union_letter(m1, m2, rs, cs, r0 + 1, c0));
        assert(spec_union_letter(m1, m2, rs, cs, r0, c0 + 1));
        assert(spec_union_letter(m1, m2, rs, cs, r0 + 1, c0 + 1));
        assert(false);
    }
}

impl CrosswordGrid {
    /// Rasterize the bounding box.
    pub fn to_matrix(&self) -> (r: CrosswordGridMatrix)
        requires
            self.wf(),
        ensures
            r.wf(),
            r.nrows == self.spec_rows(),
            r.ncols == self.spec_cols(),
            r.row_shift as int == -(self.spec_top_left().0 as int),
            r.col_shift as int == -(self.spec_top_left().1 as int),
            self.spec_matrix_matches(r),
            forall|rr: int, cc: int|
                0 <= rr < self.spec_rows() && 0 <= cc < self.spec_cols() ==> r.spec_entry(rr, cc)
                    == spec_cell_code(
                    self.spec_cell(rr + self.spec_top_left().0, cc + self.spec_top_left().1),
                ),
    {
        let (nrows, ncols) = self.get_grid_dimensions_with_buffer();
        let mut matrix = CrosswordGridMatrix::empty(
            nrows,
            ncols,
            -self.get_grid_bounds().0.0,
            -self.get_grid_bounds().0.1,
        );
        let mut rr: usize = 0;
        while rr < nrows
            invariant
                self.wf(),
                matrix.wf(),
                nrows == self.spec_rows(),
                ncols == self.spec_cols(),
                matrix.nrows == nrows,
                matrix.ncols == ncols,
                matrix.row_shift as int == -(self.spec_top_left().0 as int),
                matrix.col_shift as int == -(self.spec_top_left().1 as int),
                rr <= nrows,
                forall|r2: int, c2: int|
                    0 <= r2 < rr && 0 <= c2 < ncols ==> matrix.spec_entry(r2, c2)
                        == spec_cell_code(
                        self.spec_cell(
                            r2 + self.spec_top_left().0,
                            c2 + self.spec_top_left().1,
                        ),
                    ),
            decreases nrows - rr,
        {
            let mut cc: usize = 0;
            while cc < ncols
                invariant
                    self.wf(),
                    matrix.wf(),
                    nrows == self.spec_rows(),
                    ncols == self.spec_cols(),
                    matrix.nrows == nrows,
                    matrix.ncols == ncols,
                    matrix.row_shift as int == -(self.spec_top_left().0 as int),
                    matrix.col_shift as int == -(self.spec_top_left().1 as int),
                    rr < nrows,
                    cc <= ncols,
                    forall|r2: int, c2: int|
                        (0 <= r2 < rr && 0 <= c2 < ncols) || (r2 == rr && 0 <= c2 < cc)
                            ==> matrix.spec_entry(r2, c2) == spec_cell_code(
                            self.spec_cell(
                                r2 + self.spec_top_left().0,
                                c2 + self.spec_top_left().1,
                            ),
                        ),
                decreases ncols - cc,
            {
                let row_abs = self.get_grid_bounds().0.0 + rr as isize;
                let col_abs = self.get_grid_bounds().0.1 + cc as isize;
                let cell = self.cell_at(row_abs, col_abs);
                let code = cell_to_i16(&cell);
                matrix.set_coord(rr, cc, code);
                cc += 1;
            }
            rr += 1;
        }
        matrix
    }

    /// `m` is this grid's raster: its box dimensions, with each entry the
    /// code of the cell at the corresponding absolute location.
    pub open spec fn spec_matrix_matches(self, m: CrosswordGridMatrix) -> bool {
        &&& m.nrows == self.spec_rows()
        &&& m.ncols == self.spec_cols()
        &&& forall|rr: int, cc: int|
            0 <= rr < self.spec_rows() && 0 <= cc < self.spec_cols() ==> #[trigger] m.spec_entry(
                rr,
                cc,
            ) == spec_cell_code(
                self.spec_cell(rr + self.spec_top_left().0, cc + self.spec_top_left().1),
            )
    }

    /// The matrix-frame displacement that overlays `other` on `self` when
    /// `other`'s cells are shifted by (dr, dc) in grid coordinates.
    pub open spec fn spec_matrix_shift_of(self, other: CrosswordGrid, d: int, axis_self: int, axis_other: int) -> int {
        d - axis_self + axis_other
    }

    /// The rasters of the two grids are compatible when `other` is shifted
    /// by (dr, dc) in grid coordinates.
    pub open spec fn spec_overlay_compatible(self, other: CrosswordGrid, dr: int, dc: int) -> bool {
        exists|m1: CrosswordGridMatrix, m2: CrosswordGridMatrix|
            (#[trigger] self.spec_matrix_matches(m1)) && (#[trigger] other.spec_matrix_matches(
                m2,
            )) && m1.spec_compatible(
                m2,
                dr - self.spec_top_left().0 + other.spec_top_left().0,
                dc - self.spec_top_left().1 + other.spec_top_left().1,
            )
    }

    /// The best displacement at which `other`'s raster can be overlaid on
    /// this one, with how many letters coincide, or `None`. The displacement
    /// is in grid coordinates: adding it to `other`'s cell locations lands
    /// them on this grid.
    pub fn find_best_probably_compatible_configuration_for_merge(
        &self,
        other: &CrosswordGrid,
    ) -> (r: Option<((isize, isize), usize)>)
        requires
            self.wf(),
            other.wf(),
        ensures
            match r {
                Some(best) => self.spec_overlay_compatible(
                    *other,
                    best.0.0 as int,
                    best.0.1 as int,
                ),
                None => forall|dr: int, dc: int|
                    self.spec_top_left().0 - other.spec_top_left().0 - other.spec_rows() <= dr
                        <= self.spec_top_left().0 - other.spec_top_left().0 + self.spec_rows()
                        && self.spec_top_left().1 - other.spec_top_left().1 - other.spec_cols()
                        <= dc <= self.spec_top_left().1 - other.spec_top_left().1
                        + self.spec_cols() ==> !(#[trigger] self.spec_overlay_compatible(
                        *other,
                        dr,
                        dc,
                    )),
            },
    {
        let self_matrix = self.to_matrix();
        let other_matrix = other.to_matrix();
        proof {
            assert(self.spec_matrix_matches(self_matrix));
            assert(other.spec_matrix_matches(other_matrix));
        }
        let configuration = self_matrix.find_best_probably_compatible_configuration(&other_matrix);
        if let Some(((row_shift, col_shift), overlaps)) = configuration {
            let shifted = (
                row_shift - self_matrix.row_shift + other_matrix.row_shift,
                col_shift - self_matrix.col_shift + other_matrix.col_shift,
            );
            proof {
                assert(shifted.0 as int == row_shift + self.spec_top_left().0
                    - other.spec_top_left().0);
                assert((shifted.0 as int) - self.spec_top_left().0 + other.spec_top_left().0
                    == row_shift as int);
                assert((shifted.1 as int) - self.spec_top_left().1 + other.spec_top_left().1
                    == col_shift as int);
                assert(self.spec_overlay_compatible(
                    *other,
                    shifted.0 as int,
                    shifted.1 as int,
                )) by {
                    assert(self_matrix.spec_compatible(
                        other_matrix,
                        row_shift as int,
                        col_shift as int,
                    ));
                }
            }
            Some((shifted, overlaps))
        } else {
            proof {
                assert forall|dr: int, dc: int|
                    self.spec_top_left().0 - other.spec_top_left().0 - other.spec_rows() <= dr
                        <= self.spec_top_left().0 - other.spec_top_left().0 + self.spec_rows()
                        && self.spec_top_left().1 - other.spec_top_left().1 - other.spec_cols()
                        <= dc <= self.spec_top_left().1 - other.spec_top_left().1
                        + self.spec_cols() implies !(#[trigger] self.spec_overlay_compatible(
                    *other,
                    dr,
                    dc,
                )) by {
                    let rs = dr - self.spec_top_left().0 + other.spec_top_left().0;
                    let cs = dc - self.spec_top_left().1 + other.spec_top_left().1;
                    assert(!self_matrix.spec_compatible(other_matrix, rs, cs));
                    if self.spec_overlay_compatible(*other, dr, dc) {
                        let (m1, m2) = choose|m1: CrosswordGridMatrix, m2: CrosswordGridMatrix|
                            (#[trigger] self.spec_matrix_matches(m1)) && (
                            #[trigger] other.spec_matrix_matches(m2)) && m1.spec_compatible(
                                m2,
                                rs,
                                cs,
                            );
                        assert forall|r2: int, c2: int|
                            m1.spec_entry(r2, c2) == self_matrix.spec_entry(r2, c2) by {
                            if 0 <= r2 < self.spec_rows() && 0 <= c2 < self.spec_cols() {
                            } else {
                            }
                        }
                        assert forall|r2: int, c2: int|
                            m2.spec_entry(r2, c2) == other_matrix.spec_entry(r2, c2) by {}
                        lemma_compatible_ext_one(m1, m2, self_matrix, other_matrix, rs, cs);
                        assert(false);
                    }
                }
            }
            None
        }
    }
}

} // verus!
