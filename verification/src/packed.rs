//! The bit-packed grid: a rectangular field of `open` (`.`) and `marked`
//! (`#`) cells stored one bit per cell, rows concatenated without padding,
//! in 256-bit lanes held as 64-bit words. A lazily generated, restartable
//! sequence of path lanes describes a periodic diagonal stepping pattern,
//! and hit counting ANDs path lanes against storage lanes and sums
//! population counts.

use vstd::arithmetic::div_mod::{
    lemma_div_is_ordered, lemma_fundamental_div_mod, lemma_fundamental_div_mod_converse,
};
use vstd::prelude::*;

use crate::bits::{pcount, popcount, seq_bit, set_word_bit, word_bit};
use crate::error::ParseError;
use crate::text::{
    first_bad, lemma_first_bad, lemma_first_bad_is, lemma_first_nl, lemma_first_nl_is, line_ok,
    line_split,
};
use vstd::string::StrSliceExecFns;

verus! {

/// Bits per storage lane: four 64-bit words.
pub const BITS_PER_LANE: usize = 256;

/// How many words the storage holds after `rows` appended rows of width
/// `stride`: one default lane, grown so that a further row would still fit
/// (`cursor + stride` bits are reserved ahead of each write).
pub open spec fn storage_words(rows: int, stride: int) -> int {
    if rows == 0 || (rows + 1) * stride == 0 {
        4
    } else {
        4 * (1 + ((rows + 1) * stride - 1) / 256)
    }
}

/// A grid of `rows` rows of `stride` cells, packed one bit per cell.
#[derive(Debug)]
pub struct Grid {
    v: Vec<u64>,
    stride: usize,
    cursor: usize,
    rows: usize,
}

/// A handle to one appended row: bit `b` of the row lives at flat position
/// `offset + b` of the grid's storage.
pub struct GridRow {
    offset: usize,
    stride: usize,
}

impl GridRow {
    pub closed spec fn spec_offset(&self) -> int {
        self.offset as int
    }

    pub closed spec fn spec_stride(&self) -> int {
        self.stride as int
    }

    /// Width of the row this handle writes into.
    pub fn stride(&self) -> (r: usize)
        ensures
            r == self.spec_stride(),
    {
        self.stride
    }

    /// Sets bit `bit` of this row in `grid`: cell `bit` of the row becomes
    /// `marked`. Every other bit of the storage is unchanged.
    pub fn bit_set(&self, grid: &mut Grid, bit: usize)
        requires
            old(grid).wf(),
            self.spec_stride() == old(grid).spec_stride(),
            bit < self.spec_stride(),
            self.spec_offset() + self.spec_stride() <= old(grid).spec_cursor(),
        ensures
            final(grid).wf(),
            final(grid).spec_stride() == old(grid).spec_stride(),
            final(grid).spec_rows() == old(grid).spec_rows(),
            final(grid).spec_cursor() == old(grid).spec_cursor(),
            final(grid).words().len() == old(grid).words().len(),
            forall|i: int|
                final(grid).bit(i) == (i == self.spec_offset() + bit || old(grid).bit(i)),
    {
        let i = self.offset + bit;
        let w = i / 64;
        let b = i % 64;
        proof {
            lemma_fundamental_div_mod(i as int, 64);
            assert(64 * (i as int / 64) < 64 * grid.words().len());
            assert(i as int / 64 < grid.words().len()) by (nonlinear_arith)
                requires
                    64 * (i as int / 64) < 64 * grid.words().len(),
            ;
        }
        let nw = set_word_bit(grid.v[w], b);
        let ghost old_words = grid.v@;
        grid.v[w] = nw;
        proof {
            assert(grid.v@ =~= old_words.update(w as int, nw));
            assert forall|i2: int| #[trigger] grid.bit(i2) == (i2 == i || old(grid).bit(i2)) by {
                if 0 <= i2 < 64 * grid.v@.len() {
                    lemma_fundamental_div_mod(i2, 64);
                    if i2 / 64 == w {
                        assert(i2 == i <==> (i2 % 64) as u64 == b as u64);
                    } else {
                        assert(i2 != i);
                    }
                }
            }
        }
    }
}

impl Grid {
    /// The flat 64-bit words of the storage, lanes concatenated.
    pub closed spec fn words(&self) -> Seq<u64> {
        self.v@
    }

    /// Cells per row.
    pub closed spec fn spec_stride(&self) -> int {
        self.stride as int
    }

    /// Rows appended so far.
    pub closed spec fn spec_rows(&self) -> int {
        self.rows as int
    }

    /// Bits committed so far: `rows * stride`.
    pub closed spec fn spec_cursor(&self) -> int {
        self.cursor as int
    }

    /// Bit `i` of the flattened grid: true when cell `i % stride` of row
    /// `i / stride` is `marked`.
    pub open spec fn bit(&self, i: int) -> bool {
        seq_bit(self.words(), i)
    }

    /// Structural invariant: storage is exactly the reserved lanes, the
    /// cursor sits at `rows * stride`, and every bit at or past the cursor
    /// is unset.
    pub open spec fn wf(&self) -> bool {
        &&& self.words().len() == storage_words(self.spec_rows(), self.spec_stride())
        &&& self.spec_rows() >= 0
        &&& self.spec_stride() >= 0
        &&& self.spec_cursor() == self.spec_rows() * self.spec_stride()
        &&& self.spec_cursor() <= usize::MAX as int
        &&& self.spec_cursor() <= 64 * self.words().len()
        &&& forall|i: int| self.spec_cursor() <= i ==> !self.bit(i)
    }

    /// A fresh grid of the given row width, with no rows and one default
    /// all-zero lane of storage.
    pub fn new(stride: usize) -> (g: Grid)
        ensures
            g.wf(),
            g.spec_stride() == stride,
            g.spec_rows() == 0,
            g.spec_cursor() == 0,
            g.words().len() == 4,
            forall|i: int| !g.bit(i),
    {
        let mut v: Vec<u64> = Vec::new();
        v.push(0u64);
        v.push(0u64);
        v.push(0u64);
        v.push(0u64);
        proof {
            lemma_zero_word();
        }
        Grid { v, stride, cursor: 0, rows: 0 }
    }

    /// Cells per row.
    pub fn stride(&self) -> (r: usize)
        ensures
            r == self.spec_stride(),
    {
        self.stride
    }

    /// Rows appended so far.
    pub fn rows(&self) -> (r: usize)
        ensures
            r == self.spec_rows(),
    {
        self.rows
    }

    /// Number of storage lanes.
    pub fn len(&self) -> (r: usize)
        requires
            self.wf(),
        ensures
            4 * r == self.words().len(),
    {
        self.v.len() / 4
    }

    /// Advances the grid by one (initially all-`open`) row and returns the
    /// handle for writing its bits. Storage is grown so that `cursor +
    /// stride` bits fit before the row is written.
    pub fn next_row(&mut self) -> (row: GridRow)
        requires
            old(self).wf(),
            old(self).spec_cursor() + 2 * old(self).spec_stride() + 1024 <= usize::MAX as int,
            old(self).spec_rows() < usize::MAX as int,
        ensures
            final(self).wf(),
            final(self).spec_stride() == old(self).spec_stride(),
            final(self).spec_rows() == old(self).spec_rows() + 1,
            final(self).spec_cursor() == old(self).spec_cursor() + old(self).spec_stride(),
            forall|i: int| final(self).bit(i) == old(self).bit(i),
            row.spec_offset() == old(self).spec_cursor(),
            row.spec_stride() == old(self).spec_stride(),
    {
        let offset = self.cursor;
        self.cursor = self.cursor + self.stride;
        self.rows = self.rows + 1;
        let needed = self.cursor + self.stride;
        let lanes: usize = if needed == 0 {
            1
        } else {
            proof {
                lemma_div_is_ordered(0, needed - 1, 256);
                lemma_div_bounds(needed as int - 1, 256);
            }
            1 + (needed - 1) / 256
        };
        proof {
            lemma_storage_grows(old(self).spec_rows(), self.spec_stride());
            if needed != 0 {
                lemma_fundamental_div_mod(needed as int - 1, 256);
            }
        }
        let newlen = lanes * 4;
        proof {
            let c0 = old(self).spec_cursor();
            let r0 = old(self).spec_rows();
            let s0 = old(self).spec_stride();
            assert(c0 + 2 * s0 == (r0 + 2) * s0) by (nonlinear_arith)
                requires
                    c0 == r0 * s0,
            ;
            assert(needed as int == (self.spec_rows() + 1) * self.spec_stride());
            assert(newlen == storage_words(self.spec_rows(), self.spec_stride()));
            assert(self.v@.len() <= newlen);
        }
        let ghost oldv = self.v@;
        while self.v.len() < newlen
            invariant
                self.spec_stride() == old(self).spec_stride(),
                self.spec_rows() == old(self).spec_rows() + 1,
                self.spec_cursor() == old(self).spec_cursor() + old(self).spec_stride(),
                oldv.len() <= self.v@.len() <= newlen,
                self.v@.subrange(0, oldv.len() as int) == oldv,
                forall|i: int| oldv.len() <= i < self.v@.len() ==> self.v@[i] == 0u64,
            decreases newlen - self.v.len(),
        {
            self.v.push(0u64);
            proof {
                assert(self.v@.subrange(0, oldv.len() as int) =~= oldv);
            }
        }
        proof {
            lemma_zero_word();
            assert forall|i: int| #[trigger] self.bit(i) == old(self).bit(i) by {
                if 0 <= i < 64 * self.v@.len() && i >= 64 * oldv.len() {
                    lemma_fundamental_div_mod(i, 64);
                    assert(i / 64 >= oldv.len()) by (nonlinear_arith)
                        requires
                            64 * (i / 64) + i % 64 == i,
                            0 <= i % 64 < 64,
                            i >= 64 * oldv.len(),
                    ;
                    assert(self.v@[i / 64] == 0u64);
                }
            }
        }
        proof {
            let r1 = self.spec_rows();
            let s1 = self.spec_stride();
            assert(r1 * s1 == (r1 - 1) * s1 + s1) by (nonlinear_arith);
            assert(self.spec_cursor() == r1 * s1);
            assert(self.words().len() == storage_words(r1, s1));
            if needed != 0 {
                assert(256 * ((needed as int - 1) / 256) == needed as int - 1 - (needed as int - 1)
                    % 256);
                assert(64 * self.words().len() >= needed as int);
            }
            assert(self.spec_cursor() <= 64 * self.words().len());
            assert forall|i: int| self.spec_cursor() <= i implies !self.bit(i) by {
                assert(self.bit(i) == old(self).bit(i));
            }
        }
        GridRow { offset, stride: self.stride }
    }
}

/// Word zero has no bit set.
pub proof fn lemma_zero_word()
    ensures
        forall|j: u64| !word_bit(0u64, j),
{
    assert(forall|j: u64| (0u64 >> j) & 1u64 != 1u64) by (bit_vector);
}

/// For a positive divisor, `d * (x / d) <= x` and `d * (1 + (x - 1) / d) >= x`.
proof fn lemma_div_bounds(x: int, d: int)
    requires
        0 <= x,
        1 <= d,
    ensures
        d * (x / d) <= x,
        x / d <= x,
{
    lemma_fundamental_div_mod(x, d);
    assert(x / d <= x) by (nonlinear_arith)
        requires
            1 <= d,
            0 <= x,
            d * (x / d) + x % d == x,
            0 <= x % d < d,
    ;
}

/// Storage never shrinks when a row is appended.
proof fn lemma_storage_grows(rows: int, stride: int)
    requires
        0 <= rows,
        0 <= stride,
    ensures
        storage_words(rows, stride) <= storage_words(rows + 1, stride),
        4 <= storage_words(rows, stride),
{
    if stride == 0 {
    } else if rows == 0 {
        lemma_div_is_ordered(0, 2 * stride - 1, 256);
    } else {
        assert((rows + 1) * stride <= (rows + 2) * stride) by (nonlinear_arith)
            requires
                0 <= rows,
                0 <= stride,
        ;
        lemma_div_is_ordered((rows + 1) * stride - 1, (rows + 2) * stride - 1, 256);
        assert(0 <= (rows + 1) * stride - 1) by (nonlinear_arith)
            requires
                1 <= rows,
                1 <= stride,
        ;
        lemma_div_is_ordered(0, (rows + 1) * stride - 1, 256);
    }
}

/// The stride established by a sequence of input lines: the first line's
/// length, or zero when there are no lines.
pub open spec fn stride_of(lines: Seq<Seq<char>>) -> int {
    if lines.len() == 0 {
        0
    } else {
        lines[0].len() as int
    }
}

/// The first parse failure of one line against the established stride: a
/// wrong length, else the first unrecognized character, else nothing.
pub open spec fn line_error(line: Seq<char>, stride: int) -> Option<ParseError> {
    if line.len() != stride {
        Some(ParseError::IrregularInputError { length: line.len() as usize, stride: stride as usize })
    } else if !line_ok(line) {
        Some(ParseError::InvalidCharacterError { character: line[first_bad(line)] })
    } else {
        None
    }
}

/// The first parse failure over all lines, scanned in order.
pub open spec fn lines_error(lines: Seq<Seq<char>>, stride: int) -> Option<ParseError>
    decreases lines.len(),
{
    if lines.len() == 0 {
        None
    } else if line_error(lines[0], stride) is Some {
        line_error(lines[0], stride)
    } else {
        lines_error(lines.subrange(1, lines.len() as int), stride)
    }
}

/// Index of the first `'\n'` at or after `pos`, or `n` when there is none.
fn scan_line_end(s: &str, pos: usize, n: usize) -> (e: usize)
    requires
        pos <= n,
        n == s@.len(),
    ensures
        pos <= e <= n,
        forall|i: int| pos <= i < e ==> s@[i] != '\n',
        e < n ==> s@[e as int] == '\n',
{
    let mut e = pos;
    while e < n
        invariant
            pos <= e <= n,
            n == s@.len(),
            forall|i: int| pos <= i < e ==> s@[i] != '\n',
        decreases n - e,
    {
        if s.get_char(e) == '\n' {
            return e;
        }
        e = e + 1;
    }
    e
}

impl Grid {
    /// Parses a grid from text: one row per line, `.` for `open` and `#`
    /// for `marked`. The first line fixes the stride; a line of any other
    /// length, or any other character, aborts with the first error in scan
    /// order. Empty input yields the valid zero-stride, zero-row grid.
    pub fn from_str(s: &str) -> (r: Result<Grid, ParseError>)
        requires
            4 * s@.len() + 1024 <= usize::MAX as int,
        ensures
            ({
                let lines = line_split(s@);
                let stride0 = stride_of(lines);
                match r {
                    Ok(g) => {
                        &&& lines_error(lines, stride0) is None
                        &&& g.wf()
                        &&& g.spec_stride() == stride0
                        &&& g.spec_rows() == lines.len()
                        &&& forall|rr: int, c: int|
                            0 <= rr < lines.len() && 0 <= c < stride0 ==> g.bit(
                                rr * stride0 + c,
                            ) == (lines[rr][c] == '#')
                    },
                    Err(e) => lines_error(lines, stride0) == Some(e),
                }
            }),
    {
        let ghost lines = line_split(s@);
        let n = s.unicode_len();
        if n == 0 {
            return Ok(Grid::new(0));
        }
        let first_end = scan_line_end(s, 0, n);
        proof {
            lemma_first_nl_is(s@, first_end as int);
            if first_end < n {
                assert(lines[0] =~= s@.subrange(0, first_end as int));
            }
            assert(lines[0].len() == first_end as int);
        }
        let stride = first_end;
        let mut grid = Grid::new(stride);
        let mut pos: usize = 0;
        let ghost mut j: int = 0;
        proof {
            assert(s@.subrange(0, n as int) =~= s@);
            assert(lines.subrange(0, lines.len() as int) =~= lines);
        }
        loop
            invariant
                n == s@.len(),
                4 * s@.len() + 1024 <= usize::MAX as int,
                lines == line_split(s@),
                stride as int == stride_of(lines),
                stride <= n,
                grid.wf(),
                grid.spec_stride() == stride as int,
                grid.spec_rows() == j,
                grid.spec_cursor() <= pos as int,
                0 <= j <= lines.len(),
                j <= pos as int,
                forall|rr: int, c: int|
                    0 <= rr < j && 0 <= c < stride as int ==> grid.bit(rr * (stride as int) + c)
                        == (lines[rr][c] == '#'),
                lines_error(lines, stride as int) == lines_error(
                    lines.subrange(j, lines.len() as int),
                    stride as int,
                ),
                j < lines.len() ==> (pos < n && line_split(s@.subrange(pos as int, n as int))
                    =~= lines.subrange(j, lines.len() as int)),
                j == lines.len() ==> pos >= n,
            ensures
                grid.wf(),
                grid.spec_stride() == stride as int,
                grid.spec_rows() == lines.len(),
                forall|rr: int, c: int|
                    0 <= rr < lines.len() && 0 <= c < stride as int ==> grid.bit(
                        rr * (stride as int) + c,
                    ) == (lines[rr][c] == '#'),
                lines_error(lines, stride as int) == lines_error(
                    lines.subrange(lines.len() as int, lines.len() as int),
                    stride as int,
                ),
            decreases (if pos <= n {
                n - pos
            } else {
                0
            }),
        {
            if pos >= n {
                break ;
            }
            assert(j < lines.len());
            let ghost rest = s@.subrange(pos as int, n as int);
            let e = scan_line_end(s, pos, n);
            let length = e - pos;
            proof {
                assert(forall|i: int| 0 <= i < rest.len() ==> rest[i] == s@[pos + i]);
                lemma_first_nl_is(rest, length as int);
                assert(lines[j] =~= s@.subrange(pos as int, e as int)) by {
                    if (length as int) < rest.len() {
                        assert(lines[j] =~= rest.subrange(0, length as int));
                        assert(rest.subrange(0, length as int) =~= s@.subrange(
                            pos as int,
                            e as int,
                        ));
                    } else {
                        assert(lines[j] =~= rest);
                        assert(rest =~= s@.subrange(pos as int, e as int));
                    }
                }
                assert(lines[j].len() == length as int);
            }
            if length != stride {
                proof {
                    lemma_lines_error_head(lines, j, stride as int);
                }
                return Err(ParseError::IrregularInputError { length, stride });
            }
            let row = grid.next_row();
            proof {
                assert((j + 1) * (stride as int) == j * (stride as int) + stride as int)
                    by (nonlinear_arith);
            }
            let mut ii: usize = 0;
            while ii < length
                invariant
                    n == s@.len(),
                    pos <= e <= n,
                    length == e - pos,
                    ii <= length,
                    lines == line_split(s@),
                    0 <= j < lines.len(),
                    stride as int == stride_of(lines),
                    lines_error(lines, stride as int) == lines_error(
                        lines.subrange(j, lines.len() as int),
                        stride as int,
                    ),
                    lines[j] =~= s@.subrange(pos as int, e as int),
                    length as int == lines[j].len(),
                    stride == length,
                    grid.wf(),
                    grid.spec_stride() == stride as int,
                    grid.spec_rows() == j + 1,
                    grid.spec_cursor() == (j + 1) * (stride as int),
                    row.spec_offset() == j * (stride as int),
                    row.spec_stride() == stride as int,
                    forall|rr: int, c: int|
                        0 <= rr < j && 0 <= c < stride as int ==> grid.bit(
                            rr * (stride as int) + c,
                        ) == (lines[rr][c] == '#'),
                    forall|c: int|
                        0 <= c < ii as int ==> grid.bit(j * (stride as int) + c) == (lines[j][c]
                            == '#'),
                    forall|i: int| j * (stride as int) + ii as int <= i ==> !grid.bit(i),
                    forall|c: int| 0 <= c < ii as int ==> (lines[j][c] == '.' || lines[j][c] == '#'),
                    (j + 1) * (stride as int) == j * (stride as int) + stride as int,
                decreases length - ii,
            {
                let c = s.get_char(pos + ii);
                proof {
                    assert(c == lines[j][ii as int]);
                }
                if c == '#' {
                    row.bit_set(&mut grid, ii);
                    proof {
                        lemma_row_bits_disjoint(j, stride as int, ii as int);
                    }
                } else if c != '.' {
                    proof {
                        lemma_first_bad_is(lines[j], ii as int);
                        lemma_first_bad(lines[j]);
                        lemma_lines_error_head(lines, j, stride as int);
                    }
                    return Err(ParseError::InvalidCharacterError { character: c });
                }
                ii = ii + 1;
            }
            proof {
                lemma_first_bad(lines[j]);
                assert(line_ok(lines[j]));
                assert(line_error(lines[j], stride as int) is None);
                lemma_lines_error_head(lines, j, stride as int);
                // the remaining text after this line and its newline
                let done = lines.subrange(j, lines.len() as int);
                let tail = lines.subrange(j + 1, lines.len() as int);
                if (length as int) < rest.len() {
                    let rest2 = rest.subrange(length as int + 1, rest.len() as int);
                    assert(rest.subrange(0, length as int) =~= lines[j]);
                    assert(line_split(rest) == seq![lines[j]] + line_split(rest2));
                    assert(line_split(rest2) =~= tail) by {
                        assert(line_split(rest2).len() == done.len() - 1);
                        assert(forall|i2: int|
                            0 <= i2 < tail.len() ==> #[trigger] line_split(rest2)[i2] == done[i2
                                + 1]);
                    }
                    assert(rest2 =~= s@.subrange(e as int + 1, n as int));
                    assert(line_split(s@.subrange(e as int + 1, n as int)) =~= tail);
                    if tail.len() == 0 {
                        if rest2.len() > 0 {
                            lemma_first_nl(rest2);
                            assert(line_split(rest2).len() > 0);
                        }
                        assert(rest2.len() == 0);
                    }
                } else {
                    assert(line_split(rest) == seq![lines[j]]);
                    assert(tail =~= Seq::<Seq<char>>::empty());
                }
                j = j + 1;
            }
            pos = e + 1;
        }
        proof {
            assert(lines.subrange(lines.len() as int, lines.len() as int) =~= Seq::<
                Seq<char>,
            >::empty());
        }
        Ok(grid)
    }
}

/// Row `rr` of the grid as text: `#` for a set bit, `.` for a clear one.
pub open spec fn render_line(g: Grid, rr: int) -> Seq<char> {
    Seq::new(
        g.spec_stride() as nat,
        |c: int|
            if g.bit(rr * g.spec_stride() + c) {
                '#'
            } else {
                '.'
            },
    )
}

/// Rows `rr..` of the grid as text, joined by single newlines, with no
/// trailing newline.
pub open spec fn render_rows(g: Grid, rr: int) -> Seq<char>
    decreases g.spec_rows() - rr,
{
    if rr < 0 || rr >= g.spec_rows() {
        Seq::empty()
    } else if rr == g.spec_rows() - 1 {
        render_line(g, rr)
    } else {
        render_line(g, rr) + seq!['\n'] + render_rows(g, rr + 1)
    }
}

impl Grid {
    /// Whether flat bit `i` of the storage is set.
    pub fn get_bit(&self, i: usize) -> (r: bool)
        requires
            self.wf(),
            (i as int) < 64 * self.words().len(),
        ensures
            r == self.bit(i as int),
    {
        let w = i / 64;
        let b = i % 64;
        proof {
            lemma_fundamental_div_mod(i as int, 64);
            let ii = i as int;
            let wl = self.words().len() as int;
            assert(ii / 64 < wl) by (nonlinear_arith)
                requires
                    64 * (ii / 64) + ii % 64 == ii,
                    0 <= ii % 64 < 64,
                    ii < 64 * wl,
            ;
        }
        crate::bits::test_word_bit(self.v[w], b)
    }

    /// The grid rendered back to text: one line per row, `#` for `marked`
    /// and `.` for `open`, rows joined by newlines.
    pub fn render(&self) -> (r: String)
        requires
            self.wf(),
        ensures
            r@ == render_rows(*self, 0),
    {
        let mut out = String::new();
        let mut rr: usize = 0;
        let mut base: usize = 0;
        proof {
            reveal_strlit("#");
            reveal_strlit(".");
            reveal_strlit("\n");
        }
        while rr < self.rows
            invariant
                self.wf(),
                rr <= self.rows,
                base as int == rr as int * self.spec_stride(),
                base as int <= self.spec_cursor(),
                (if rr == 0 {
                    out@ =~= Seq::<char>::empty() && render_rows(*self, 0) =~= render_rows(
                        *self,
                        rr as int,
                    )
                } else if rr < self.rows {
                    render_rows(*self, 0) =~= out@ + seq!['\n'] + render_rows(*self, rr as int)
                } else {
                    render_rows(*self, 0) =~= out@
                }),
            decreases self.rows - rr,
        {
            proof {
                reveal_strlit("\n");
                let s1 = self.spec_stride();
                assert((rr as int + 1) * s1 == rr as int * s1 + s1) by (nonlinear_arith);
                assert((rr as int + 1) * s1 <= self.spec_rows() * s1) by (nonlinear_arith)
                    requires
                        rr as int + 1 <= self.spec_rows(),
                        0 <= s1,
                ;
            }
            if rr > 0 {
                out.append("\n");
            }
            let ghost prefix = out@;
            let mut c: usize = 0;
            while c < self.stride
                invariant
                    self.wf(),
                    rr < self.rows,
                    c <= self.stride,
                    base as int == rr as int * self.spec_stride(),
                    base as int + self.spec_stride() <= self.spec_cursor(),
                    out@ =~= prefix + render_line(*self, rr as int).subrange(0, c as int),
                decreases self.stride - c,
            {
                proof {
                    reveal_strlit("#");
                    reveal_strlit(".");
                }
                if self.get_bit(base + c) {
                    out.append("#");
                } else {
                    out.append(".");
                }
                proof {
                    let line = render_line(*self, rr as int);
                    assert(line.subrange(0, c as int + 1) =~= line.subrange(0, c as int)
                        + seq![line[c as int]]);
                }
                c = c + 1;
            }
            proof {
                let line = render_line(*self, rr as int);
                assert(line.subrange(0, self.spec_stride()) =~= line);
                assert(out@ =~= prefix + line);
                if rr as int + 1 < self.spec_rows() {
                    assert(render_rows(*self, rr as int) == line + seq!['\n'] + render_rows(
                        *self,
                        rr as int + 1,
                    ));
                    if rr > 0 {
                        assert(render_rows(*self, 0) =~= (prefix + line) + seq!['\n']
                            + render_rows(*self, rr as int + 1));
                    }
                } else {
                    assert(render_rows(*self, rr as int) == line);
                }
                assert((rr as int + 1) * self.spec_stride() == rr as int * self.spec_stride()
                    + self.spec_stride()) by (nonlinear_arith);
                assert((rr as int + 1) * self.spec_stride() <= self.spec_rows()
                    * self.spec_stride()) by (nonlinear_arith)
                    requires
                        rr as int + 1 <= self.spec_rows(),
                        0 <= self.spec_stride(),
                ;
            }
            base = base + self.stride;
            rr = rr + 1;
        }
        proof {
            if self.rows == 0 {
                assert(render_rows(*self, 0) =~= Seq::<char>::empty());
            }
        }
        out
    }
}

/// Splitting a newline-free line, a newline, and a remainder into lines
/// yields the line followed by the remainder's lines.
proof fn lemma_line_split_step(a: Seq<char>, b: Seq<char>)
    requires
        forall|i: int| 0 <= i < a.len() ==> a[i] != '\n',
    ensures
        line_split(a + seq!['\n'] + b) == seq![a] + line_split(b),
{
    let t = a + seq!['\n'] + b;
    lemma_first_nl_is(t, a.len() as int);
    assert(t.subrange(0, a.len() as int) =~= a);
    assert(t.subrange(a.len() as int + 1, t.len() as int) =~= b);
}

/// Round-trip law: rendering a grid and re-parsing the text reconstructs a
/// grid with the same stride, the same row count, and identical bits. Holds
/// for every grid with at least one row and at least one column; a grid
/// with no rows or no columns renders to text with no lines, which
/// re-parses to the zero-stride, zero-row grid.
pub proof fn lemma_render_round_trip(g: Grid)
    requires
        g.wf(),
        g.spec_stride() >= 1,
        g.spec_rows() >= 1,
    ensures
        ({
            let lines = line_split(render_rows(g, 0));
            &&& lines.len() == g.spec_rows()
            &&& stride_of(lines) == g.spec_stride()
            &&& lines_error(lines, g.spec_stride()) is None
            &&& forall|rr: int, c: int|
                0 <= rr < g.spec_rows() && 0 <= c < g.spec_stride() ==> ((lines[rr][c] == '#')
                    == g.bit(rr * g.spec_stride() + c))
        }),
{
    lemma_render_lines(g, 0);
}

/// Induction behind the round-trip law, from row `rr` on.
#[verifier::rlimit(50)]
#[verifier::spinoff_prover]
proof fn lemma_render_lines(g: Grid, rr: int)
    requires
        g.wf(),
        g.spec_stride() >= 1,
        0 <= rr < g.spec_rows(),
    ensures
        line_split(render_rows(g, rr)).len() == g.spec_rows() - rr,
        forall|r2: int|
            0 <= r2 < g.spec_rows() - rr ==> #[trigger] line_split(render_rows(g, rr))[r2]
                == render_line(g, rr + r2),
        lines_error(line_split(render_rows(g, rr)), g.spec_stride()) is None,
    decreases g.spec_rows() - rr,
{
    let line = render_line(g, rr);
    assert(forall|i: int| 0 <= i < line.len() ==> (line[i] == '#' || line[i] == '.'));
    if rr == g.spec_rows() - 1 {
        lemma_first_nl_is(line, line.len() as int);
        assert(render_rows(g, rr) == line);
        assert(line_split(line) == seq![line]);
        let lines = line_split(render_rows(g, rr));
        assert(lines[0] == line);
        assert(line_error(line, g.spec_stride()) is None) by {
            crate::text::lemma_first_bad(line);
        }
        assert(lines.subrange(1, 1) =~= Seq::<Seq<char>>::empty());
        assert(lines_error(lines, g.spec_stride()) == lines_error(
            lines.subrange(1, 1),
            g.spec_stride(),
        ));
        assert(lines_error(lines.subrange(1, 1), g.spec_stride()) is None);
        assert forall|r2: int| 0 <= r2 < lines.len() implies lines[r2] == render_line(
            g,
            rr + r2,
        ) by {
            assert(r2 == 0);
        }
    } else {
        lemma_render_lines(g, rr + 1);
        lemma_line_split_step(line, render_rows(g, rr + 1));
        let rest = line_split(render_rows(g, rr + 1));
        let lines = line_split(render_rows(g, rr));
        assert(lines == seq![line] + rest);
        assert(lines[0] == line);
        assert(line_error(line, g.spec_stride()) is None) by {
            crate::text::lemma_first_bad(line);
        }
        assert(lines.subrange(1, lines.len() as int) =~= rest);
        assert(lines_error(lines, g.spec_stride()) == lines_error(
            lines.subrange(1, lines.len() as int),
            g.spec_stride(),
        ));
        assert(lines_error(rest, g.spec_stride()) is None);
        assert forall|r2: int| 0 <= r2 < lines.len() implies lines[r2] == render_line(
            g,
            rr + r2,
        ) by {
            if r2 >= 1 {
                assert(lines[r2] == rest[r2 - 1]);
                assert(rest[r2 - 1] == render_line(g, rr + 1 + (r2 - 1)));
            }
        }
    }
}

/// Unfolds `lines_error` one line at a time from position `j`.
proof fn lemma_lines_error_head(lines: Seq<Seq<char>>, j: int, stride: int)
    requires
        0 <= j < lines.len(),
    ensures
        lines_error(lines.subrange(j, lines.len() as int), stride) == if line_error(
            lines[j],
            stride,
        ) is Some {
            line_error(lines[j], stride)
        } else {
            lines_error(lines.subrange(j + 1, lines.len() as int), stride)
        },
{
    let t = lines.subrange(j, lines.len() as int);
    assert(t[0] == lines[j]);
    assert(t.subrange(1, t.len() as int) =~= lines.subrange(j + 1, lines.len() as int));
}

/// A bit of row `j` lies past every bit of the rows before it.
proof fn lemma_row_bits_disjoint(j: int, stride: int, c0: int)
    requires
        0 <= j,
        0 <= c0,
    ensures
        forall|rr: int, c: int|
            0 <= rr < j && 0 <= c < stride ==> #[trigger] (rr * stride + c) < j * stride + c0,
{
    assert forall|rr: int, c: int|
        0 <= rr < j && 0 <= c < stride implies #[trigger] (rr * stride + c) < j * stride + c0 by {
        assert((rr + 1) * stride <= j * stride && rr * stride + stride == (rr + 1) * stride)
            by (nonlinear_arith)
            requires
                rr < j,
                0 <= stride,
        ;
    }
}

/// Column of the `k`-th path point: the start column shifted `k * left`
/// places, wrapped modulo the stride (the grid repeats to the right).
pub open spec fn path_col(from: int, left: int, stride: int, k: int) -> int {
    (from + k * left) % stride
}

/// Flat bit offset of the `k`-th path point: `k * down` rows down, at the
/// wrapped column.
pub open spec fn path_offset(from: int, left: int, down: int, stride: int, k: int) -> int {
    k * down * stride + path_col(from, left, stride, k)
}

/// Whether flat position `i` lies on the path: some path point has offset
/// `i`. A zero-stride grid has no cells, hence no path bits.
pub open spec fn path_bit(from: int, left: int, down: int, stride: int, i: int) -> bool {
    stride > 0 && exists|k: int| 0 <= k && path_offset(from, left, down, stride, k) == i
}

/// Number of positions `i < n` that lie on the path and are `marked` in the
/// stored words: the meaning of AND-ing path lanes against storage lanes.
pub open spec fn and_count(
    words: Seq<u64>,
    from: int,
    left: int,
    down: int,
    stride: int,
    n: int,
) -> nat
    decreases n,
{
    if n <= 0 {
        0
    } else {
        and_count(words, from, left, down, stride, n - 1) + if path_bit(
            from,
            left,
            down,
            stride,
            n - 1,
        ) && seq_bit(words, n - 1) {
            1nat
        } else {
            0nat
        }
    }
}

/// `and_count` counts at most one hit per position.
pub proof fn lemma_and_count_bound(
    words: Seq<u64>,
    from: int,
    left: int,
    down: int,
    stride: int,
    n: int,
)
    requires
        0 <= n,
    ensures
        and_count(words, from, left, down, stride, n) <= n,
    decreases n,
{
    if n > 0 {
        lemma_and_count_bound(words, from, left, down, stride, n - 1);
    }
}

/// `(a % m + b) % m == (a + b) % m`.
proof fn lemma_mod_shift(a: int, b: int, m: int)
    requires
        0 < m,
    ensures
        (a % m + b) % m == (a + b) % m,
{
    lemma_fundamental_div_mod(a, m);
    vstd::arithmetic::div_mod::lemma_mod_multiples_vanish(a / m, a % m + b, m);
}

/// Path offsets strictly increase with the point index: each step advances
/// at least one row's worth of bits minus at most one wrap.
pub proof fn lemma_offset_mono(from: int, left: int, down: int, stride: int, k1: int, k2: int)
    requires
        0 <= from,
        0 <= left,
        1 <= down,
        1 <= stride,
        0 <= k1 <= k2,
    ensures
        path_offset(from, left, down, stride, k1) <= path_offset(from, left, down, stride, k2),
        k1 < k2 ==> path_offset(from, left, down, stride, k1) < path_offset(
            from,
            left,
            down,
            stride,
            k2,
        ),
    decreases k2 - k1,
{
    if k1 < k2 {
        let k = k2 - 1;
        lemma_offset_mono(from, left, down, stride, k1, k);
        vstd::arithmetic::div_mod::lemma_mod_bound(from + k * left, stride);
        vstd::arithmetic::div_mod::lemma_mod_bound(from + k2 * left, stride);
        assert(k2 * down * stride == k * down * stride + down * stride && down * stride >= stride)
            by (nonlinear_arith)
            requires
                k2 == k + 1,
                1 <= down,
                1 <= stride,
        ;
    }
}

/// The lazily generated, infinite, restartable path-lane generator: holds
/// only its own cursors, so a fresh generator with the same parameters
/// reproduces the same lane sequence.
pub struct Each {
    idx: usize,
    cursor: usize,
    left: usize,
    down: usize,
    stride: usize,
    start: Ghost<int>,
    points: Ghost<int>,
    lanes: Ghost<int>,
}

impl Each {
    /// Start column parameter.
    pub closed spec fn spec_start(&self) -> int {
        self.start@
    }

    /// Columns stepped left per path point.
    pub closed spec fn spec_left(&self) -> int {
        self.left as int
    }

    /// Rows stepped down per path point.
    pub closed spec fn spec_down(&self) -> int {
        self.down as int
    }

    /// Row width of the grid the path runs over.
    pub closed spec fn spec_stride(&self) -> int {
        self.stride as int
    }

    /// Lanes produced so far.
    pub closed spec fn spec_lanes(&self) -> int {
        self.lanes@
    }

    /// Generator invariant: the cursors sit exactly at the next path point,
    /// and every earlier point lies inside an already produced lane.
    pub closed spec fn wf(&self) -> bool {
        &&& self.spec_down() >= 1
        &&& self.spec_start() >= 0
        &&& self.points@ >= 0
        &&& self.lanes@ >= 0
        &&& 2 * (self.spec_down() * self.spec_stride() + self.spec_left()) + 512 <= usize::MAX
            as int
        &&& (self.spec_stride() >= 1 ==> {
            &&& self.cursor as int == path_col(
                self.spec_start(),
                self.spec_left(),
                self.spec_stride(),
                self.points@,
            )
            &&& self.cursor < self.stride
            &&& path_offset(
                self.spec_start(),
                self.spec_left(),
                self.spec_down(),
                self.spec_stride(),
                self.points@,
            ) == 256 * self.lanes@ + self.idx as int
            &&& self.idx as int <= 255 + self.spec_down() * self.spec_stride() + self.spec_left()
            &&& forall|k2: int|
                0 <= k2 < self.points@ ==> path_offset(
                    self.spec_start(),
                    self.spec_left(),
                    self.spec_down(),
                    self.spec_stride(),
                    k2,
                ) < 256 * self.lanes@
        })
    }

    /// Produces the next 256-bit path lane: bit `j` of the result is set
    /// exactly when flat position `lanes_so_far * 256 + j` lies on the path.
    /// The lane produced depends only on the generator's parameters and on
    /// how many lanes were produced before it.
    #[verifier::rlimit(50)]
    #[verifier::spinoff_prover]
    pub fn next(&mut self) -> (lane: [u64; 4])
        requires
            old(self).wf(),
        ensures
            final(self).wf(),
            final(self).spec_start() == old(self).spec_start(),
            final(self).spec_left() == old(self).spec_left(),
            final(self).spec_down() == old(self).spec_down(),
            final(self).spec_stride() == old(self).spec_stride(),
            final(self).spec_lanes() == old(self).spec_lanes() + 1,
            forall|j: int|
                0 <= j < 256 ==> (seq_bit(lane@, j) == path_bit(
                    old(self).spec_start(),
                    old(self).spec_left(),
                    old(self).spec_down(),
                    old(self).spec_stride(),
                    256 * old(self).spec_lanes() + j,
                )),
    {
        let ghost f = self.start@;
        let ghost l = self.spec_left();
        let ghost d = self.spec_down();
        let ghost s = self.spec_stride();
        let ghost n = self.lanes@;
        if self.stride == 0 {
            let lane = [0u64, 0u64, 0u64, 0u64];
            proof {
                self.lanes@ = n + 1;
                lemma_zero_word();
            }
            return lane;
        }
        let mut lane: [u64; 4] = [0u64, 0u64, 0u64, 0u64];
        proof {
            lemma_zero_word();
            assert(s <= d * s) by (nonlinear_arith)
                requires
                    1 <= d,
                    0 <= s,
            ;
        }
        while self.idx < 256
            invariant
                self.spec_start() == f,
                self.spec_left() == l,
                self.spec_down() == d,
                self.spec_stride() == s,
                self.lanes@ == n,
                0 <= n,
                0 <= f,
                1 <= s,
                1 <= d,
                s <= d * s,
                0 <= self.points@,
                2 * (d * s + l) + 512 <= usize::MAX as int,
                self.cursor as int == path_col(f, l, s, self.points@),
                self.cursor < self.stride,
                path_offset(f, l, d, s, self.points@) == 256 * n + self.idx as int,
                self.idx as int <= 255 + d * s + l,
                forall|k2: int|
                    0 <= k2 < self.points@ ==> path_offset(f, l, d, s, k2) < 256 * (n + 1),
                forall|j: int|
                    0 <= j < 256 ==> (seq_bit(lane@, j) == (exists|k2: int|
                        0 <= k2 < self.points@ && path_offset(f, l, d, s, k2) == 256 * n + j)),
            decreases (if self.idx < 256 {
                256 - self.idx
            } else {
                0
            }),
        {
            let ghost k = self.points@;
            let w = self.idx / 64;
            let b = self.idx % 64;
            proof {
                lemma_fundamental_div_mod(self.idx as int, 64);
            }
            let ghost oldlane = lane@;
            lane[w] = set_word_bit(lane[w], b);
            proof {
                let idx = 256 * n + self.idx as int;
                assert(lane@ =~= oldlane.update(w as int, lane@[w as int]));
                assert forall|j: int|
                    0 <= j < 256 implies (#[trigger] seq_bit(lane@, j) == (exists|k2: int|
                    0 <= k2 < k + 1 && path_offset(f, l, d, s, k2) == 256 * n + j)) by {
                    lemma_fundamental_div_mod(j, 64);
                    if j == self.idx as int {
                        assert(j / 64 == w && (j % 64) as u64 == b as u64);
                        assert(path_offset(f, l, d, s, k) == 256 * n + j);
                    } else {
                        if j / 64 == w {
                            assert((j % 64) as u64 != b as u64);
                        }
                        assert(seq_bit(lane@, j) == seq_bit(oldlane, j));
                        assert forall|k2: int|
                            0 <= k2 < k + 1 && path_offset(f, l, d, s, k2) == 256 * n + j implies 0
                            <= k2 < k by {
                            if k2 == k {
                                assert(256 * n + self.idx as int == 256 * n + j);
                            }
                        }
                    }
                }
            }
            let c2 = (self.cursor + self.left) % self.stride;
            proof {
                vstd::arithmetic::div_mod::lemma_mod_bound(
                    self.cursor as int + self.left as int,
                    s,
                );
                vstd::arithmetic::div_mod::lemma_mod_decreases(
                    (self.cursor + self.left) as nat,
                    s as nat,
                );
            }
            let wrap = self.cursor + self.left - c2;
            self.idx = self.idx + self.down * self.stride + self.left - wrap;
            self.cursor = c2;
            proof {
                lemma_mod_shift(f + k * l, l, s);
                assert(f + k * l + l == f + (k + 1) * l) by (nonlinear_arith);
                assert(path_col(f, l, s, k + 1) == c2 as int);
                assert((k + 1) * d * s == k * d * s + d * s) by (nonlinear_arith);
                assert(path_offset(f, l, d, s, k + 1) == 256 * n + self.idx as int);
                self.points@ = k + 1;
                assert forall|k2: int|
                    0 <= k2 < self.points@ implies path_offset(f, l, d, s, k2) < 256 * (n + 1) by {
                    if k2 == k {
                        assert(path_offset(f, l, d, s, k) < 256 * (n + 1));
                    }
                }
            }
        }
        self.idx = self.idx - 256;
        proof {
            self.lanes@ = n + 1;
            let kf = self.points@;
            assert forall|j: int|
                0 <= j < 256 implies (#[trigger] seq_bit(lane@, j) == path_bit(
                f,
                l,
                d,
                s,
                256 * n + j,
            )) by {
                if seq_bit(lane@, j) {
                    assert(path_bit(f, l, d, s, 256 * n + j));
                } else {
                    assert forall|k2: int|
                        0 <= k2 && path_offset(f, l, d, s, k2) == 256 * n + j implies false by {
                        if k2 >= kf {
                            lemma_offset_mono(f, l, d, s, kf, k2);
                        }
                    }
                }
            }
        }
        lane
    }
}

/// If the low `j` bits of `x` and `y` agree, the words shifted left by
/// `64 - j` agree.
proof fn lemma_word_ext_upto(x: u64, y: u64, j: u64)
    requires
        1 <= j <= 64,
        forall|i: u64| i < 64 ==> #[trigger] ((x >> i) & 1u64) == ((y >> i) & 1u64),
    ensures
        (x << (64 - j) as u64) == (y << (64 - j) as u64),
    decreases j,
{
    if j == 1 {
        assert((x >> 0u64) & 1u64 == (y >> 0u64) & 1u64);
        assert(((x >> 0u64) & 1u64 == (y >> 0u64) & 1u64) ==> (x << 63u64) == (y << 63u64))
            by (bit_vector);
    } else {
        lemma_word_ext_upto(x, y, (j - 1) as u64);
        assert((x >> (j - 1) as u64) & 1u64 == (y >> (j - 1) as u64) & 1u64);
        assert(((x << (64 - (j - 1)) as u64) == (y << (64 - (j - 1)) as u64) && (x >> (j - 1)
            as u64) & 1u64 == (y >> (j - 1) as u64) & 1u64 && 2 <= j <= 64) ==> (x << (64 - j)
            as u64) == (y << (64 - j) as u64)) by (bit_vector);
    }
}

/// Words with the same bits are the same word.
proof fn lemma_word_ext(x: u64, y: u64)
    requires
        forall|j: u64| word_bit(x, j) == word_bit(y, j),
    ensures
        x == y,
{
    assert(forall|j: u64|
        ((x >> j) & 1u64 == 1u64 || (x >> j) & 1u64 == 0u64) && ((y >> j) & 1u64 == 1u64 || (y
            >> j) & 1u64 == 0u64)) by (bit_vector);
    assert forall|j: u64| j < 64 implies #[trigger] ((x >> j) & 1u64) == ((y >> j) & 1u64) by {
        assert(word_bit(x, j) == word_bit(y, j));
    }
    lemma_word_ext_upto(x, y, 64);
    assert((x << 0u64) == x && (y << 0u64) == y) by (bit_vector);
}

/// Determinism and restartability law: the path fixes every lane. Any two
/// lanes whose bits spell out path membership for the same parameters and
/// the same lane index — as `Each::next` ensures of its result — are equal,
/// so two independently constructed generators with equal parameters
/// produce identical lane sequences.
pub proof fn lemma_generator_deterministic(
    a: [u64; 4],
    b: [u64; 4],
    from: int,
    left: int,
    down: int,
    stride: int,
    n: int,
)
    requires
        forall|j: int|
            0 <= j < 256 ==> (seq_bit(a@, j) == path_bit(from, left, down, stride, 256 * n + j)),
        forall|j: int|
            0 <= j < 256 ==> (seq_bit(b@, j) == path_bit(from, left, down, stride, 256 * n + j)),
    ensures
        a == b,
{
    assert forall|w: int| 0 <= w < 4 implies a@[w] == b@[w] by {
        assert forall|j: u64| word_bit(a@[w], j) == word_bit(b@[w], j) by {
            if j < 64 {
                lemma_fundamental_div_mod_converse(64 * w + j, 64, w, j as int);
                assert(seq_bit(a@, 64 * w + j) == word_bit(a@[w], j));
                assert(seq_bit(b@, 64 * w + j) == word_bit(b@[w], j));
            }
        }
        lemma_word_ext(a@[w], b@[w]);
    }
    assert(a@ =~= b@);
}

impl Grid {
    /// A fresh path-lane generator over this grid's stride, starting at
    /// column `from % stride` of row zero and stepping `left` columns and
    /// `down` rows per path point.
    pub fn each(&self, from: usize, left: usize, down: usize) -> (e: Each)
        requires
            down >= 1,
            2 * (down * self.spec_stride() + left) + 512 <= usize::MAX as int,
        ensures
            e.wf(),
            e.spec_start() == from as int,
            e.spec_left() == left as int,
            e.spec_down() == down as int,
            e.spec_stride() == self.spec_stride(),
            e.spec_lanes() == 0,
    {
        let c0 = if self.stride == 0 {
            0
        } else {
            from % self.stride
        };
        let e = Each {
            idx: c0,
            cursor: c0,
            left,
            down,
            stride: self.stride,
            start: Ghost(from as int),
            points: Ghost(0int),
            lanes: Ghost(0int),
        };
        proof {
            if self.stride >= 1 {
                assert(0 * (left as int) == 0) by (nonlinear_arith);
                assert(0 * (down as int) * self.spec_stride() == 0) by (nonlinear_arith);
                vstd::arithmetic::div_mod::lemma_mod_bound(from as int, self.spec_stride());
                assert(path_col(from as int, left as int, self.spec_stride(), 0) == c0 as int);
                assert(self.spec_stride() <= down * self.spec_stride()) by (nonlinear_arith)
                    requires
                        1 <= down,
                        0 <= self.spec_stride(),
                ;
            }
        }
        e
    }
}

/// Takes as many lanes from the generator as the grid has stored, ANDs each
/// against the matching storage lane, and sums the population counts: the
/// number of path positions that land on a `marked` cell, over all stored
/// bits.
pub fn count_hits(grid: &Grid, each: Each) -> (r: usize)
    requires
        grid.wf(),
        each.wf(),
        each.spec_stride() == grid.spec_stride(),
        each.spec_lanes() == 0,
        64 * grid.words().len() <= usize::MAX as int,
    ensures
        r == and_count(
            grid.words(),
            each.spec_start(),
            each.spec_left(),
            each.spec_down(),
            each.spec_stride(),
            64 * grid.words().len() as int,
        ),
{
    let ghost f = each.spec_start();
    let ghost l = each.spec_left();
    let ghost d = each.spec_down();
    let ghost s = each.spec_stride();
    let mut each = each;
    let mut total: usize = 0;
    let lanes = grid.len();
    let mut li: usize = 0;
    while li < lanes
        invariant
            grid.wf(),
            each.wf(),
            each.spec_start() == f,
            each.spec_left() == l,
            each.spec_down() == d,
            each.spec_stride() == s,
            each.spec_lanes() == li as int,
            4 * lanes == grid.words().len(),
            64 * grid.words().len() <= usize::MAX as int,
            li <= lanes,
            total as int == and_count(grid.words(), f, l, d, s, 256 * li as int),
            total as int <= 256 * li as int,
        decreases lanes - li,
    {
        let lane = each.next();
        let mut wi: usize = 0;
        while wi < 4
            invariant
                grid.wf(),
                4 * lanes == grid.words().len(),
                64 * grid.words().len() <= usize::MAX as int,
                li < lanes,
                wi <= 4,
                forall|j: int|
                    0 <= j < 256 ==> (seq_bit(lane@, j) == path_bit(f, l, d, s, 256 * li as int
                        + j)),
                lane@.len() == 4,
                total as int == and_count(grid.words(), f, l, d, s, 256 * li as int + 64 * wi
                    as int),
                total as int <= 256 * li as int + 64 * wi as int,
            decreases 4 - wi,
        {
            let ghost base = 256 * li as int + 64 * wi as int;
            let a = lane[wi];
            let g = grid.v[4 * li + wi];
            let c = popcount(a & g);
            proof {
                assert forall|j2: u64| j2 < 64 implies (#[trigger] word_bit(a, j2) == path_bit(
                    f,
                    l,
                    d,
                    s,
                    base + j2,
                )) by {
                    lemma_fundamental_div_mod_converse(64 * wi as int + j2, 64, wi as int, j2 as int);
                    assert(seq_bit(lane@, 64 * wi as int + j2) == word_bit(a, j2));
                }
                assert forall|j2: u64| j2 < 64 implies (#[trigger] word_bit(g, j2) == seq_bit(
                    grid.words(),
                    base + j2,
                )) by {
                    lemma_fundamental_div_mod_converse(
                        base + j2,
                        64,
                        4 * li as int + wi as int,
                        j2 as int,
                    );
                }
                lemma_and_count_chunk(grid.words(), f, l, d, s, base, a, g, 64);
                crate::bits::lemma_pcount_bound(a & g, 64);
            }
            total = total + c;
            wi = wi + 1;
        }
        li = li + 1;
    }
    total
}

/// One 64-bit word's worth of `and_count`: the popcount of the AND of a
/// path word and a storage word, when the two words' bits spell out path
/// membership and storage contents for positions `base..base + 64`.
proof fn lemma_and_count_chunk(
    words: Seq<u64>,
    from: int,
    left: int,
    down: int,
    stride: int,
    base: int,
    a: u64,
    g: u64,
    j: int,
)
    requires
        0 <= j <= 64,
        0 <= base,
        forall|j2: u64| j2 < 64 ==> (#[trigger] word_bit(a, j2) == path_bit(from, left, down, stride, base + j2)),
        forall|j2: u64| j2 < 64 ==> (#[trigger] word_bit(g, j2) == seq_bit(words, base + j2)),
    ensures
        and_count(words, from, left, down, stride, base + j) == and_count(
            words,
            from,
            left,
            down,
            stride,
            base,
        ) + pcount(a & g, j),
    decreases j,
{
    if j > 0 {
        lemma_and_count_chunk(words, from, left, down, stride, base, a, g, j - 1);
        let j2 = (j - 1) as u64;
        assert(word_bit(a & g, j2) == (word_bit(a, j2) && word_bit(g, j2))) by (bit_vector);
        assert(word_bit(a, j2) == path_bit(from, left, down, stride, base + j2));
        assert(word_bit(g, j2) == seq_bit(words, base + j2));
    }
}

} // verus!
