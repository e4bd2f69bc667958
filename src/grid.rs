use vstd::prelude::*;

use crate::point::{check_endpoints, endpoints_valid, Color, Coord, Point};

verus! {

/// A rectangular table of cells, each empty or holding a color.
pub struct Grid {
    pub data: Vec<Vec<Option<Color>>>,
}

/// Whether `c` lies inside a grid of `rows` rows and `cols` columns.
pub open spec fn in_bounds(c: Coord, rows: int, cols: int) -> bool {
    c.0 < rows && c.1 < cols
}

/// The points of columns `[0, n)` of row `r`, left to right.
pub open spec fn row_points(row: Seq<Option<Color>>, r: int, n: int) -> Seq<Point>
    decreases n,
{
    if n <= 0 {
        Seq::empty()
    } else {
        let prev = row_points(row, r, n - 1);
        match row[n - 1] {
            Some(color) => prev.push(Point { coord: (r as usize, (n - 1) as usize), color }),
            None => prev,
        }
    }
}

/// The points of rows `[0, n)`, in row-major order.
pub open spec fn grid_points(d: Seq<Seq<Option<Color>>>, n: int) -> Seq<Point>
    decreases n,
{
    if n <= 0 {
        Seq::empty()
    } else {
        grid_points(d, n - 1) + row_points(d[n - 1], n - 1, d[n - 1].len() as int)
    }
}

/// Why a puzzle text does not describe a grid.
#[derive(Clone, Copy, Debug, PartialEq, Eq)]
pub enum GridError {
    /// No line of two or more characters.
    Empty,
    /// Two grid lines of different lengths.
    NotRectangular,
    /// Colors not dense from zero, or a color not on exactly two cells.
    BadEndpoints,
}

/// The color that a character of a puzzle text denotes: a decimal digit, or an empty cell.
pub open spec fn digit_of(ch: char) -> Option<Color> {
    if '0' <= ch && ch <= '9' {
        Some((ch as u32 - '0' as u32) as usize)
    } else {
        None
    }
}

/// The lines of `t`, split at each newline (a text without newline is one line).
pub open spec fn split_lines(t: Seq<char>) -> Seq<Seq<char>>
    decreases t.len(),
{
    if t.len() == 0 {
        seq![Seq::empty()]
    } else {
        let rest = split_lines(t.drop_last());
        if t.last() == '\n' {
            rest.push(Seq::empty())
        } else {
            rest.update(rest.len() - 1, rest.last().push(t.last()))
        }
    }
}

/// Whether a line of a puzzle text is a grid row: lines of fewer than two characters are skipped.
pub open spec fn is_row_line(l: Seq<char>) -> bool {
    l.len() >= 2
}

/// The cells of a line.
pub open spec fn line_cells(l: Seq<char>) -> Seq<Option<Color>> {
    l.map_values(|ch: char| digit_of(ch))
}

/// The rows that a puzzle text describes.
pub open spec fn text_rows(t: Seq<char>) -> Seq<Seq<Option<Color>>> {
    split_lines(t).filter(|l: Seq<char>| is_row_line(l)).map_values(|l: Seq<char>| line_cells(l))
}

proof fn lemma_split_lines_nonempty(t: Seq<char>)
    ensures
        split_lines(t).len() >= 1,
    decreases t.len(),
{
    if t.len() > 0 {
        lemma_split_lines_nonempty(t.drop_last());
    }
}

/// The cells of a line, one for each character.
fn parse_line(line: &Vec<char>) -> (r: Vec<Option<Color>>)
    ensures
        r@ == line_cells(line@),
{
    let mut r: Vec<Option<Color>> = Vec::new();
    let mut i: usize = 0;
    while i < line.len()
        invariant
            i <= line@.len(),
            r@ == line_cells(line@.subrange(0, i as int)),
        decreases line@.len() - i,
    {
        let ch = line[i];
        let v = if '0' <= ch && ch <= '9' {
            Some((ch as u32 - '0' as u32) as usize)
        } else {
            None
        };
        r.push(v);
        assert(r@ =~= line_cells(line@.subrange(0, i + 1)));
        i = i + 1;
    }
    assert(line@.subrange(0, line@.len() as int) =~= line@);
    r
}

/// Reads a puzzle text: one grid row per line of two or more characters, a digit for an
/// endpoint of that color and any other character for an empty cell. The colors must be dense
/// from zero, each on exactly two cells.
pub fn parse_grid(text: &Vec<char>) -> (r: Result<Grid, GridError>)
    ensures
        ({
            let rows = text_rows(text@);
            match r {
                Ok(g) => {
                    &&& rows.len() > 0
                    &&& forall|i: int| 0 <= i < rows.len() ==> (#[trigger] rows[i]).len() == rows[0].len()
                    &&& g.cells() == rows
                    &&& g.wf()
                    &&& endpoints_valid(grid_points(rows, rows.len() as int))
                    &&& crate::paths::pairs_found(g)
                },
                Err(GridError::BadEndpoints) => {
                    &&& rows.len() > 0
                    &&& forall|i: int| 0 <= i < rows.len() ==> (#[trigger] rows[i]).len() == rows[0].len()
                    &&& !endpoints_valid(grid_points(rows, rows.len() as int))
                },
                Err(GridError::Empty) => rows.len() == 0,
                Err(GridError::NotRectangular) => rows.len() > 0 && exists|i: int| 0 <= i < rows.len() && (#[trigger] rows[i]).len() != rows[0].len(),
            }
        }),
{
    let ghost f = |l: Seq<char>| is_row_line(l);
    let ghost m = |l: Seq<char>| line_cells(l);
    let mut data: Vec<Vec<Option<Color>>> = Vec::new();
    let mut cur: Vec<char> = Vec::new();
    let mut i: usize = 0;
    assert(text@.subrange(0, 0) =~= Seq::<char>::empty());
    assert(split_lines(Seq::<char>::empty()).drop_last().filter(f) =~= Seq::<Seq<char>>::empty());
    while i < text.len()
        invariant
            i <= text@.len(),
            f == (|l: Seq<char>| is_row_line(l)),
            m == (|l: Seq<char>| line_cells(l)),
            split_lines(text@.subrange(0, i as int)).len() >= 1,
            cur@ == split_lines(text@.subrange(0, i as int)).last(),
            data@.map_values(|row: Vec<Option<Color>>| row@) == split_lines(text@.subrange(0, i as int)).drop_last().filter(f).map_values(m),
        decreases text@.len() - i,
    {
        let ghost t0 = text@.subrange(0, i as int);
        let ghost t1 = text@.subrange(0, i + 1);
        let ghost before = data@;
        proof {
            assert(t1.drop_last() =~= t0);
            lemma_split_lines_nonempty(t0);
        }
        let ch = text[i];
        if ch == '\n' {
            proof {
                assert(split_lines(t1) == split_lines(t0).push(Seq::empty()));
                assert(split_lines(t1).drop_last() =~= split_lines(t0));
                assert(split_lines(t0) =~= split_lines(t0).drop_last().push(cur@));
                split_lines(t0).drop_last().lemma_filter_push(cur@, f);
            }
            if cur.len() >= 2 {
                let row = parse_line(&cur);
                data.push(row);
                proof {
                    assert(data@.map_values(|row: Vec<Option<Color>>| row@) =~= before.map_values(|row: Vec<Option<Color>>| row@).push(line_cells(cur@)));
                    assert(split_lines(t0).drop_last().filter(f).push(cur@).map_values(m) =~= split_lines(t0).drop_last().filter(f).map_values(m).push(line_cells(cur@)));
                }
            }
            cur = Vec::new();
            assert(cur@ =~= split_lines(t1).last());
        } else {
            cur.push(ch);
            proof {
                let rest = split_lines(t0);
                assert(split_lines(t1) == rest.update(rest.len() - 1, rest.last().push(ch)));
                assert(split_lines(t1).drop_last() =~= rest.drop_last());
            }
        }
        i = i + 1;
    }
    let ghost t = text@.subrange(0, i as int);
    assert(t =~= text@);
    let ghost before = data@;
    proof {
        assert(split_lines(t) =~= split_lines(t).drop_last().push(cur@));
        split_lines(t).drop_last().lemma_filter_push(cur@, f);
    }
    if cur.len() >= 2 {
        let row = parse_line(&cur);
        data.push(row);
        proof {
            assert(data@.map_values(|row: Vec<Option<Color>>| row@) =~= before.map_values(|row: Vec<Option<Color>>| row@).push(line_cells(cur@)));
            assert(split_lines(t).drop_last().filter(f).push(cur@).map_values(m) =~= split_lines(t).drop_last().filter(f).map_values(m).push(line_cells(cur@)));
        }
    }
    let ghost rows = text_rows(text@);
    assert(data@.map_values(|row: Vec<Option<Color>>| row@) == rows);
    if data.len() == 0 {
        return Err(GridError::Empty);
    }
    assert(rows[0] == data@[0]@);
    let width = data[0].len();
    let mut k: usize = 0;
    while k < data.len()
        invariant
            data@.len() > 0,
            width == data@[0]@.len(),
            data@.map_values(|row: Vec<Option<Color>>| row@) == rows,
            k <= data@.len(),
            forall|j: int| 0 <= j < k ==> (#[trigger] rows[j]).len() == rows[0].len(),
            rows[0].len() == width,
            rows == text_rows(text@),
        decreases data@.len() - k,
    {
        assert(rows[k as int] == data@[k as int]@);
        if data[k].len() != width {
            assert(rows[k as int].len() != rows[0].len());
            assert(rows.len() == data@.len());
            return Err(GridError::NotRectangular);
        }
        k = k + 1;
    }
    let g = Grid { data };
    assert(g.cells() == rows);
    assert forall|r: int| 0 <= r < g.rows() implies (#[trigger] g.data@[r])@.len() == g.cols() by {
        assert(rows[r] == g.data@[r]@);
        assert(rows[0] == g.data@[0]@);
    }
    assert(width >= 2) by {
        assert(rows.len() > 0);
        split_lines(text@).lemma_filter_pred(f, 0);
        assert(rows[0].len() == split_lines(text@).filter(f)[0].len());
    }
    let points = g.find_points();
    if !check_endpoints(&points) {
        return Err(GridError::BadEndpoints);
    }
    proof { crate::paths::lemma_valid_endpoints_pair(g); }
    Ok(g)
}

impl Grid {
    /// The cells, row by row.
    pub open spec fn cells(&self) -> Seq<Seq<Option<Color>>> {
        self.data@.map_values(|row: Vec<Option<Color>>| row@)
    }

    pub open spec fn rows(&self) -> int {
        self.data@.len() as int
    }

    pub open spec fn cols(&self) -> int {
        self.data@[0]@.len() as int
    }

    /// The content of the cell at `c`.
    pub open spec fn cell(&self, c: Coord) -> Option<Color> {
        self.data@[c.0 as int]@[c.1 as int]
    }

    /// At least one row and one column, and all rows of the same length.
    pub open spec fn wf(&self) -> bool {
        &&& 0 < self.rows() <= usize::MAX
        &&& 0 < self.cols() <= usize::MAX
        &&& forall|r: int| 0 <= r < self.rows() ==> (#[trigger] self.data@[r])@.len() == self.cols()
    }

    /// Whether the grid has `dims.0` rows and `dims.1` columns, all rows alike.
    pub open spec fn has_dims(&self, dims: (usize, usize)) -> bool {
        &&& self.data@.len() == dims.0
        &&& forall|r: int| 0 <= r < dims.0 ==> (#[trigger] self.data@[r])@.len() == dims.1
    }

    /// An all-empty grid of `dims.0` rows and `dims.1` columns.
    pub fn new(dims: &(usize, usize)) -> (r: Self)
        ensures
            r.has_dims(*dims),
            forall|c: Coord| in_bounds(c, dims.0 as int, dims.1 as int) ==> r.cell(c) is None,
            dims.0 > 0 && dims.1 > 0 ==> r.wf() && r.rows() == dims.0 && r.cols() == dims.1,
    {
        let mut data: Vec<Vec<Option<Color>>> = Vec::new();
        let mut i: usize = 0;
        while i < dims.0
            invariant
                i <= dims.0,
                data@.len() == i,
                forall|r: int| 0 <= r < i ==> (#[trigger] data@[r])@.len() == dims.1,
                forall|r: int, c: int| 0 <= r < i && 0 <= c < dims.1 ==> #[trigger] data@[r]@[c] is None,
            decreases dims.0 - i,
        {
            let mut row: Vec<Option<Color>> = Vec::new();
            let mut j: usize = 0;
            while j < dims.1
                invariant
                    j <= dims.1,
                    row@.len() == j,
                    forall|c: int| 0 <= c < j ==> (#[trigger] row@[c]) is None,
                decreases dims.1 - j,
            {
                row.push(None);
                j = j + 1;
            }
            data.push(row);
            i = i + 1;
        }
        Self { data }
    }

    /// The number of rows and of columns.
    pub fn get_dims(&self) -> (r: (usize, usize))
        requires
            self.data@.len() > 0,
        ensures
            r.0 == self.rows(),
            r.1 == self.cols(),
    {
        (self.data.len(), self.data[0].len())
    }

    /// The content of the cell at `coord`.
    pub fn get(&self, coord: &Coord) -> (r: Option<Color>)
        requires
            self.wf(),
            in_bounds(*coord, self.rows(), self.cols()),
        ensures
            r == self.cell(*coord),
    {
        self.data[coord.0][coord.1]
    }

    /// Writes `val` into the cell at `coord`, leaving every other cell as it was.
    pub fn set(&mut self, coord: &Coord, val: Option<Color>)
        requires
            old(self).wf(),
            in_bounds(*coord, old(self).rows(), old(self).cols()),
        ensures
            final(self).wf(),
            final(self).rows() == old(self).rows(),
            final(self).cols() == old(self).cols(),
            final(self).cell(*coord) == val,
            forall|c: Coord|
                in_bounds(c, old(self).rows(), old(self).cols()) && c != *coord ==> #[trigger] final(self).cell(c) == old(self).cell(c),
    {
        let ghost cols = self.cols();
        let mut row: Vec<Option<Color>> = Vec::new();
        self.data.set_and_swap(coord.0, &mut row);
        row.set(coord.1, val);
        self.data.set_and_swap(coord.0, &mut row);
        assert(self.data@[0]@.len() == cols);
    }

    /// Appends the glyph of the cell at (`row`, `col`) to `s`.
    fn push_glyph(&self, row: usize, col: usize, s: &mut String)
        requires
            self.wf(),
            row < self.rows(),
            col < self.cols(),
        ensures
            final(s)@ == old(s)@ + glyph(self.cells(), row as int, col as int),
    {
        let (nb_rows, nb_cols) = self.get_dims();
        let point = self.get(&(row, col));
        let ghost d = self.cells();
        assert(d[row as int] == self.data@[row as int]@);
        assert(row > 0 ==> d[row - 1] == self.data@[row - 1]@);
        assert(row + 1 < nb_rows ==> d[row + 1] == self.data@[row + 1]@);
        assert(d[0] == self.data@[0]@);
        match point {
            None => {
                proof {
                    reveal_strlit(" ");
                    assert(" "@ =~= seq![' ']);
                }
                s.append(" ");
            },
            Some(n) => {
                let mut num = false;
                let piece: &str = if row != 0 && col != 0 && same(point, self.get(&(row - 1, col))) && same(point, self.get(&(row, col - 1))) {
                    "╯"
                } else if row != 0 && col != nb_cols - 1 && same(point, self.get(&(row - 1, col))) && same(point, self.get(&(row, col + 1))) {
                    "╰"
                } else if row != 0 && row != nb_rows - 1 && same(point, self.get(&(row - 1, col))) && same(point, self.get(&(row + 1, col))) {
                    "│"
                } else if row != nb_rows - 1 && col != 0 && same(point, self.get(&(row + 1, col))) && same(point, self.get(&(row, col - 1))) {
                    "╮"
                } else if row != nb_rows - 1 && col != nb_cols - 1 && same(point, self.get(&(row + 1, col))) && same(point, self.get(&(row, col + 1))) {
                    "╭"
                } else if col != 0 && col != nb_cols - 1 && same(point, self.get(&(row, col - 1))) && same(point, self.get(&(row, col + 1))) {
                    "─"
                } else {
                    num = true;
                    ""
                };
                proof {
                    reveal_strlit("╯");
                    reveal_strlit("╰");
                    reveal_strlit("│");
                    reveal_strlit("╮");
                    reveal_strlit("╭");
                    reveal_strlit("─");
                    reveal_strlit("");
                }
                if num {
                    push_decimal(s, n);
                } else {
                    s.append(piece);
                }
            },
        }
    }

    /// The grid drawn as text: one line per row, each cell a pipe glyph, a color number or a space.
    pub fn to_string(&self) -> (r: String)
        requires
            self.wf(),
        ensures
            r@ == render_rows(self.cells(), self.rows()),
    {
        let (nb_rows, nb_cols) = self.get_dims();
        let ghost d = self.cells();
        let mut res = String::new();
        let mut row: usize = 0;
        while row < nb_rows
            invariant
                self.wf(),
                d == self.cells(),
                nb_rows == self.rows(),
                nb_cols == self.cols(),
                row <= nb_rows,
                res@ == render_rows(d, row as int),
            decreases nb_rows - row,
        {
            let mut col: usize = 0;
            while col < nb_cols
                invariant
                    self.wf(),
                    d == self.cells(),
                    nb_rows == self.rows(),
                    nb_cols == self.cols(),
                    row < nb_rows,
                    col <= nb_cols,
                    res@ == render_rows(d, row as int) + render_row(d, row as int, col as int),
                decreases nb_cols - col,
            {
                self.push_glyph(row, col, &mut res);
                assert(res@ =~= render_rows(d, row as int) + render_row(d, row as int, col + 1));
                col = col + 1;
            }
            assert(d[0] == self.data@[0]@);
            if row != nb_rows - 1 {
                proof { reveal_strlit("\n"); }
                res.append("\n");
            }
            assert(res@ =~= render_rows(d, row + 1));
            row = row + 1;
        }
        res
    }

    /// Every colored cell, as a point, in row-major order.
    pub fn find_points(&self) -> (r: Vec<Point>)
        requires
            self.wf(),
        ensures
            r@ == grid_points(self.cells(), self.rows()),
    {
        let (nb_rows, nb_cols) = self.get_dims();
        let mut points: Vec<Point> = Vec::new();
        let mut row: usize = 0;
        while row < nb_rows
            invariant
                self.wf(),
                nb_rows == self.rows(),
                nb_cols == self.cols(),
                row <= nb_rows,
                points@ == grid_points(self.cells(), row as int),
            decreases nb_rows - row,
        {
            let mut col: usize = 0;
            while col < nb_cols
                invariant
                    self.wf(),
                    nb_rows == self.rows(),
                    nb_cols == self.cols(),
                    row < nb_rows,
                    col <= nb_cols,
                    points@ == grid_points(self.cells(), row as int) + row_points(self.cells()[row as int], row as int, col as int),
                decreases nb_cols - col,
            {
                if let Some(color) = self.get(&(row, col)) {
                    points.push(Point::new((row, col), color));
                }
                assert(points@ =~= grid_points(self.cells(), row as int) + row_points(self.cells()[row as int], row as int, col + 1));
                col = col + 1;
            }
            assert(points@ =~= grid_points(self.cells(), row + 1));
            row = row + 1;
        }
        points
    }
}

/// The decimal digits of `n`, most significant first.
pub open spec fn decimal(n: nat) -> Seq<char>
    decreases n,
{
    if n < 10 {
        seq![digit_char(n)]
    } else {
        decimal(n / 10) + seq![digit_char(n % 10)]
    }
}

/// The character of a decimal digit.
pub open spec fn digit_char(d: nat) -> char {
    seq!['0', '1', '2', '3', '4', '5', '6', '7', '8', '9'][d as int]
}

/// The glyph of the cell at row `r`, column `c` of `d`: a pipe piece where the cell joins two
/// neighbors of its color (tested in a fixed order), its color's number where it does not, a
/// space where it is empty.
pub open spec fn glyph(d: Seq<Seq<Option<Color>>>, r: int, c: int) -> Seq<char> {
    let rows = d.len() as int;
    let cols = d[0].len() as int;
    let p = d[r][c];
    match p {
        None => seq![' '],
        Some(n) => if r != 0 && c != 0 && p == d[r - 1][c] && p == d[r][c - 1] {
            seq!['╯']
        } else if r != 0 && c != cols - 1 && p == d[r - 1][c] && p == d[r][c + 1] {
            seq!['╰']
        } else if r != 0 && r != rows - 1 && p == d[r - 1][c] && p == d[r + 1][c] {
            seq!['│']
        } else if r != rows - 1 && c != 0 && p == d[r + 1][c] && p == d[r][c - 1] {
            seq!['╮']
        } else if r != rows - 1 && c != cols - 1 && p == d[r + 1][c] && p == d[r][c + 1] {
            seq!['╭']
        } else if c != 0 && c != cols - 1 && p == d[r][c - 1] && p == d[r][c + 1] {
            seq!['─']
        } else {
            decimal(n as nat)
        },
    }
}

/// The glyphs of the first `n` cells of row `r`.
pub open spec fn render_row(d: Seq<Seq<Option<Color>>>, r: int, n: int) -> Seq<char>
    decreases n,
{
    if n <= 0 {
        Seq::empty()
    } else {
        render_row(d, r, n - 1) + glyph(d, r, n - 1)
    }
}

/// The first `n` rows, each but the grid's last followed by a newline.
pub open spec fn render_rows(d: Seq<Seq<Option<Color>>>, n: int) -> Seq<char>
    decreases n,
{
    if n <= 0 {
        Seq::empty()
    } else {
        render_rows(d, n - 1) + render_row(d, n - 1, d[0].len() as int) + if n - 1 != d.len() - 1 {
            seq!['\n']
        } else {
            Seq::empty()
        }
    }
}

fn same(a: Option<Color>, b: Option<Color>) -> (r: bool)
    ensures
        r == (a == b),
{
    match (a, b) {
        (None, None) => true,
        (Some(x), Some(y)) => x == y,
        _ => false,
    }
}

/// Appends the decimal digits of `n` to `s`.
fn push_decimal(s: &mut String, n: usize)
    ensures
        final(s)@ == old(s)@ + decimal(n as nat),
    decreases n,
{
    if n >= 10 {
        push_decimal(s, n / 10);
    }
    let d = n % 10;
    let piece: &str = if d == 0 {
        "0"
    } else if d == 1 {
        "1"
    } else if d == 2 {
        "2"
    } else if d == 3 {
        "3"
    } else if d == 4 {
        "4"
    } else if d == 5 {
        "5"
    } else if d == 6 {
        "6"
    } else if d == 7 {
        "7"
    } else if d == 8 {
        "8"
    } else {
        "9"
    };
    proof {
        reveal_strlit("0");
        reveal_strlit("1");
        reveal_strlit("2");
        reveal_strlit("3");
        reveal_strlit("4");
        reveal_strlit("5");
        reveal_strlit("6");
        reveal_strlit("7");
        reveal_strlit("8");
        reveal_strlit("9");
        assert(piece@ =~= seq![digit_char(d as nat)]);
    }
    s.append(piece);
}

proof fn lemma_row_points_sorted(row: Seq<Option<Color>>, r: int, n: int)
    requires
        0 <= r <= usize::MAX,
        0 <= n <= usize::MAX,
    ensures
        forall|i: int| 0 <= i < row_points(row, r, n).len() ==> {
            let p = #[trigger] row_points(row, r, n)[i];
            p.coord.0 == r && p.coord.1 < n
        },
        forall|i: int, j: int| 0 <= i < j < row_points(row, r, n).len() ==>
            (#[trigger] row_points(row, r, n)[i]).coord.1 < (#[trigger] row_points(row, r, n)[j]).coord.1,
    decreases n,
{
    if n > 0 {
        lemma_row_points_sorted(row, r, n - 1);
        let prev = row_points(row, r, n - 1);
        let rp = row_points(row, r, n);
        assert forall|i: int| 0 <= i < rp.len() implies {
            let p = #[trigger] rp[i];
            p.coord.0 == r && p.coord.1 < n
        } by {
            if i < prev.len() {
                assert(rp[i] == prev[i]);
            }
        }
        assert forall|i: int, j: int| 0 <= i < j < rp.len() implies (#[trigger] rp[i]).coord.1 < (#[trigger] rp[j]).coord.1 by {
            assert(rp[i] == prev[i]);
            if j < prev.len() {
                assert(rp[j] == prev[j]);
            }
        }
    }
}

/// The points of the first `n` rows lie in those rows, in strictly increasing row-major order.
pub proof fn lemma_grid_points_sorted(g: Grid, n: int)
    requires
        g.wf(),
        0 <= n <= g.rows(),
    ensures
        forall|i: int| 0 <= i < grid_points(g.cells(), n).len() ==> (#[trigger] grid_points(g.cells(), n)[i]).coord.0 < n,
        forall|i: int, j: int| 0 <= i < j < grid_points(g.cells(), n).len() ==> {
            let a = (#[trigger] grid_points(g.cells(), n)[i]).coord;
            let b = (#[trigger] grid_points(g.cells(), n)[j]).coord;
            a.0 < b.0 || (a.0 == b.0 && a.1 < b.1)
        },
    decreases n,
{
    if n > 0 {
        lemma_grid_points_sorted(g, n - 1);
        let row = g.cells()[n - 1];
        assert(row == g.data@[n - 1]@);
        lemma_row_points_sorted(row, n - 1, row.len() as int);
        let a = grid_points(g.cells(), n - 1);
        let b = row_points(row, n - 1, row.len() as int);
        let gp = grid_points(g.cells(), n);
        assert(gp == a + b);
        assert forall|i: int| 0 <= i < gp.len() implies (#[trigger] gp[i]).coord.0 < n by {
            if i >= a.len() {
                assert(gp[i] == b[i - a.len()]);
            } else {
                assert(gp[i] == a[i]);
            }
        }
        assert forall|i: int, j: int| 0 <= i < j < gp.len() implies {
            let x = (#[trigger] gp[i]).coord;
            let y = (#[trigger] gp[j]).coord;
            x.0 < y.0 || (x.0 == y.0 && x.1 < y.1)
        } by {
            if i >= a.len() {
                assert(gp[i] == b[i - a.len()]);
                assert(gp[j] == b[j - a.len()]);
            } else if j >= a.len() {
                assert(gp[i] == a[i]);
                assert(gp[j] == b[j - a.len()]);
            } else {
                assert(gp[i] == a[i]);
                assert(gp[j] == a[j]);
            }
        }
    }
}

/// Each point of the first `n` rows names an in-bounds cell that holds its color.
pub proof fn lemma_grid_points(g: Grid, n: int)
    requires
        g.wf(),
        0 <= n <= g.rows(),
    ensures
        forall|i: int| 0 <= i < grid_points(g.cells(), n).len() ==> {
            let p = #[trigger] grid_points(g.cells(), n)[i];
            in_bounds(p.coord, g.rows(), g.cols()) && g.cell(p.coord) == Some(p.color)
        },
    decreases n,
{
    if n > 0 {
        lemma_grid_points(g, n - 1);
        let row = g.cells()[n - 1];
        lemma_row_points(g, n - 1, row.len() as int);
        let a = grid_points(g.cells(), n - 1);
        let b = row_points(row, n - 1, row.len() as int);
        assert forall|i: int| 0 <= i < grid_points(g.cells(), n).len() implies {
            let p = #[trigger] grid_points(g.cells(), n)[i];
            in_bounds(p.coord, g.rows(), g.cols()) && g.cell(p.coord) == Some(p.color)
        } by {
            if i >= a.len() {
                assert(grid_points(g.cells(), n)[i] == b[i - a.len()]);
            } else {
                assert(grid_points(g.cells(), n)[i] == a[i]);
            }
        }
    }
}

proof fn lemma_row_points(g: Grid, r: int, n: int)
    requires
        g.wf(),
        0 <= r < g.rows(),
        0 <= n <= g.cols(),
    ensures
        forall|i: int| 0 <= i < row_points(g.cells()[r], r, n).len() ==> {
            let p = #[trigger] row_points(g.cells()[r], r, n)[i];
            in_bounds(p.coord, g.rows(), g.cols()) && g.cell(p.coord) == Some(p.color)
        },
    decreases n,
{
    if n > 0 {
        lemma_row_points(g, r, n - 1);
        assert(g.cells()[r] == g.data@[r]@);
        assert(g.data@[r]@.len() == g.cols());
        let prev = row_points(g.cells()[r], r, n - 1);
        assert forall|i: int| 0 <= i < row_points(g.cells()[r], r, n).len() implies {
            let p = #[trigger] row_points(g.cells()[r], r, n)[i];
            in_bounds(p.coord, g.rows(), g.cols()) && g.cell(p.coord) == Some(p.color)
        } by {
            if i < prev.len() {
                assert(row_points(g.cells()[r], r, n)[i] == prev[i]);
            }
        }
    }
}

} // verus!
