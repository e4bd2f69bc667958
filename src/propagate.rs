use vstd::prelude::*;

use crate::grid::{in_bounds, Grid};
use crate::paths::{copy_path, path_contains, path_views, Path};
use crate::point::{Color, Coord};

verus! {

/// A candidate set as plain values: for each color, its candidate paths.
pub open spec fn cands(v: Seq<Vec<Path>>) -> Seq<Seq<Seq<Coord>>> {
    v.map_values(|ps: Vec<Path>| path_views(ps@))
}

/// Every cell of every candidate lies inside a `rows` by `cols` grid.
pub open spec fn cands_wf(s: Seq<Seq<Seq<Coord>>>, rows: int, cols: int) -> bool {
    forall|c: int, k: int, i: int|
        0 <= c < s.len() && 0 <= k < s[c].len() && 0 <= i < s[c][k].len() ==> in_bounds(
            #[trigger] s[c][k][i],
            rows,
            cols,
        )
}

/// Some path of `ps` visits `x`.
pub open spec fn touches(ps: Seq<Seq<Coord>>, x: Coord) -> bool {
    exists|k: int| 0 <= k < ps.len() && #[trigger] ps[k].contains(x)
}

/// `ps` is not empty and every path of it visits `x`.
pub open spec fn forced_for(ps: Seq<Seq<Coord>>, x: Coord) -> bool {
    ps.len() > 0 && forall|k: int| 0 <= k < ps.len() ==> #[trigger] ps[k].contains(x)
}

/// The last color below `n` for which `x` is forced.
pub open spec fn forced_owner(s: Seq<Seq<Seq<Coord>>>, x: Coord, n: int) -> Option<Color>
    decreases n,
{
    if n <= 0 {
        None
    } else if forced_for(s[n - 1], x) {
        Some((n - 1) as usize)
    } else {
        forced_owner(s, x, n - 1)
    }
}

/// A path of color `c` visits no cell forced for another color.
pub open spec fn keep_forced(s: Seq<Seq<Seq<Coord>>>, c: int, p: Seq<Coord>) -> bool {
    forall|i: int| 0 <= i < p.len() ==> match forced_owner(s, #[trigger] p[i], s.len() as int) {
        None => true,
        Some(o) => o == c,
    }
}

/// The candidate set after the forced-cell filter.
pub open spec fn filter_forced(s: Seq<Seq<Seq<Coord>>>) -> Seq<Seq<Seq<Coord>>> {
    Seq::new(s.len(), |c: int| s[c].filter(|p: Seq<Coord>| keep_forced(s, c, p)))
}

/// `x` is visited by candidates of color `c` and of no other color.
pub open spec fn exclusive_to(s: Seq<Seq<Seq<Coord>>>, c: int, x: Coord) -> bool {
    &&& touches(s[c], x)
    &&& forall|d: int| 0 <= d < s.len() && d != c ==> !touches(#[trigger] s[d], x)
}

/// A path of color `c` visits every cell exclusive to `c`.
pub open spec fn keep_single(s: Seq<Seq<Seq<Coord>>>, c: int, p: Seq<Coord>, rows: int, cols: int) -> bool {
    forall|x: Coord| in_bounds(x, rows, cols) && #[trigger] exclusive_to(s, c, x) ==> p.contains(x)
}

/// The candidate set after the exclusive-region filter.
pub open spec fn filter_single(s: Seq<Seq<Seq<Coord>>>, rows: int, cols: int) -> Seq<Seq<Seq<Coord>>> {
    Seq::new(s.len(), |c: int| s[c].filter(|p: Seq<Coord>| keep_single(s, c, p, rows, cols)))
}

/// Every cell of the grid is visited by some candidate.
pub open spec fn covered(s: Seq<Seq<Seq<Coord>>>, rows: int, cols: int) -> bool {
    forall|x: Coord| in_bounds(x, rows, cols) ==> exists|c: int| 0 <= c < s.len() && #[trigger] touches(s[c], x)
}

/// `a` comes before `b` in row-major order.
pub open spec fn row_major_lt(a: Coord, b: Coord) -> bool {
    a.0 < b.0 || (a.0 == b.0 && a.1 < b.1)
}

/// The cells of `s` are in strictly increasing row-major order.
pub open spec fn row_major_sorted(s: Seq<Coord>) -> bool {
    forall|i: int, j: int| 0 <= i < j < s.len() ==> row_major_lt(#[trigger] s[i], #[trigger] s[j])
}

/// Whether some path of `ps` visits `x`.
fn touches_cell(ps: &Vec<Path>, x: &Coord) -> (r: bool)
    ensures
        r == touches(path_views(ps@), *x),
{
    let mut k: usize = 0;
    while k < ps.len()
        invariant
            k <= ps.len(),
            forall|j: int| 0 <= j < k ==> !ps@[j]@.contains(*x),
        decreases ps.len() - k,
    {
        if path_contains(&ps[k], x) {
            assert(path_views(ps@)[k as int].contains(*x));
            return true;
        }
        k = k + 1;
    }
    assert(forall|j: int| 0 <= j < ps@.len() ==> path_views(ps@)[j] == ps@[j]@);
    false
}

/// Whether `ps` is not empty and all its paths visit `x`.
fn all_touch(ps: &Vec<Path>, x: &Coord) -> (r: bool)
    ensures
        r == forced_for(path_views(ps@), *x),
{
    if ps.len() == 0 {
        return false;
    }
    let mut k: usize = 0;
    while k < ps.len()
        invariant
            k <= ps.len(),
            forall|j: int| 0 <= j < k ==> ps@[j]@.contains(*x),
        decreases ps.len() - k,
    {
        if !path_contains(&ps[k], x) {
            assert(!path_views(ps@)[k as int].contains(*x));
            return false;
        }
        k = k + 1;
    }
    assert(forall|j: int| 0 <= j < ps@.len() ==> path_views(ps@)[j] == ps@[j]@);
    true
}

/// The cells that every candidate of `paths` visits (none when `paths` is empty).
pub fn get_forced_coord(paths: &Vec<Path>, dims: &(usize, usize)) -> (r: Vec<Coord>)
    ensures
        forall|i: int| 0 <= i < r@.len() ==> in_bounds(#[trigger] r@[i], dims.0 as int, dims.1 as int),
        forall|x: Coord| in_bounds(x, dims.0 as int, dims.1 as int) ==> (r@.contains(x) <==> forced_for(path_views(paths@), x)),
        row_major_sorted(r@),
{
    let mut res: Vec<Coord> = Vec::new();
    if paths.len() == 0 {
        return res;
    }
    let (nb_rows, nb_cols) = *dims;
    let mut row: usize = 0;
    while row < nb_rows
        invariant
            row <= nb_rows,
            (nb_rows, nb_cols) == *dims,
            forall|i: int| 0 <= i < res@.len() ==> in_bounds(#[trigger] res@[i], dims.0 as int, dims.1 as int),
            forall|i: int| 0 <= i < res@.len() ==> (#[trigger] res@[i]).0 < row,
            row_major_sorted(res@),
            forall|x: Coord| in_bounds(x, dims.0 as int, dims.1 as int) && x.0 < row ==> (res@.contains(x) <==> forced_for(path_views(paths@), x)),
        decreases nb_rows - row,
    {
        let mut col: usize = 0;
        while col < nb_cols
            invariant
                row < nb_rows,
                col <= nb_cols,
                (nb_rows, nb_cols) == *dims,
                forall|i: int| 0 <= i < res@.len() ==> in_bounds(#[trigger] res@[i], dims.0 as int, dims.1 as int),
                forall|i: int| 0 <= i < res@.len() ==> (#[trigger] res@[i]).0 < row || (res@[i].0 == row && res@[i].1 < col),
                row_major_sorted(res@),
                forall|x: Coord| in_bounds(x, dims.0 as int, dims.1 as int) && (x.0 < row || (x.0 == row && x.1 < col)) ==> (res@.contains(x) <==> forced_for(path_views(paths@), x)),
            decreases nb_cols - col,
        {
            let ghost before = res@;
            if all_touch(paths, &(row, col)) {
                res.push((row, col));
            }
            assert forall|x: Coord| in_bounds(x, dims.0 as int, dims.1 as int) && (x.0 < row || (x.0 == row && x.1 < col + 1)) implies (res@.contains(x) <==> forced_for(path_views(paths@), x)) by {
                if res@.contains(x) && x != (row, col) {
                    let i = choose|i: int| 0 <= i < res@.len() && res@[i] == x;
                    assert(before[i] == x);
                }
                if before.contains(x) {
                    let i = choose|i: int| 0 <= i < before.len() && before[i] == x;
                    assert(res@[i] == x);
                }
                if x == (row, col) && forced_for(path_views(paths@), x) {
                    assert(res@[res@.len() - 1] == x);
                }
                if x == (row, col) && before.contains(x) {
                    let i = choose|i: int| 0 <= i < before.len() && before[i] == x;
                    assert(before[i].0 < row || (before[i].0 == row && before[i].1 < col));
                }
            }
            col = col + 1;
        }
        row = row + 1;
    }
    res
}

/// The grid of forced cells: each cell holds the last color for which it is forced.
pub fn generate_forced_grid(paths: &Vec<Vec<Path>>, dims: &(usize, usize)) -> (r: Grid)
    requires
        dims.0 > 0,
        dims.1 > 0,
    ensures
        r.wf(),
        r.rows() == dims.0,
        r.cols() == dims.1,
        forall|x: Coord| in_bounds(x, dims.0 as int, dims.1 as int) ==> #[trigger] r.cell(x) == forced_owner(cands(paths@), x, paths@.len() as int),
{
    let ghost s = cands(paths@);
    let mut grid = Grid::new(dims);
    let mut c: usize = 0;
    while c < paths.len()
        invariant
            s == cands(paths@),
            c <= paths@.len(),
            grid.wf(),
            grid.rows() == dims.0,
            grid.cols() == dims.1,
            forall|x: Coord| in_bounds(x, dims.0 as int, dims.1 as int) ==> #[trigger] grid.cell(x) == forced_owner(s, x, c as int),
        decreases paths@.len() - c,
    {
        let coords = get_forced_coord(&paths[c], dims);
        assert(s[c as int] == path_views(paths@[c as int]@));
        let mut j: usize = 0;
        while j < coords.len()
            invariant
                s == cands(paths@),
                c < paths@.len(),
                j <= coords@.len(),
                grid.wf(),
                grid.rows() == dims.0,
                grid.cols() == dims.1,
                forall|i: int| 0 <= i < coords@.len() ==> in_bounds(#[trigger] coords@[i], dims.0 as int, dims.1 as int),
                forall|x: Coord| in_bounds(x, dims.0 as int, dims.1 as int) ==> #[trigger] grid.cell(x) == if (exists|i: int| 0 <= i < j && coords@[i] == x) {
                    Some(c)
                } else {
                    forced_owner(s, x, c as int)
                },
            decreases coords@.len() - j,
        {
            let ghost g0 = grid;
            grid.set(&coords[j], Some(c));
            assert forall|x: Coord| in_bounds(x, dims.0 as int, dims.1 as int) implies #[trigger] grid.cell(x) == if (exists|i: int| 0 <= i < j + 1 && coords@[i] == x) {
                Some(c)
            } else {
                forced_owner(s, x, c as int)
            } by {
                if x == coords@[j as int] {
                    assert(0 <= j < j + 1 && coords@[j as int] == x);
                } else {
                    assert(grid.cell(x) == g0.cell(x));
                    if exists|i: int| 0 <= i < j + 1 && coords@[i] == x {
                        let i = choose|i: int| 0 <= i < j + 1 && coords@[i] == x;
                        assert(0 <= i < j && coords@[i] == x);
                    }
                }
            }
            j = j + 1;
        }
        assert forall|x: Coord| in_bounds(x, dims.0 as int, dims.1 as int) implies #[trigger] grid.cell(x) == forced_owner(s, x, c + 1) by {
            if coords@.contains(x) {
                let i = choose|i: int| 0 <= i < coords@.len() && coords@[i] == x;
                assert(0 <= i < j && coords@[i] == x);
            } else {
                assert(!(exists|i: int| 0 <= i < j && coords@[i] == x));
            }
        }
        c = c + 1;
    }
    grid
}

/// What the exclusive-region grid may hold at `x`: the color to which `x` is exclusive, or
/// nothing when it is exclusive to none.
pub open spec fn single_ok(s: Seq<Seq<Seq<Coord>>>, v: Option<Color>, x: Coord) -> bool {
    match v {
        Some(c) => c < s.len() && exclusive_to(s, c as int, x),
        None => forall|c: int| 0 <= c < s.len() ==> !#[trigger] exclusive_to(s, c, x),
    }
}

/// The color to which `x` is exclusive, if any.
fn single_owner(paths: &Vec<Vec<Path>>, x: &Coord) -> (r: Option<Color>)
    ensures
        single_ok(cands(paths@), r, *x),
{
    let ghost s = cands(paths@);
    let mut owner: Option<Color> = None;
    let mut contested = false;
    let mut c: usize = 0;
    while c < paths.len()
        invariant
            s == cands(paths@),
            c <= paths@.len(),
            !contested && owner is None ==> forall|d: int| 0 <= d < c ==> !touches(#[trigger] s[d], *x),
            !contested && owner is Some ==> {
                let o = owner.unwrap() as int;
                &&& o < c
                &&& touches(s[o], *x)
                &&& forall|d: int| 0 <= d < c && d != o ==> !touches(#[trigger] s[d], *x)
            },
            contested ==> exists|d1: int, d2: int| 0 <= d1 < c && 0 <= d2 < c && d1 != d2 && touches(#[trigger] s[d1], *x) && touches(#[trigger] s[d2], *x),
        decreases paths@.len() - c,
    {
        assert(s[c as int] == path_views(paths@[c as int]@));
        if touches_cell(&paths[c], x) {
            if !contested && owner.is_none() {
                owner = Some(c);
            } else if !contested {
                let ghost o = owner.unwrap() as int;
                assert(touches(s[o], *x) && touches(s[c as int], *x));
                contested = true;
            }
        }
        c = c + 1;
    }
    if contested {
        proof {
            let (d1, d2) = choose|d1: int, d2: int| 0 <= d1 < c && 0 <= d2 < c && d1 != d2 && touches(#[trigger] s[d1], *x) && touches(#[trigger] s[d2], *x);
            assert forall|e: int| 0 <= e < s.len() implies !#[trigger] exclusive_to(s, e, *x) by {
                if e == d1 {
                    assert(touches(s[d2], *x));
                } else {
                    assert(touches(s[d1], *x));
                }
            }
        }
        None
    } else {
        owner
    }
}

/// The grid of exclusive cells: each cell holds the one color whose candidates visit it, or
/// nothing when none or several do.
pub fn generate_single_grid(paths: &Vec<Vec<Path>>, dims: &(usize, usize)) -> (r: Grid)
    requires
        dims.0 > 0,
        dims.1 > 0,
    ensures
        r.wf(),
        r.rows() == dims.0,
        r.cols() == dims.1,
        forall|x: Coord| in_bounds(x, dims.0 as int, dims.1 as int) ==> single_ok(cands(paths@), #[trigger] r.cell(x), x),
{
    let ghost s = cands(paths@);
    let mut grid = Grid::new(dims);
    let (nb_rows, nb_cols) = *dims;
    let mut row: usize = 0;
    while row < nb_rows
        invariant
            s == cands(paths@),
            (nb_rows, nb_cols) == *dims,
            row <= nb_rows,
            grid.wf(),
            grid.rows() == dims.0,
            grid.cols() == dims.1,
            forall|x: Coord| in_bounds(x, dims.0 as int, dims.1 as int) && x.0 < row ==> single_ok(s, #[trigger] grid.cell(x), x),
        decreases nb_rows - row,
    {
        let mut col: usize = 0;
        while col < nb_cols
            invariant
                s == cands(paths@),
                (nb_rows, nb_cols) == *dims,
                row < nb_rows,
                col <= nb_cols,
                grid.wf(),
                grid.rows() == dims.0,
                grid.cols() == dims.1,
                forall|x: Coord| in_bounds(x, dims.0 as int, dims.1 as int) && (x.0 < row || (x.0 == row && x.1 < col)) ==> single_ok(s, #[trigger] grid.cell(x), x),
            decreases nb_cols - col,
        {
            let v = single_owner(paths, &(row, col));
            grid.set(&(row, col), v);
            col = col + 1;
        }
        row = row + 1;
    }
    grid
}

/// The cells of `grid` that hold `color`, in row-major order.
pub fn get_single_coords(grid: &Grid, color: &Color) -> (r: Vec<Coord>)
    requires
        grid.wf(),
    ensures
        forall|i: int| 0 <= i < r@.len() ==> in_bounds(#[trigger] r@[i], grid.rows(), grid.cols()),
        forall|x: Coord| in_bounds(x, grid.rows(), grid.cols()) ==> (r@.contains(x) <==> grid.cell(x) == Some(*color)),
        row_major_sorted(r@),
{
    let (nb_rows, nb_cols) = grid.get_dims();
    let mut res: Vec<Coord> = Vec::new();
    let mut row: usize = 0;
    while row < nb_rows
        invariant
            grid.wf(),
            row <= nb_rows,
            nb_rows == grid.rows(),
            nb_cols == grid.cols(),
            forall|i: int| 0 <= i < res@.len() ==> in_bounds(#[trigger] res@[i], grid.rows(), grid.cols()),
            forall|i: int| 0 <= i < res@.len() ==> (#[trigger] res@[i]).0 < row,
            row_major_sorted(res@),
            forall|x: Coord| in_bounds(x, grid.rows(), grid.cols()) && x.0 < row ==> (res@.contains(x) <==> grid.cell(x) == Some(*color)),
        decreases nb_rows - row,
    {
        let mut col: usize = 0;
        while col < nb_cols
            invariant
                grid.wf(),
                row < nb_rows,
                col <= nb_cols,
                nb_rows == grid.rows(),
                nb_cols == grid.cols(),
                forall|i: int| 0 <= i < res@.len() ==> in_bounds(#[trigger] res@[i], grid.rows(), grid.cols()),
                forall|i: int| 0 <= i < res@.len() ==> (#[trigger] res@[i]).0 < row || (res@[i].0 == row && res@[i].1 < col),
                row_major_sorted(res@),
                forall|x: Coord| in_bounds(x, grid.rows(), grid.cols()) && (x.0 < row || (x.0 == row && x.1 < col)) ==> (res@.contains(x) <==> grid.cell(x) == Some(*color)),
            decreases nb_cols - col,
        {
            let ghost before = res@;
            let v = grid.get(&(row, col));
            let hit = match v {
                Some(c) => c == *color,
                None => false,
            };
            if hit {
                res.push((row, col));
            }
            assert forall|x: Coord| in_bounds(x, grid.rows(), grid.cols()) && (x.0 < row || (x.0 == row && x.1 < col + 1)) implies (res@.contains(x) <==> grid.cell(x) == Some(*color)) by {
                if res@.contains(x) && x != (row, col) {
                    let i = choose|i: int| 0 <= i < res@.len() && res@[i] == x;
                    assert(before[i] == x);
                }
                if before.contains(x) {
                    let i = choose|i: int| 0 <= i < before.len() && before[i] == x;
                    assert(res@[i] == x);
                }
                if x == (row, col) && hit {
                    assert(res@[res@.len() - 1] == x);
                }
                if x == (row, col) && before.contains(x) {
                    let i = choose|i: int| 0 <= i < before.len() && before[i] == x;
                    assert(before[i].0 < row || (before[i].0 == row && before[i].1 < col));
                }
            }
            col = col + 1;
        }
        row = row + 1;
    }
    res
}

/// The paths of `list` whose flag in `keep` is set, in order.
fn select(list: &Vec<Path>, keep: &Vec<bool>, pred: Ghost<spec_fn(Seq<Coord>) -> bool>) -> (r: Vec<Path>)
    requires
        keep@.len() == list@.len(),
        forall|k: int| 0 <= k < list@.len() ==> keep@[k] == pred@(#[trigger] list@[k]@),
    ensures
        path_views(r@) == path_views(list@).filter(pred@),
{
    let mut res: Vec<Path> = Vec::new();
    let mut k: usize = 0;
    assert(path_views(list@).subrange(0, 0).filter(pred@) =~= Seq::<Seq<Coord>>::empty());
    assert(path_views(res@) =~= Seq::<Seq<Coord>>::empty());
    while k < list.len()
        invariant
            keep@.len() == list@.len(),
            forall|j: int| 0 <= j < list@.len() ==> keep@[j] == pred@(#[trigger] list@[j]@),
            k <= list@.len(),
            path_views(res@) == path_views(list@).subrange(0, k as int).filter(pred@),
        decreases list@.len() - k,
    {
        let ghost before = res@;
        if keep[k] {
            let p = copy_path(&list[k]);
            res.push(p);
            assert(path_views(res@) =~= path_views(before).push(list@[k as int]@));
        }
        proof {
            assert(path_views(list@).subrange(0, k + 1) =~= path_views(list@).subrange(0, k as int).push(list@[k as int]@));
            path_views(list@).subrange(0, k as int).lemma_filter_push(list@[k as int]@, pred@);
        }
        k = k + 1;
    }
    assert(path_views(list@).subrange(0, list@.len() as int) =~= path_views(list@));
    res
}

/// Whether every cell of `path` is free in `grid` or holds `color`.
fn fits_forced(path: &Path, grid: &Grid, color: Color) -> (r: bool)
    requires
        grid.wf(),
        forall|i: int| 0 <= i < path@.len() ==> in_bounds(#[trigger] path@[i], grid.rows(), grid.cols()),
    ensures
        r == forall|i: int| 0 <= i < path@.len() ==> match #[trigger] grid.cell(path@[i]) {
            None => true,
            Some(o) => o == color,
        },
{
    let mut i: usize = 0;
    while i < path.len()
        invariant
            grid.wf(),
            forall|j: int| 0 <= j < path@.len() ==> in_bounds(#[trigger] path@[j], grid.rows(), grid.cols()),
            i <= path@.len(),
            forall|j: int| 0 <= j < i ==> match #[trigger] grid.cell(path@[j]) {
                None => true,
                Some(o) => o == color,
            },
        decreases path@.len() - i,
    {
        assert(in_bounds(path@[i as int], grid.rows(), grid.cols()));
        match grid.get(&path[i]) {
            Some(o) => {
                if o != color {
                    return false;
                }
            },
            None => {},
        }
        i = i + 1;
    }
    true
}

/// Drops each candidate that visits a cell forced for another color.
pub fn filter_paths_forced(paths: &mut Vec<Vec<Path>>, dims: &(usize, usize))
    requires
        dims.0 > 0,
        dims.1 > 0,
        cands_wf(cands(old(paths)@), dims.0 as int, dims.1 as int),
    ensures
        cands(final(paths)@) == filter_forced(cands(old(paths)@)),
{
    let ghost s = cands(paths@);
    let grid = generate_forced_grid(paths, dims);
    let nb_colors = paths.len();
    let mut c: usize = 0;
    while c < nb_colors
        invariant
            nb_colors == s.len(),
            paths@.len() == nb_colors,
            c <= nb_colors,
            grid.wf(),
            grid.rows() == dims.0,
            grid.cols() == dims.1,
            cands_wf(s, dims.0 as int, dims.1 as int),
            forall|x: Coord| in_bounds(x, dims.0 as int, dims.1 as int) ==> #[trigger] grid.cell(x) == forced_owner(s, x, s.len() as int),
            forall|d: int| 0 <= d < c ==> #[trigger] cands(paths@)[d] == filter_forced(s)[d],
            forall|d: int| c <= d < nb_colors ==> #[trigger] cands(paths@)[d] == s[d],
        decreases nb_colors - c,
    {
        let ghost cc = c as int;
        let ghost pred = |p: Seq<Coord>| keep_forced(s, cc, p);
        assert(cands(paths@)[cc] == s[cc]);
        assert(path_views(paths@[cc]@) == s[cc]);
        let mut keep: Vec<bool> = Vec::new();
        let mut k: usize = 0;
        while k < paths[c].len()
            invariant
                cc == c as int,
                pred == (|p: Seq<Coord>| keep_forced(s, cc, p)),
                nb_colors == s.len(),
                paths@.len() == nb_colors,
                c < nb_colors,
                grid.wf(),
                grid.rows() == dims.0,
                grid.cols() == dims.1,
                cands_wf(s, dims.0 as int, dims.1 as int),
                forall|x: Coord| in_bounds(x, dims.0 as int, dims.1 as int) ==> #[trigger] grid.cell(x) == forced_owner(s, x, s.len() as int),
                path_views(paths@[cc]@) == s[cc],
                k <= paths@[cc]@.len(),
                keep@.len() == k,
                forall|j: int| 0 <= j < k ==> keep@[j] == pred(#[trigger] paths@[cc]@[j]@),
            decreases paths@[cc]@.len() - k,
        {
            let p = &paths[c][k];
            assert(s[cc][k as int] == p@);
            assert(0 <= cc < s.len() && 0 <= k < s[cc].len());
            assert forall|i: int| 0 <= i < p@.len() implies in_bounds(#[trigger] p@[i], grid.rows(), grid.cols()) by {
                assert(s[cc][k as int][i] == p@[i]);
                assert(in_bounds(s[cc][k as int][i], dims.0 as int, dims.1 as int));
            }
            let b = fits_forced(p, &grid, c);
            assert(b == pred(p@)) by {
                if b {
                    assert forall|i: int| 0 <= i < p@.len() implies match forced_owner(s, #[trigger] p@[i], s.len() as int) {
                        None => true,
                        Some(o) => o == cc,
                    } by {
                        assert(grid.cell(p@[i]) == forced_owner(s, p@[i], s.len() as int));
                    }
                } else {
                    let i = choose|i: int| 0 <= i < p@.len() && !match #[trigger] grid.cell(p@[i]) {
                        None => true,
                        Some(o) => o == c,
                    };
                    assert(grid.cell(p@[i]) == forced_owner(s, p@[i], s.len() as int));
                }
            }
            keep.push(b);
            k = k + 1;
        }
        let kept = select(&paths[c], &keep, Ghost(pred));
        let ghost before = paths@;
        paths.set(c, kept);
        proof {
            assert(cands(paths@)[cc] == filter_forced(s)[cc]);
            assert forall|d: int| 0 <= d < nb_colors && d != cc implies #[trigger] cands(paths@)[d] == cands(before)[d] by {
                assert(paths@[d] == before[d]);
            }
        }
        c = c + 1;
    }
    assert(cands(paths@) =~= filter_forced(s));
}

/// Whether `path` visits every cell of `cells`.
fn covers_all(path: &Path, cells: &Vec<Coord>) -> (r: bool)
    ensures
        r == forall|i: int| 0 <= i < cells@.len() ==> path@.contains(#[trigger] cells@[i]),
{
    let mut i: usize = 0;
    while i < cells.len()
        invariant
            i <= cells@.len(),
            forall|j: int| 0 <= j < i ==> path@.contains(#[trigger] cells@[j]),
        decreases cells@.len() - i,
    {
        if !path_contains(path, &cells[i]) {
            return false;
        }
        i = i + 1;
    }
    true
}

/// Drops each candidate that misses a cell exclusive to its color.
pub fn filter_paths_single(paths: &mut Vec<Vec<Path>>, dims: &(usize, usize))
    requires
        dims.0 > 0,
        dims.1 > 0,
    ensures
        cands(final(paths)@) == filter_single(cands(old(paths)@), dims.0 as int, dims.1 as int),
{
    let ghost s = cands(paths@);
    let ghost rows = dims.0 as int;
    let ghost cols = dims.1 as int;
    let grid = generate_single_grid(paths, dims);
    let nb_colors = paths.len();
    let mut c: usize = 0;
    while c < nb_colors
        invariant
            nb_colors == s.len(),
            paths@.len() == nb_colors,
            c <= nb_colors,
            rows == dims.0,
            cols == dims.1,
            grid.wf(),
            grid.rows() == dims.0,
            grid.cols() == dims.1,
            forall|x: Coord| in_bounds(x, rows, cols) ==> single_ok(s, #[trigger] grid.cell(x), x),
            forall|d: int| 0 <= d < c ==> #[trigger] cands(paths@)[d] == filter_single(s, rows, cols)[d],
            forall|d: int| c <= d < nb_colors ==> #[trigger] cands(paths@)[d] == s[d],
        decreases nb_colors - c,
    {
        let ghost cc = c as int;
        let ghost pred = |p: Seq<Coord>| keep_single(s, cc, p, rows, cols);
        assert(cands(paths@)[cc] == s[cc]);
        assert(path_views(paths@[cc]@) == s[cc]);
        let singles = get_single_coords(&grid, &c);
        assert forall|x: Coord| in_bounds(x, rows, cols) implies (singles@.contains(x) <==> #[trigger] exclusive_to(s, cc, x)) by {
            assert(single_ok(s, grid.cell(x), x));
            if exclusive_to(s, cc, x) {
                if let Some(o) = grid.cell(x) {
                    if o != c {
                        assert(touches(s[cc], x));
                    }
                }
            }
        }
        let mut keep: Vec<bool> = Vec::new();
        let mut k: usize = 0;
        while k < paths[c].len()
            invariant
                cc == c as int,
                rows == dims.0,
                cols == dims.1,
                pred == (|p: Seq<Coord>| keep_single(s, cc, p, rows, cols)),
                nb_colors == s.len(),
                paths@.len() == nb_colors,
                c < nb_colors,
                path_views(paths@[cc]@) == s[cc],
                forall|i: int| 0 <= i < singles@.len() ==> in_bounds(#[trigger] singles@[i], rows, cols),
                forall|x: Coord| in_bounds(x, rows, cols) ==> (singles@.contains(x) <==> #[trigger] exclusive_to(s, cc, x)),
                k <= paths@[cc]@.len(),
                keep@.len() == k,
                forall|j: int| 0 <= j < k ==> keep@[j] == pred(#[trigger] paths@[cc]@[j]@),
            decreases paths@[cc]@.len() - k,
        {
            let p = &paths[c][k];
            let b = covers_all(p, &singles);
            assert(b == pred(p@)) by {
                if b {
                    assert forall|x: Coord| in_bounds(x, rows, cols) && #[trigger] exclusive_to(s, cc, x) implies p@.contains(x) by {
                        assert(singles@.contains(x));
                        let i = choose|i: int| 0 <= i < singles@.len() && singles@[i] == x;
                        assert(p@.contains(singles@[i]));
                    }
                } else {
                    let i = choose|i: int| 0 <= i < singles@.len() && !p@.contains(#[trigger] singles@[i]);
                    assert(in_bounds(singles@[i], rows, cols));
                    assert(singles@.contains(singles@[i]));
                    assert(exclusive_to(s, cc, singles@[i]));
                    assert(!keep_single(s, cc, p@, rows, cols));
                }
            }
            keep.push(b);
            k = k + 1;
        }
        let kept = select(&paths[c], &keep, Ghost(pred));
        let ghost before = paths@;
        paths.set(c, kept);
        proof {
            assert(cands(paths@)[cc] == filter_single(s, rows, cols)[cc]);
            assert forall|d: int| 0 <= d < nb_colors && d != cc implies #[trigger] cands(paths@)[d] == cands(before)[d] by {
                assert(paths@[d] == before[d]);
            }
        }
        c = c + 1;
    }
    assert(cands(paths@) =~= filter_single(s, rows, cols));
}

/// Whether the candidates, all colors together, visit every cell of the grid.
pub fn check_reachable(paths: &Vec<Vec<Path>>, dims: &(usize, usize)) -> (r: bool)
    ensures
        r == covered(cands(paths@), dims.0 as int, dims.1 as int),
{
    let ghost s = cands(paths@);
    let (nb_rows, nb_cols) = *dims;
    let mut row: usize = 0;
    while row < nb_rows
        invariant
            s == cands(paths@),
            (nb_rows, nb_cols) == *dims,
            row <= nb_rows,
            forall|x: Coord| in_bounds(x, dims.0 as int, dims.1 as int) && x.0 < row ==> exists|c: int| 0 <= c < s.len() && #[trigger] touches(s[c], x),
        decreases nb_rows - row,
    {
        let mut col: usize = 0;
        while col < nb_cols
            invariant
                s == cands(paths@),
                (nb_rows, nb_cols) == *dims,
                row < nb_rows,
                col <= nb_cols,
                forall|x: Coord| in_bounds(x, dims.0 as int, dims.1 as int) && (x.0 < row || (x.0 == row && x.1 < col)) ==> exists|c: int| 0 <= c < s.len() && #[trigger] touches(s[c], x),
            decreases nb_cols - col,
        {
            let x = (row, col);
            let mut found = false;
            let mut c: usize = 0;
            while c < paths.len()
                invariant
                    s == cands(paths@),
                    c <= paths@.len(),
                    found ==> exists|d: int| 0 <= d < s.len() && #[trigger] touches(s[d], x),
                    !found ==> forall|d: int| 0 <= d < c ==> !#[trigger] touches(s[d], x),
                decreases paths@.len() - c,
            {
                assert(s[c as int] == path_views(paths@[c as int]@));
                if touches_cell(&paths[c], &x) {
                    found = true;
                }
                c = c + 1;
            }
            if !found {
                assert(in_bounds(x, dims.0 as int, dims.1 as int));
                return false;
            }
            col = col + 1;
        }
        row = row + 1;
    }
    true
}

/// Every cell of the grid is exclusive to some color: visited by candidates of that color and
/// of no other.
pub open spec fn all_exclusive(s: Seq<Seq<Seq<Coord>>>, rows: int, cols: int) -> bool {
    forall|x: Coord| in_bounds(x, rows, cols) ==> exists|c: int| 0 <= c < s.len() && #[trigger] exclusive_to(s, c, x)
}

/// Whether every cell of the grid is visited by the candidates of exactly one color.
pub fn check_exclusive(paths: &Vec<Vec<Path>>, dims: &(usize, usize)) -> (r: bool)
    ensures
        r == all_exclusive(cands(paths@), dims.0 as int, dims.1 as int),
{
    let ghost s = cands(paths@);
    let (nb_rows, nb_cols) = *dims;
    let mut row: usize = 0;
    while row < nb_rows
        invariant
            s == cands(paths@),
            (nb_rows, nb_cols) == *dims,
            row <= nb_rows,
            forall|x: Coord| in_bounds(x, dims.0 as int, dims.1 as int) && x.0 < row ==> exists|c: int| 0 <= c < s.len() && #[trigger] exclusive_to(s, c, x),
        decreases nb_rows - row,
    {
        let mut col: usize = 0;
        while col < nb_cols
            invariant
                s == cands(paths@),
                (nb_rows, nb_cols) == *dims,
                row < nb_rows,
                col <= nb_cols,
                forall|x: Coord| in_bounds(x, dims.0 as int, dims.1 as int) && (x.0 < row || (x.0 == row && x.1 < col)) ==> exists|c: int| 0 <= c < s.len() && #[trigger] exclusive_to(s, c, x),
            decreases nb_cols - col,
        {
            let x = (row, col);
            match single_owner(paths, &x) {
                Some(c) => {
                    assert(exclusive_to(s, c as int, x));
                },
                None => {
                    assert(in_bounds(x, dims.0 as int, dims.1 as int));
                    return false;
                },
            }
            col = col + 1;
        }
        row = row + 1;
    }
    true
}

/// Whether every color has exactly one candidate left.
pub fn is_solved(paths: &Vec<Vec<Path>>) -> (r: bool)
    ensures
        r == forall|c: int| 0 <= c < paths@.len() ==> (#[trigger] cands(paths@)[c]).len() == 1,
{
    let mut c: usize = 0;
    while c < paths.len()
        invariant
            c <= paths@.len(),
            forall|d: int| 0 <= d < c ==> (#[trigger] cands(paths@)[d]).len() == 1,
        decreases paths@.len() - c,
    {
        assert(cands(paths@)[c as int].len() == paths@[c as int]@.len());
        if paths[c].len() != 1 {
            return false;
        }
        c = c + 1;
    }
    true
}

/// Whether some color has no candidate left.
pub fn is_impossible(paths: &Vec<Vec<Path>>) -> (r: bool)
    ensures
        r == exists|c: int| 0 <= c < paths@.len() && (#[trigger] cands(paths@)[c]).len() == 0,
{
    let mut c: usize = 0;
    while c < paths.len()
        invariant
            c <= paths@.len(),
            forall|d: int| 0 <= d < c ==> (#[trigger] cands(paths@)[d]).len() != 0,
        decreases paths@.len() - c,
    {
        assert(cands(paths@)[c as int].len() == paths@[c as int]@.len());
        if paths[c].len() == 0 {
            return true;
        }
        c = c + 1;
    }
    false
}

} // verus!
