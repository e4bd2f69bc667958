use vstd::prelude::*;
use vstd::set_lib::{lemma_int_range, lemma_len_subset, set_int_range};

use crate::grid::{in_bounds, Grid};
use crate::grid::grid_points;
use crate::point::{endpoints_valid, find_other_point, first_partner, is_partner, lemma_count_two, lemma_first_partner, Color, Coord, Point};

verus! {

/// A sequence of cells, first to last.
pub type Path = Vec<Coord>;

/// Whether `a` and `b` are orthogonal neighbors (Manhattan distance one).
pub open spec fn adjacent(a: Coord, b: Coord) -> bool {
    ||| (a.0 == b.0 + 1 || b.0 == a.0 + 1) && a.1 == b.1
    ||| (a.1 == b.1 + 1 || b.1 == a.1 + 1) && a.0 == b.0
}

/// A simple walk: every cell in bounds, no cell twice, consecutive cells adjacent.
pub open spec fn is_walk(p: Seq<Coord>, rows: int, cols: int) -> bool {
    &&& forall|i: int| 0 <= i < p.len() ==> in_bounds(#[trigger] p[i], rows, cols)
    &&& p.no_duplicates()
    &&& forall|i: int| 0 <= i < p.len() - 1 ==> adjacent(#[trigger] p[i], p[i + 1])
}

/// Whether the cells of `p` from index `from` up to, and without, the last one are empty in `g`.
pub open spec fn empty_between(p: Seq<Coord>, g: Grid, from: int) -> bool {
    forall|i: int| from <= i < p.len() - 1 ==> (#[trigger] g.cell(p[i])) is None
}

/// A path of a flow from `begin` to `end` through the empty cells of `g`.
pub open spec fn is_flow_path(p: Seq<Coord>, begin: Coord, end: Coord, g: Grid) -> bool {
    &&& p.len() >= 2
    &&& p[0] == begin
    &&& p.last() == end
    &&& is_walk(p, g.rows(), g.cols())
    &&& empty_between(p, g, 1)
}

/// The in-bounds neighbors of `c`: up, down, left, right, in that order.
pub open spec fn neighbor_seq(c: Coord, rows: int, cols: int) -> Seq<Coord> {
    let up: Seq<Coord> = if c.0 != 0 { seq![((c.0 - 1) as usize, c.1)] } else { seq![] };
    let down: Seq<Coord> = if c.0 != rows - 1 { seq![((c.0 + 1) as usize, c.1)] } else { seq![] };
    let left: Seq<Coord> = if c.1 != 0 { seq![(c.0, (c.1 - 1) as usize)] } else { seq![] };
    let right: Seq<Coord> = if c.1 != cols - 1 { seq![(c.0, (c.1 + 1) as usize)] } else { seq![] };
    up + down + left + right
}

/// Whether a walk `path` may step onto `n`: `n` is empty, not on the walk, and touches the walk
/// only at its last cell.
pub open spec fn admissible(path: Seq<Coord>, g: Grid, n: Coord) -> bool {
    let nbrs = neighbor_seq(n, g.rows(), g.cols());
    &&& g.cell(n) is None
    &&& !path.contains(n)
    &&& forall|i: int| 0 <= i < nbrs.len() ==> !path.contains(#[trigger] nbrs[i]) || nbrs[i] == path.last()
}

/// The admissible next steps of `path`, in neighbor order.
pub open spec fn smart_neighbors(path: Seq<Coord>, g: Grid) -> Seq<Coord> {
    neighbor_seq(path.last(), g.rows(), g.cols()).filter(|n: Coord| admissible(path, g, n))
}

pub proof fn lemma_neighbor_seq(c: Coord, rows: int, cols: int)
    requires
        in_bounds(c, rows, cols),
        rows <= usize::MAX,
        cols <= usize::MAX,
    ensures
        forall|i: int| 0 <= i < neighbor_seq(c, rows, cols).len() ==> {
            let n = #[trigger] neighbor_seq(c, rows, cols)[i];
            in_bounds(n, rows, cols) && adjacent(c, n)
        },
{
}

proof fn lemma_flat_index(a: Coord, b: Coord, rows: int, cols: int)
    requires
        in_bounds(a, rows, cols),
        in_bounds(b, rows, cols),
    ensures
        0 <= a.0 * cols + a.1 < rows * cols,
        a.0 * cols + a.1 == b.0 * cols + b.1 ==> a == b,
{
    let (ar, ac, br, bc) = (a.0 as int, a.1 as int, b.0 as int, b.1 as int);
    assert(0 <= ar * cols + ac < rows * cols) by (nonlinear_arith)
        requires 0 <= ar < rows, 0 <= ac < cols;
    if ar < br {
        assert(ar * cols + ac < br * cols + bc) by (nonlinear_arith)
            requires 0 <= ar < br, 0 <= ac < cols, 0 <= bc;
    } else if br < ar {
        assert(br * cols + bc < ar * cols + ac) by (nonlinear_arith)
            requires 0 <= br < ar, 0 <= bc < cols, 0 <= ac;
    }
}

/// A walk never has more cells than the grid.
pub proof fn lemma_walk_len(p: Seq<Coord>, rows: int, cols: int)
    requires
        forall|i: int| 0 <= i < p.len() ==> in_bounds(#[trigger] p[i], rows, cols),
        p.no_duplicates(),
        0 <= rows,
        0 <= cols,
    ensures
        p.len() <= rows * cols,
{
    if p.len() > 0 {
        let t = p.map_values(|c: Coord| c.0 * cols + c.1);
        assert forall|i: int, j: int| 0 <= i < t.len() && 0 <= j < t.len() && i != j implies t[i] != t[j] by {
            lemma_flat_index(p[i], p[j], rows, cols);
        }
        assert(t.no_duplicates());
        assert(t.len() == p.len());
        t.unique_seq_to_set();
        assert forall|x: int| t.to_set().contains(x) implies set_int_range(0, rows * cols).contains(x) by {
            let i = choose|i: int| 0 <= i < t.len() && t[i] == x;
            lemma_flat_index(p[i], p[i], rows, cols);
        }
        lemma_flat_index(p[0], p[0], rows, cols);
        lemma_int_range(0, rows * cols);
        lemma_len_subset(t.to_set(), set_int_range(0, rows * cols));
        assert(t.to_set().len() <= rows * cols);
    } else {
        assert(0 <= rows * cols) by (nonlinear_arith)
            requires 0 <= rows, 0 <= cols;
    }
}

/// Whether `coord` and `goal` are orthogonal neighbors.
pub fn has_arrived(coord: &Coord, goal: &Coord) -> (r: bool)
    ensures
        r == adjacent(*coord, *goal),
{
    let dr: usize = if coord.0 >= goal.0 { coord.0 - goal.0 } else { goal.0 - coord.0 };
    let dc: usize = if coord.1 >= goal.1 { coord.1 - goal.1 } else { goal.1 - coord.1 };
    (dr == 1 && dc == 0) || (dr == 0 && dc == 1)
}

/// The in-bounds neighbors of `coord`: up, down, left, right.
pub fn get_neighbors(coord: &Coord, grid: &Grid) -> (r: Vec<Coord>)
    requires
        grid.wf(),
        in_bounds(*coord, grid.rows(), grid.cols()),
    ensures
        r@ == neighbor_seq(*coord, grid.rows(), grid.cols()),
{
    let (nb_rows, nb_cols) = grid.get_dims();
    let (row, col) = *coord;
    let mut res: Vec<Coord> = Vec::new();
    if row != 0 {
        res.push((row - 1, col));
    }
    if row != nb_rows - 1 {
        res.push((row + 1, col));
    }
    if col != 0 {
        res.push((row, col - 1));
    }
    if col != nb_cols - 1 {
        res.push((row, col + 1));
    }
    assert(res@ =~= neighbor_seq(*coord, grid.rows(), grid.cols()));
    res
}

/// Whether `path` holds `c`.
pub fn path_contains(path: &Vec<Coord>, c: &Coord) -> (r: bool)
    ensures
        r == path@.contains(*c),
{
    let mut i: usize = 0;
    while i < path.len()
        invariant
            i <= path.len(),
            forall|j: int| 0 <= j < i ==> path@[j] != *c,
        decreases path.len() - i,
    {
        if path[i].0 == c.0 && path[i].1 == c.1 {
            assert(path@[i as int] == *c);
            return true;
        }
        i = i + 1;
    }
    false
}

/// The cells that `path` may step onto next, in neighbor order.
pub fn get_smart_neighbors(path: &Path, grid: &Grid) -> (r: Vec<Coord>)
    requires
        grid.wf(),
        path@.len() > 0,
        forall|i: int| 0 <= i < path@.len() ==> in_bounds(#[trigger] path@[i], grid.rows(), grid.cols()),
    ensures
        r@ == smart_neighbors(path@, *grid),
{
    let last = path[path.len() - 1];
    assert(in_bounds(path@[path@.len() - 1], grid.rows(), grid.cols()));
    let nbrs = get_neighbors(&last, grid);
    proof { lemma_neighbor_seq(last, grid.rows(), grid.cols()); }
    let ghost pred = |n: Coord| admissible(path@, *grid, n);
    let mut res: Vec<Coord> = Vec::new();
    let mut i: usize = 0;
    assert(nbrs@.subrange(0, 0).filter(pred) =~= Seq::<Coord>::empty());
    while i < nbrs.len()
        invariant
            grid.wf(),
            path@.len() > 0,
            last == path@.last(),
            nbrs@ == neighbor_seq(last, grid.rows(), grid.cols()),
            forall|j: int| 0 <= j < nbrs@.len() ==> in_bounds(#[trigger] nbrs@[j], grid.rows(), grid.cols()),
            pred == (|n: Coord| admissible(path@, *grid, n)),
            i <= nbrs.len(),
            res@ == nbrs@.subrange(0, i as int).filter(pred),
        decreases nbrs.len() - i,
    {
        let n = nbrs[i];
        assert(in_bounds(nbrs@[i as int], grid.rows(), grid.cols()));
        let mut ok = grid.get(&n).is_none() && !path_contains(path, &n);
        if ok {
            let around = get_neighbors(&n, grid);
            let mut j: usize = 0;
            while j < around.len()
                invariant
                    around@ == neighbor_seq(n, grid.rows(), grid.cols()),
                    j <= around.len(),
                    last == path@.last(),
                    ok == forall|k: int| 0 <= k < j ==> !path@.contains(#[trigger] around@[k]) || around@[k] == last,
                decreases around.len() - j,
            {
                let m = around[j];
                let good = !path_contains(path, &m) || (m.0 == last.0 && m.1 == last.1);
                if !good {
                    ok = false;
                }
                j = j + 1;
            }
        }
        assert(ok == admissible(path@, *grid, n));
        if ok {
            res.push(n);
        }
        proof {
            assert(nbrs@.subrange(0, i + 1) =~= nbrs@.subrange(0, i as int).push(n));
            nbrs@.subrange(0, i as int).lemma_filter_push(n, pred);
        }
        i = i + 1;
    }
    assert(nbrs@.subrange(0, nbrs@.len() as int) =~= nbrs@);
    res
}

/// Whether `p` is a walk from `path` on through empty cells, as the enumeration grows it.
pub open spec fn grows_walk(path: Seq<Coord>, g: Grid) -> bool {
    &&& path.len() > 0
    &&& is_walk(path, g.rows(), g.cols())
    &&& forall|i: int| 1 <= i < path.len() ==> (#[trigger] g.cell(path[i])) is None
}

/// The cell sequences of a list of paths.
pub open spec fn path_views(ps: Seq<Path>) -> Seq<Seq<Coord>> {
    ps.map_values(|p: Path| p@)
}

/// What the depth-first enumeration yields from `path` through the steps `ns`, taken in order:
/// for each step, the path completed at once when the step is next to `goal`, else everything
/// the enumeration yields from the extended path.
pub open spec fn dfs_steps(goal: Coord, path: Seq<Coord>, g: Grid, ns: Seq<Coord>) -> Seq<Seq<Coord>>
    decreases g.rows() * g.cols() - path.len(), ns.len(),
{
    if ns.len() == 0 {
        Seq::empty()
    } else {
        let next = path.push(ns.last());
        let tail = if adjacent(ns.last(), goal) {
            seq![next.push(goal)]
        } else if path.len() + 1 < g.rows() * g.cols() {
            dfs_steps(goal, next, g, smart_neighbors(next, g))
        } else {
            Seq::empty()
        };
        dfs_steps(goal, path, g, ns.drop_last()) + tail
    }
}

/// Every path the depth-first enumeration yields from `path` towards `goal`, in order.
pub open spec fn dfs(goal: Coord, path: Seq<Coord>, g: Grid) -> Seq<Seq<Coord>> {
    if adjacent(path.last(), goal) {
        seq![path.push(goal)]
    } else {
        dfs_steps(goal, path, g, smart_neighbors(path, g))
    }
}

/// A copy of `path`.
pub fn copy_path(path: &Path) -> (r: Path)
    ensures
        r@ == path@,
{
    let mut r: Path = Vec::new();
    let mut i: usize = 0;
    while i < path.len()
        invariant
            i <= path.len(),
            r@ == path@.subrange(0, i as int),
        decreases path.len() - i,
    {
        r.push(path[i]);
        assert(r@ =~= path@.subrange(0, i + 1));
        i = i + 1;
    }
    assert(r@ =~= path@);
    r
}

/// Every path that extends `path` to `goal` by admissible steps: depth first, one complete
/// path for each branch that reaches a neighbor of `goal`.
pub fn generate_paths(goal: &Coord, path: &Path, grid: &Grid) -> (r: Vec<Path>)
    requires
        grid.wf(),
        grows_walk(path@, *grid),
        in_bounds(*goal, grid.rows(), grid.cols()),
        grid.cell(*goal) is Some,
        path@[0] != *goal,
    ensures
        forall|k: int| 0 <= k < r@.len() ==> {
            let q = #[trigger] r@[k]@;
            &&& is_flow_path(q, path@[0], *goal, *grid)
            &&& q.len() > path@.len()
            &&& q.subrange(0, path@.len() as int) == path@
        },
        adjacent(path@.last(), *goal) ==> r@.len() == 1 && r@[0]@ == path@.push(*goal),
        path_views(r@) == dfs(*goal, path@, *grid),
    decreases grid.rows() * grid.cols() - path@.len(),
{
    let last = path[path.len() - 1];
    assert(!path@.contains(*goal));
    if has_arrived(&last, goal) {
        let mut res = copy_path(path);
        res.push(*goal);
        proof {
            assert forall|i: int, j: int| 0 <= i < res@.len() && 0 <= j < res@.len() && i != j implies res@[i] != res@[j] by {
                if i < path@.len() && j < path@.len() {
                    assert(path@.no_duplicates());
                }
            }
            assert(res@.subrange(0, path@.len() as int) =~= path@);
        }
        let mut all: Vec<Path> = Vec::new();
        all.push(res);
        assert(path_views(all@) =~= seq![path@.push(*goal)]);
        return all;
    }
    let mut all: Vec<Path> = Vec::new();
    let nbrs = get_smart_neighbors(path, grid);
    let ghost pred = |n: Coord| admissible(path@, *grid, n);
    proof {
        lemma_neighbor_seq(last, grid.rows(), grid.cols());
        let s = neighbor_seq(last, grid.rows(), grid.cols());
        assert forall|j: int| 0 <= j < nbrs@.len() implies {
            let n = #[trigger] nbrs@[j];
            in_bounds(n, grid.rows(), grid.cols()) && adjacent(last, n) && admissible(path@, *grid, n)
        } by {
            s.lemma_filter_pred(pred, j);
            s.lemma_filter_contains_rev(pred, nbrs@[j]);
            let x = choose|x: int| 0 <= x < s.len() && s[x] == nbrs@[j];
            assert(in_bounds(s[x], grid.rows(), grid.cols()));
        }
    }
    let mut i: usize = 0;
    assert(path_views(all@) =~= dfs_steps(*goal, path@, *grid, nbrs@.subrange(0, 0)));
    while i < nbrs.len()
        invariant
            nbrs@ == smart_neighbors(path@, *grid),
            path_views(all@) == dfs_steps(*goal, path@, *grid, nbrs@.subrange(0, i as int)),
            grid.wf(),
            grows_walk(path@, *grid),
            in_bounds(*goal, grid.rows(), grid.cols()),
            grid.cell(*goal) is Some,
            path@[0] != *goal,
            last == path@.last(),
            i <= nbrs.len(),
            forall|j: int| 0 <= j < nbrs@.len() ==> {
                let n = #[trigger] nbrs@[j];
                in_bounds(n, grid.rows(), grid.cols()) && adjacent(last, n) && admissible(path@, *grid, n)
            },
            forall|k: int| 0 <= k < all@.len() ==> {
                let q = #[trigger] all@[k]@;
                &&& is_flow_path(q, path@[0], *goal, *grid)
                &&& q.len() > path@.len()
                &&& q.subrange(0, path@.len() as int) == path@
            },
        decreases nbrs.len() - i,
    {
        let n = nbrs[i];
        assert(in_bounds(nbrs@[i as int], grid.rows(), grid.cols()) && admissible(path@, *grid, nbrs@[i as int]));
        let mut next = copy_path(path);
        next.push(n);
        proof {
            assert forall|a: int, b: int| 0 <= a < next@.len() && 0 <= b < next@.len() && a != b implies next@[a] != next@[b] by {
                if a < path@.len() && b < path@.len() {
                    assert(path@.no_duplicates());
                }
            }
            assert(grows_walk(next@, *grid));
            lemma_walk_len(next@, grid.rows(), grid.cols());
            let fin = next@.push(*goal);
            assert(!next@.contains(*goal)) by {
                if next@.contains(*goal) {
                    let a = choose|a: int| 0 <= a < next@.len() && next@[a] == *goal;
                }
            }
            assert forall|a: int, b: int| 0 <= a < fin.len() && 0 <= b < fin.len() && a != b implies fin[a] != fin[b] by {
                if a < next@.len() && b < next@.len() {
                    assert(next@.no_duplicates());
                } else if a < next@.len() {
                    assert(next@.contains(fin[a]));
                } else if b < next@.len() {
                    assert(next@.contains(fin[b]));
                }
            }
            assert forall|a: int| 0 <= a < fin.len() implies in_bounds(#[trigger] fin[a], grid.rows(), grid.cols()) by {
                if a < next@.len() {
                    assert(fin[a] == next@[a]);
                }
            }
            lemma_walk_len(fin, grid.rows(), grid.cols());
        }
        let mut sub = generate_paths(goal, &next, grid);
        let ghost before = all@;
        let ghost subv = sub@;
        all.append(&mut sub);
        proof {
            let ns = nbrs@.subrange(0, i + 1);
            assert(ns.drop_last() =~= nbrs@.subrange(0, i as int));
            assert(ns.last() == n);
            assert(path_views(all@) =~= path_views(before) + path_views(subv));
            assert(path_views(all@) == dfs_steps(*goal, path@, *grid, ns));
            assert forall|k: int| 0 <= k < all@.len() implies {
                let q = #[trigger] all@[k]@;
                &&& is_flow_path(q, path@[0], *goal, *grid)
                &&& q.len() > path@.len()
                &&& q.subrange(0, path@.len() as int) == path@
            } by {
                if k >= before.len() {
                    let q = subv[k - before.len()]@;
                    assert(all@[k] == subv[k - before.len()]);
                    assert(q.subrange(0, path@.len() as int) =~= q.subrange(0, next@.len() as int).subrange(0, path@.len() as int));
                } else {
                    assert(all@[k] == before[k]);
                }
            }
        }
        i = i + 1;
    }
    assert(nbrs@.subrange(0, nbrs@.len() as int) =~= nbrs@);
    all
}

/// The two endpoints of color `c`, as the enumeration finds them among the points `pts` of a
/// grid of `rows` rows and `cols` columns: the first point of the color, then the first other one.
pub open spec fn endpoints(pts: Seq<Point>, c: Color, rows: int, cols: int) -> Option<(Coord, Coord)> {
    match first_partner(pts, Point { coord: (rows as usize, cols as usize), color: c }) {
        None => None,
        Some(b) => match first_partner(pts, b) {
            None => None,
            Some(e) => Some((b.coord, e.coord)),
        },
    }
}

/// Every color below half the number of colored cells has a first point and a partner.
pub open spec fn pairs_found(grid: Grid) -> bool {
    let pts = grid_points(grid.cells(), grid.rows());
    forall|c: int| 0 <= c < pts.len() / 2 ==> (#[trigger] endpoints(pts, c as usize, grid.rows(), grid.cols())) is Some
}

/// Valid endpoints (colors dense from zero, each on exactly two cells) give every color its pair.
pub proof fn lemma_valid_endpoints_pair(grid: Grid)
    requires
        grid.wf(),
        endpoints_valid(grid_points(grid.cells(), grid.rows())),
    ensures
        pairs_found(grid),
{
    let pts = grid_points(grid.cells(), grid.rows());
    crate::grid::lemma_grid_points(grid, grid.rows());
    crate::grid::lemma_grid_points_sorted(grid, grid.rows());
    assert forall|c: int| 0 <= c < pts.len() / 2 implies (#[trigger] endpoints(pts, c as usize, grid.rows(), grid.cols())) is Some by {
        let cu = c as usize;
        lemma_count_two(pts, cu);
        let (i, j) = choose|i: int, j: int| 0 <= i < pts.len() && 0 <= j < pts.len() && i != j && #[trigger] pts[i].color == cu && #[trigger] pts[j].color == cu;
        let probe = Point { coord: (grid.rows() as usize, grid.cols() as usize), color: cu };
        lemma_first_partner(pts, probe);
        assert(in_bounds(pts[i].coord, grid.rows(), grid.cols()));
        assert(is_partner(pts[i], probe));
        let b = first_partner(pts, probe).unwrap();
        lemma_first_partner(pts, b);
        if pts[i].coord != b.coord {
            assert(is_partner(pts[i], b));
        } else {
            if i < j {
                assert(pts[j].coord != pts[i].coord);
            } else {
                assert(pts[j].coord != pts[i].coord);
            }
            assert(is_partner(pts[j], b));
        }
    }
}

/// For each color `c` below half the number of colored cells, every path from the first point
/// of `c` to its partner; `None` when some such color has no pair of points.
pub fn generate_all_paths(grid: &Grid) -> (r: Option<Vec<Vec<Path>>>)
    requires
        grid.wf(),
    ensures
        r is Some <==> pairs_found(*grid),
        ({
            let pts = grid_points(grid.cells(), grid.rows());
            let n = pts.len() / 2;
            match r {
                None => exists|c: int| 0 <= c < n && (#[trigger] endpoints(pts, c as usize, grid.rows(), grid.cols())) is None,
                Some(all) => {
                    &&& all@.len() == n
                    &&& forall|c: int| 0 <= c < n ==> (#[trigger] endpoints(pts, c as usize, grid.rows(), grid.cols())) is Some
                    &&& forall|c: int, k: int| 0 <= c < n && 0 <= k < all@[c]@.len() ==> {
                        let ends = endpoints(pts, c as usize, grid.rows(), grid.cols()).unwrap();
                        is_flow_path(#[trigger] all@[c]@[k]@, ends.0, ends.1, *grid)
                    }
                    &&& forall|c: int| 0 <= c < n ==> {
                        let ends = endpoints(pts, c as usize, grid.rows(), grid.cols()).unwrap();
                        path_views((#[trigger] all@[c])@) == dfs(ends.1, seq![ends.0], *grid)
                    }
                },
            }
        }),
{
    let (nb_rows, nb_cols) = grid.get_dims();
    let points = grid.find_points();
    let nb_colors = points.len() / 2;
    let ghost pts = points@;
    proof { crate::grid::lemma_grid_points(*grid, grid.rows()); }
    let mut res: Vec<Vec<Path>> = Vec::new();
    let mut i: usize = 0;
    while i < nb_colors
        invariant
            grid.wf(),
            nb_rows == grid.rows(),
            nb_cols == grid.cols(),
            pts == points@,
            pts == grid_points(grid.cells(), grid.rows()),
            nb_colors == pts.len() / 2,
            forall|j: int| 0 <= j < pts.len() ==> {
                let p = #[trigger] pts[j];
                in_bounds(p.coord, grid.rows(), grid.cols()) && grid.cell(p.coord) == Some(p.color)
            },
            i <= nb_colors,
            res@.len() == i,
            forall|c: int| 0 <= c < i ==> (#[trigger] endpoints(pts, c as usize, grid.rows(), grid.cols())) is Some,
            forall|c: int, k: int| 0 <= c < i && 0 <= k < res@[c]@.len() ==> {
                let ends = endpoints(pts, c as usize, grid.rows(), grid.cols()).unwrap();
                is_flow_path(#[trigger] res@[c]@[k]@, ends.0, ends.1, *grid)
            },
            forall|c: int| 0 <= c < i ==> {
                let ends = endpoints(pts, c as usize, grid.rows(), grid.cols()).unwrap();
                path_views((#[trigger] res@[c])@) == dfs(ends.1, seq![ends.0], *grid)
            },
        decreases nb_colors - i,
    {
        let probe = Point::new((nb_rows, nb_cols), i);
        let begin = match find_other_point(&points, &probe) {
            Some(p) => p,
            None => {
                assert(endpoints(pts, (i as int) as usize, grid.rows(), grid.cols()) is None);
                return None;
            },
        };
        let end = match find_other_point(&points, &begin) {
            Some(p) => p,
            None => {
                assert(endpoints(pts, (i as int) as usize, grid.rows(), grid.cols()) is None);
                return None;
            },
        };
        proof {
            crate::point::lemma_first_partner(pts, probe);
            crate::point::lemma_first_partner(pts, begin);
            let jb = choose|j: int| 0 <= j < pts.len() && pts[j] == begin;
            let je = choose|j: int| 0 <= j < pts.len() && pts[j] == end;
            assert(in_bounds(pts[jb].coord, grid.rows(), grid.cols()));
            assert(in_bounds(pts[je].coord, grid.rows(), grid.cols()));
        }
        let mut start: Path = Vec::new();
        start.push(begin.coord);
        assert(start@ =~= seq![begin.coord]);
        let found = generate_paths(&end.coord, &start, grid);
        let ghost before = res@;
        res.push(found);
        proof {
            assert(endpoints(pts, i, grid.rows(), grid.cols()) == Some((begin.coord, end.coord)));
            assert forall|c: int, k: int| 0 <= c < i + 1 && 0 <= k < res@[c]@.len() implies {
                let ends = endpoints(pts, c as usize, grid.rows(), grid.cols()).unwrap();
                is_flow_path(#[trigger] res@[c]@[k]@, ends.0, ends.1, *grid)
            } by {
                if c < i {
                    assert(res@[c] == before[c]);
                } else {
                    assert(res@[c]@[k]@ == found@[k]@);
                }
            }
            assert forall|c: int| 0 <= c < i + 1 implies {
                let ends = endpoints(pts, c as usize, grid.rows(), grid.cols()).unwrap();
                path_views((#[trigger] res@[c])@) == dfs(ends.1, seq![ends.0], *grid)
            } by {
                if c < i {
                    assert(res@[c] == before[c]);
                }
            }
        }
        i = i + 1;
    }
    Some(res)
}

} // verus!
