use vstd::prelude::*;

verus! {

/// A cell position: (row, column).
pub type Coord = (usize, usize);

/// A flow's identifier; colors are dense and zero-based.
pub type Color = usize;

/// A colored cell of a grid.
#[derive(Clone, Copy, Debug, PartialEq, Eq)]
pub struct Point {
    pub coord: Coord,
    pub color: Color,
}

impl Point {
    pub fn new(coord: Coord, color: Color) -> (r: Self)
        ensures
            r.coord == coord,
            r.color == color,
    {
        Self { coord, color }
    }
}

/// Whether `q` is another point of the color of `p`: same color, other coordinate.
pub open spec fn is_partner(q: Point, p: Point) -> bool {
    q.coord != p.coord && q.color == p.color
}

/// The first point of `pts` that is a partner of `p`, if any.
pub open spec fn first_partner(pts: Seq<Point>, p: Point) -> Option<Point>
    decreases pts.len(),
{
    if pts.len() == 0 {
        None
    } else if is_partner(pts[0], p) {
        Some(pts[0])
    } else {
        first_partner(pts.drop_first(), p)
    }
}

pub proof fn lemma_first_partner(pts: Seq<Point>, p: Point)
    ensures
        first_partner(pts, p) is None <==> (forall|i: int| 0 <= i < pts.len() ==> !is_partner(#[trigger] pts[i], p)),
        first_partner(pts, p) matches Some(q) ==> pts.contains(q) && is_partner(q, p),
    decreases pts.len(),
{
    if pts.len() > 0 {
        lemma_first_partner(pts.drop_first(), p);
        if !is_partner(pts[0], p) {
            assert forall|i: int| 0 <= i < pts.len() && !is_partner(pts[i], p) && i > 0 implies !is_partner(pts.drop_first()[i - 1], p) by {}
            if first_partner(pts, p) is None {
                assert forall|i: int| 0 <= i < pts.len() implies !is_partner(#[trigger] pts[i], p) by {
                    if i > 0 {
                        assert(pts[i] == pts.drop_first()[i - 1]);
                    }
                }
            }
            if let Some(q) = first_partner(pts, p) {
                let j = choose|j: int| 0 <= j < pts.drop_first().len() && pts.drop_first()[j] == q;
                assert(pts[j + 1] == q);
            }
        }
    }
}

/// Returns the first point of `points` that has the color of `point` at another coordinate,
/// or `None` when the color has no second point.
pub fn find_other_point(points: &Vec<Point>, point: &Point) -> (r: Option<Point>)
    ensures
        r == first_partner(points@, *point),
{
    let mut i: usize = 0;
    assert(points@.subrange(0, points.len() as int) =~= points@);
    while i < points.len()
        invariant
            i <= points.len(),
            first_partner(points@, *point) == first_partner(points@.subrange(i as int, points.len() as int), *point),
        decreases points.len() - i,
    {
        let p = points[i];
        let ghost rest = points@.subrange(i as int, points.len() as int);
        assert(rest.drop_first() =~= points@.subrange(i + 1, points.len() as int));
        if (p.coord.0 != point.coord.0 || p.coord.1 != point.coord.1) && p.color == point.color {
            return Some(p);
        }
        i = i + 1;
    }
    None
}

/// How many points of `pts` have color `c`.
pub open spec fn color_count(pts: Seq<Point>, c: Color) -> nat {
    pts.filter(|p: Point| p.color == c).len()
}

/// The points describe a puzzle: an even number of them, colors dense from zero, each color
/// on exactly two points.
pub open spec fn endpoints_valid(pts: Seq<Point>) -> bool {
    &&& pts.len() % 2 == 0
    &&& forall|i: int| 0 <= i < pts.len() ==> (#[trigger] pts[i]).color < pts.len() / 2
    &&& forall|c: int| 0 <= c < pts.len() / 2 ==> #[trigger] color_count(pts, c as usize) == 2
}

proof fn lemma_count_at_most_one(pts: Seq<Point>, c: Color)
    requires
        forall|i: int, j: int| 0 <= i < pts.len() && 0 <= j < pts.len() && #[trigger] pts[i].color == c && #[trigger] pts[j].color == c ==> i == j,
    ensures
        color_count(pts, c) <= 1,
    decreases pts.len(),
{
    let f = |p: Point| p.color == c;
    if pts.len() > 0 {
        let d = pts.drop_last();
        assert forall|i: int, j: int| 0 <= i < d.len() && 0 <= j < d.len() && #[trigger] d[i].color == c && #[trigger] d[j].color == c implies i == j by {
            assert(pts[i] == d[i] && pts[j] == d[j]);
        }
        lemma_count_at_most_one(d, c);
        assert(pts =~= d.push(pts.last()));
        d.lemma_filter_push(pts.last(), f);
        if f(pts.last()) {
            if d.filter(f).len() == 1 {
                d.lemma_filter_pred(f, 0);
                d.lemma_filter_contains_rev(f, d.filter(f)[0]);
                let i = choose|i: int| 0 <= i < d.len() && d[i] == d.filter(f)[0];
                assert(pts[i].color == c && pts[pts.len() - 1].color == c);
            }
        }
    } else {
        assert(pts.filter(f) =~= Seq::<Point>::empty()) by {
            reveal(Seq::filter);
        }
    }
}

/// A color counted twice sits on two points of the sequence.
pub proof fn lemma_count_two(pts: Seq<Point>, c: Color)
    requires
        color_count(pts, c) == 2,
    ensures
        exists|i: int, j: int| 0 <= i < pts.len() && 0 <= j < pts.len() && i != j && #[trigger] pts[i].color == c && #[trigger] pts[j].color == c,
{
    if !exists|i: int, j: int| 0 <= i < pts.len() && 0 <= j < pts.len() && i != j && #[trigger] pts[i].color == c && #[trigger] pts[j].color == c {
        lemma_count_at_most_one(pts, c);
    }
}

/// The number of points of color `c`.
pub fn count_color(points: &Vec<Point>, c: Color) -> (r: usize)
    ensures
        r == color_count(points@, c),
{
    let ghost f = |p: Point| p.color == c;
    let mut n: usize = 0;
    let mut i: usize = 0;
    assert(points@.subrange(0, 0).filter(f) =~= Seq::<Point>::empty());
    while i < points.len()
        invariant
            f == (|p: Point| p.color == c),
            i <= points@.len(),
            n == points@.subrange(0, i as int).filter(f).len(),
            n <= i,
        decreases points@.len() - i,
    {
        proof {
            assert(points@.subrange(0, i + 1) =~= points@.subrange(0, i as int).push(points@[i as int]));
            points@.subrange(0, i as int).lemma_filter_push(points@[i as int], f);
        }
        if points[i].color == c {
            n = n + 1;
        }
        i = i + 1;
    }
    assert(points@.subrange(0, points@.len() as int) =~= points@);
    n
}

/// Whether the points of a grid describe a puzzle: colors dense from zero, each on exactly
/// two points.
pub fn check_endpoints(points: &Vec<Point>) -> (r: bool)
    ensures
        r == endpoints_valid(points@),
{
    let len = points.len();
    if len % 2 != 0 {
        return false;
    }
    let nb_colors = len / 2;
    let mut i: usize = 0;
    while i < len
        invariant
            len == points@.len(),
            nb_colors == len / 2,
            i <= len,
            forall|j: int| 0 <= j < i ==> (#[trigger] points@[j]).color < nb_colors,
        decreases len - i,
    {
        if points[i].color >= nb_colors {
            return false;
        }
        i = i + 1;
    }
    let mut c: usize = 0;
    while c < nb_colors
        invariant
            len == points@.len(),
            nb_colors == len / 2,
            c <= nb_colors,
            forall|d: int| 0 <= d < c ==> #[trigger] color_count(points@, d as usize) == 2,
        decreases nb_colors - c,
    {
        if count_color(points, c) != 2 {
            assert(color_count(points@, (c as int) as usize) != 2);
            return false;
        }
        c = c + 1;
    }
    true
}

} // verus!
