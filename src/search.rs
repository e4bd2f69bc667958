use vstd::prelude::*;

use crate::grid::{grid_points, in_bounds, Grid};
use crate::paths::{copy_path, dfs, endpoints, generate_all_paths, is_flow_path, pairs_found, path_views, Path};
use crate::point::{Color, Coord};
use crate::propagate::{
    cands, cands_wf, check_reachable, covered, filter_forced, filter_paths_forced,
    filter_paths_single, filter_single, forced_for, forced_owner, is_impossible, is_solved, keep_forced, keep_single,
    all_exclusive, check_exclusive, exclusive_to, touches,
};

verus! {

/// The number of candidates, all colors together.
pub open spec fn total(s: Seq<Seq<Seq<Coord>>>) -> nat
    decreases s.len(),
{
    if s.len() == 0 {
        0
    } else {
        total(s.drop_last()) + s.last().len()
    }
}

/// `new` has the colors of `old`, each with no more candidates than before, all taken from
/// the candidates it had.
pub open spec fn shrinks(new: Seq<Seq<Seq<Coord>>>, old: Seq<Seq<Seq<Coord>>>) -> bool {
    &&& new.len() == old.len()
    &&& forall|c: int| 0 <= c < new.len() ==> (#[trigger] new[c]).len() <= old[c].len()
    &&& forall|c: int, k: int| 0 <= c < new.len() && 0 <= k < new[c].len() ==> old[c].contains(#[trigger] new[c][k])
}

/// Every color has exactly one candidate.
pub open spec fn all_single(s: Seq<Seq<Seq<Coord>>>) -> bool {
    forall|c: int| 0 <= c < s.len() ==> (#[trigger] s[c]).len() == 1
}

/// Shrinking is transitive: candidate lists only shrink across any sequence of steps.
pub proof fn lemma_shrinks_trans(a: Seq<Seq<Seq<Coord>>>, b: Seq<Seq<Seq<Coord>>>, c: Seq<Seq<Seq<Coord>>>)
    requires
        shrinks(a, b),
        shrinks(b, c),
    ensures
        shrinks(a, c),
{
    assert forall|i: int, k: int| 0 <= i < a.len() && 0 <= k < a[i].len() implies c[i].contains(#[trigger] a[i][k]) by {
        assert(b[i].contains(a[i][k]));
        let j = choose|j: int| 0 <= j < b[i].len() && b[i][j] == a[i][k];
        assert(c[i].contains(b[i][j]));
    }
}

proof fn lemma_shrinks_refl(a: Seq<Seq<Seq<Coord>>>)
    ensures
        shrinks(a, a),
{
    assert forall|i: int, k: int| 0 <= i < a.len() && 0 <= k < a[i].len() implies a[i].contains(#[trigger] a[i][k]) by {}
}

/// Candidates kept from well-formed candidates are well formed.
pub proof fn lemma_wf_shrinks(new: Seq<Seq<Seq<Coord>>>, old: Seq<Seq<Seq<Coord>>>, rows: int, cols: int)
    requires
        shrinks(new, old),
        cands_wf(old, rows, cols),
    ensures
        cands_wf(new, rows, cols),
{
    assert forall|c: int, k: int, i: int| 0 <= c < new.len() && 0 <= k < new[c].len() && 0 <= i < new[c][k].len() implies in_bounds(
        #[trigger] new[c][k][i],
        rows,
        cols,
    ) by {
        assert(old[c].contains(new[c][k]));
        let j = choose|j: int| 0 <= j < old[c].len() && old[c][j] == new[c][k];
        assert(in_bounds(old[c][j][i], rows, cols));
    }
}

proof fn lemma_filter_sub(s: Seq<Seq<Coord>>, f: spec_fn(Seq<Coord>) -> bool)
    ensures
        s.filter(f).len() <= s.len(),
        forall|k: int| 0 <= k < s.filter(f).len() ==> s.contains(#[trigger] s.filter(f)[k]),
{
    broadcast use vstd::seq_lib::group_filter_ensures;
    assert forall|k: int| 0 <= k < s.filter(f).len() implies s.contains(#[trigger] s.filter(f)[k]) by {
        s.lemma_filter_contains_rev(f, s.filter(f)[k]);
    }
}

proof fn lemma_filter_full(s: Seq<Seq<Coord>>, f: spec_fn(Seq<Coord>) -> bool)
    requires
        s.filter(f).len() == s.len(),
    ensures
        s.filter(f) == s,
    decreases s.len(),
{
    reveal(Seq::filter);
    if s.len() > 0 {
        lemma_filter_sub(s.drop_last(), f);
        if f(s.last()) {
            lemma_filter_full(s.drop_last(), f);
            assert(s =~= s.drop_last().push(s.last()));
        }
    } else {
        assert(s.filter(f) =~= s);
    }
}

/// The forced-cell filter only drops candidates.
pub proof fn lemma_filter_forced_shrinks(s: Seq<Seq<Seq<Coord>>>)
    ensures
        shrinks(filter_forced(s), s),
{
    assert forall|c: int| 0 <= c < s.len() implies (#[trigger] filter_forced(s)[c]).len() <= s[c].len() && (forall|k: int|
        0 <= k < filter_forced(s)[c].len() ==> s[c].contains(#[trigger] filter_forced(s)[c][k])) by {
        lemma_filter_sub(s[c], |p: Seq<Coord>| keep_forced(s, c, p));
    }
}

/// The exclusive-region filter only drops candidates.
pub proof fn lemma_filter_single_shrinks(s: Seq<Seq<Seq<Coord>>>, rows: int, cols: int)
    ensures
        shrinks(filter_single(s, rows, cols), s),
{
    assert forall|c: int| 0 <= c < s.len() implies (#[trigger] filter_single(s, rows, cols)[c]).len() <= s[c].len() && (forall|k: int|
        0 <= k < filter_single(s, rows, cols)[c].len() ==> s[c].contains(#[trigger] filter_single(s, rows, cols)[c][k])) by {
        lemma_filter_sub(s[c], |p: Seq<Coord>| keep_single(s, c, p, rows, cols));
    }
}

proof fn lemma_total_le(a: Seq<Seq<Seq<Coord>>>, b: Seq<Seq<Seq<Coord>>>)
    requires
        a.len() == b.len(),
        forall|c: int| 0 <= c < a.len() ==> (#[trigger] a[c]).len() <= b[c].len(),
    ensures
        total(a) <= total(b),
        (exists|c: int| 0 <= c < a.len() && (#[trigger] a[c]).len() < b[c].len()) ==> total(a) < total(b),
    decreases a.len(),
{
    if a.len() > 0 {
        let (da, db) = (a.drop_last(), b.drop_last());
        assert forall|c: int| 0 <= c < da.len() implies (#[trigger] da[c]).len() <= db[c].len() by {
            assert(da[c] == a[c] && db[c] == b[c]);
        }
        lemma_total_le(da, db);
        if exists|c: int| 0 <= c < a.len() && (#[trigger] a[c]).len() < b[c].len() {
            let c = choose|c: int| 0 <= c < a.len() && (#[trigger] a[c]).len() < b[c].len();
            if c < a.len() - 1 {
                assert(da[c] == a[c] && db[c] == b[c]);
            }
        }
    }
}

proof fn lemma_total_update(s: Seq<Seq<Seq<Coord>>>, i: int, x: Seq<Seq<Coord>>)
    requires
        0 <= i < s.len(),
    ensures
        total(s.update(i, x)) == total(s) - s[i].len() + x.len(),
    decreases s.len(),
{
    let u = s.update(i, x);
    if i == s.len() - 1 {
        assert(u.drop_last() =~= s.drop_last());
    } else {
        lemma_total_update(s.drop_last(), i, x);
        assert(u.drop_last() =~= s.drop_last().update(i, x));
    }
}

/// A copy of a candidate list.
fn copy_list(ps: &Vec<Path>) -> (r: Vec<Path>)
    ensures
        path_views(r@) == path_views(ps@),
{
    let mut r: Vec<Path> = Vec::new();
    let mut k: usize = 0;
    while k < ps.len()
        invariant
            k <= ps@.len(),
            path_views(r@) == path_views(ps@).subrange(0, k as int),
            r@.len() == k,
        decreases ps@.len() - k,
    {
        let ghost before = r@;
        r.push(copy_path(&ps[k]));
        assert forall|j: int| 0 <= j < k + 1 implies #[trigger] path_views(r@)[j] == path_views(ps@).subrange(0, k + 1)[j] by {
            if j < k {
                assert(r@[j] == before[j]);
                assert(path_views(before)[j] == path_views(ps@).subrange(0, k as int)[j]);
            }
        }
        assert(path_views(r@) =~= path_views(ps@).subrange(0, k + 1));
        k = k + 1;
    }
    assert(path_views(ps@).subrange(0, ps@.len() as int) =~= path_views(ps@));
    r
}

/// A working copy of the candidate universe, for the search to narrow.
pub fn get_paths_refs(paths: &Vec<Vec<Path>>) -> (r: Vec<Vec<Path>>)
    ensures
        cands(r@) == cands(paths@),
{
    let mut r: Vec<Vec<Path>> = Vec::new();
    let mut c: usize = 0;
    while c < paths.len()
        invariant
            c <= paths@.len(),
            cands(r@) == cands(paths@).subrange(0, c as int),
            r@.len() == c,
        decreases paths@.len() - c,
    {
        let ghost before = r@;
        r.push(copy_list(&paths[c]));
        assert forall|j: int| 0 <= j < c + 1 implies #[trigger] cands(r@)[j] == cands(paths@).subrange(0, c + 1)[j] by {
            if j < c {
                assert(r@[j] == before[j]);
                assert(cands(before)[j] == cands(paths@).subrange(0, c as int)[j]);
            }
        }
        assert(cands(r@) =~= cands(paths@).subrange(0, c + 1));
        c = c + 1;
    }
    assert(cands(paths@).subrange(0, paths@.len() as int) =~= cands(paths@));
    r
}

/// One propagation pass: the forced-cell filter, then the exclusive-region filter.
pub open spec fn pass(s: Seq<Seq<Seq<Coord>>>, rows: int, cols: int) -> Seq<Seq<Seq<Coord>>> {
    filter_single(filter_forced(s), rows, cols)
}

/// `a` and `b` have the same number of candidates for every color.
pub open spec fn same_lens(a: Seq<Seq<Seq<Coord>>>, b: Seq<Seq<Seq<Coord>>>) -> bool {
    forall|c: int| 0 <= c < a.len() ==> (#[trigger] a[c]).len() == b[c].len()
}

/// Some color has no candidate.
pub open spec fn has_empty(s: Seq<Seq<Seq<Coord>>>) -> bool {
    exists|c: int| 0 <= c < s.len() && (#[trigger] s[c]).len() == 0
}

/// The fixpoint loop: passes until every color has one candidate (`Some(true)`), some color
/// has none or a cell is visited by no candidate (`Some(false)`), or a pass changes nothing
/// (`None`); with the candidates it ends on.
pub open spec fn prune_loop(s: Seq<Seq<Seq<Coord>>>, rows: int, cols: int) -> (Option<bool>, Seq<Seq<Seq<Coord>>>)
    decreases total(s),
    via prune_loop_decreases
{
    let t = pass(s, rows, cols);
    if all_single(t) {
        (Some(all_exclusive(t, rows, cols)), t)
    } else if has_empty(t) || !covered(t, rows, cols) {
        (Some(false), t)
    } else if same_lens(t, s) {
        (None, t)
    } else {
        prune_loop(t, rows, cols)
    }
}

proof fn lemma_pass_shrinks(s: Seq<Seq<Seq<Coord>>>, rows: int, cols: int)
    ensures
        shrinks(pass(s, rows, cols), s),
        total(pass(s, rows, cols)) <= total(s),
        !same_lens(pass(s, rows, cols), s) ==> total(pass(s, rows, cols)) < total(s),
{
    let m = filter_forced(s);
    let t = pass(s, rows, cols);
    lemma_filter_forced_shrinks(s);
    lemma_filter_single_shrinks(m, rows, cols);
    lemma_shrinks_trans(t, m, s);
    lemma_total_le(t, s);
    if !same_lens(t, s) {
        let c = choose|c: int| 0 <= c < t.len() && !((#[trigger] t[c]).len() == s[c].len());
        assert(t[c].len() < s[c].len());
    }
}

#[via_fn]
proof fn prune_loop_decreases(s: Seq<Seq<Seq<Coord>>>, rows: int, cols: int) {
    lemma_pass_shrinks(s, rows, cols);
}

/// What the propagator returns from `s`.
pub open spec fn prune_result(s: Seq<Seq<Seq<Coord>>>, rows: int, cols: int) -> (Option<bool>, Seq<Seq<Seq<Coord>>>) {
    prune_loop(s, rows, cols)
}

proof fn lemma_prune_loop_shrinks(s: Seq<Seq<Seq<Coord>>>, rows: int, cols: int)
    ensures
        shrinks(prune_loop(s, rows, cols).1, s),
        total(prune_loop(s, rows, cols).1) <= total(s),
    decreases total(s),
{
    let t = pass(s, rows, cols);
    lemma_pass_shrinks(s, rows, cols);
    if !all_single(t) && !(has_empty(t) || !covered(t, rows, cols)) && !same_lens(t, s) {
        lemma_prune_loop_shrinks(t, rows, cols);
        lemma_shrinks_trans(prune_loop(t, rows, cols).1, t, s);
    }
}

proof fn lemma_prune_result_shrinks(s: Seq<Seq<Seq<Coord>>>, rows: int, cols: int)
    ensures
        shrinks(prune_result(s, rows, cols).1, s),
        total(prune_result(s, rows, cols).1) <= total(s),
{
    lemma_prune_loop_shrinks(s, rows, cols);
}

/// The first candidate of each color.
pub open spec fn firsts(s: Seq<Seq<Seq<Coord>>>) -> Seq<Seq<Coord>> {
    Seq::new(s.len(), |c: int| s[c][0])
}

/// No two of the paths share a cell.
pub open spec fn disjoint_paths(sel: Seq<Seq<Coord>>) -> bool {
    forall|a: int, b: int, x: Coord|
        0 <= a < sel.len() && 0 <= b < sel.len() && a != b && #[trigger] sel[a].contains(x) ==> !#[trigger] sel[b].contains(x)
}

/// Every cell of the grid lies on one of the paths.
pub open spec fn covers(sel: Seq<Seq<Coord>>, rows: int, cols: int) -> bool {
    forall|x: Coord| in_bounds(x, rows, cols) ==> exists|c: int| 0 <= c < sel.len() && #[trigger] sel[c].contains(x)
}

/// The paths tile the grid: pairwise disjoint and covering every cell.
pub open spec fn tiles_grid(sel: Seq<Seq<Coord>>, rows: int, cols: int) -> bool {
    disjoint_paths(sel) && covers(sel, rows, cols)
}

/// With one candidate per color, every cell exclusive to a color means the candidates tile the grid.
pub proof fn lemma_exclusive_tiles(s: Seq<Seq<Seq<Coord>>>, rows: int, cols: int)
    requires
        all_single(s),
        cands_wf(s, rows, cols),
        all_exclusive(s, rows, cols),
    ensures
        tiles_grid(firsts(s), rows, cols),
{
    let f = firsts(s);
    assert forall|a: int, b: int, x: Coord|
        0 <= a < f.len() && 0 <= b < f.len() && a != b && #[trigger] f[a].contains(x) implies !#[trigger] f[b].contains(x) by {
        assert(s[a].len() == 1);
        let i = choose|i: int| 0 <= i < f[a].len() && f[a][i] == x;
        assert(in_bounds(s[a][0][i], rows, cols));
        let c = choose|c: int| 0 <= c < s.len() && #[trigger] exclusive_to(s, c, x);
        assert(touches(s[a], x));
        if f[b].contains(x) {
            assert(s[b].len() == 1);
            assert(touches(s[b], x));
        }
    }
    assert forall|x: Coord| in_bounds(x, rows, cols) implies exists|c: int| 0 <= c < f.len() && #[trigger] f[c].contains(x) by {
        let c = choose|c: int| 0 <= c < s.len() && #[trigger] exclusive_to(s, c, x);
        let k = choose|k: int| 0 <= k < s[c].len() && #[trigger] s[c][k].contains(x);
        assert(s[c].len() == 1);
        assert(f[c].contains(x));
    }
}

/// With one candidate per color, candidates that tile the grid make every cell exclusive.
pub proof fn lemma_tiles_exclusive(s: Seq<Seq<Seq<Coord>>>, rows: int, cols: int)
    requires
        all_single(s),
        tiles_grid(firsts(s), rows, cols),
    ensures
        all_exclusive(s, rows, cols),
{
    let f = firsts(s);
    assert forall|x: Coord| in_bounds(x, rows, cols) implies exists|c: int| 0 <= c < s.len() && #[trigger] exclusive_to(s, c, x) by {
        let c = choose|c: int| 0 <= c < f.len() && #[trigger] f[c].contains(x);
        assert(s[c].len() == 1);
        assert(touches(s[c], x));
        assert forall|d: int| 0 <= d < s.len() && d != c implies !#[trigger] touches(s[d], x) by {
            assert(s[d].len() == 1);
            if touches(s[d], x) {
                let k = choose|k: int| 0 <= k < s[d].len() && #[trigger] s[d][k].contains(x);
                assert(f[d].contains(x));
            }
        }
        assert(exclusive_to(s, c, x));
    }
}

/// A color with no candidate makes the propagator fail.
pub proof fn lemma_empty_fails(s: Seq<Seq<Seq<Coord>>>, rows: int, cols: int)
    requires
        has_empty(s),
    ensures
        prune_result(s, rows, cols).0 == Some(false),
{
    let t = pass(s, rows, cols);
    lemma_pass_shrinks(s, rows, cols);
    let c = choose|c: int| 0 <= c < s.len() && (#[trigger] s[c]).len() == 0;
    assert(t[c].len() == 0);
    assert(!all_single(t));
    assert(has_empty(t));
}

/// The first color at or after `i` whose candidates are not exactly one, or `t.len()`.
pub open spec fn first_open(t: Seq<Seq<Seq<Coord>>>, i: int) -> int
    decreases t.len() - i,
{
    if i < 0 || i >= t.len() {
        t.len() as int
    } else if t[i].len() != 1 {
        i
    } else {
        first_open(t, i + 1)
    }
}

/// The search's answer from `s`: the candidates it settles on, one per color, or `None`.
pub open spec fn search(s: Seq<Seq<Seq<Coord>>>, rows: int, cols: int) -> Option<Seq<Seq<Seq<Coord>>>>
    decreases total(s), 2int, 0int,
    via search_decreases
{
    let (r, t) = prune_result(s, rows, cols);
    match r {
        Some(true) => Some(t),
        Some(false) => None,
        None => {
            let idx = first_open(t, 0);
            if 0 <= idx < t.len() {
                try_branches(t, idx, 0, rows, cols)
            } else {
                None
            }
        },
    }
}

/// Tries the candidates of color `idx` from the `j`-th on, each as the color's only one, and
/// answers with the first branch the search solves.
pub open spec fn try_branches(t: Seq<Seq<Seq<Coord>>>, idx: int, j: int, rows: int, cols: int) -> Option<Seq<Seq<Seq<Coord>>>>
    decreases total(t), 1int, t[idx].len() - j,
    via try_branches_decreases
{
    if idx < 0 || idx >= t.len() || t[idx].len() < 2 || j < 0 || j >= t[idx].len() {
        None
    } else {
        match search(t.update(idx, seq![t[idx][j]]), rows, cols) {
            Some(x) => Some(x),
            None => try_branches(t, idx, j + 1, rows, cols),
        }
    }
}

#[via_fn]
proof fn search_decreases(s: Seq<Seq<Seq<Coord>>>, rows: int, cols: int) {
    lemma_prune_result_shrinks(s, rows, cols);
}

#[via_fn]
proof fn try_branches_decreases(t: Seq<Seq<Seq<Coord>>>, idx: int, j: int, rows: int, cols: int) {
    if !(idx < 0 || idx >= t.len() || t[idx].len() < 2 || j < 0 || j >= t[idx].len()) {
        lemma_total_update(t, idx, seq![t[idx][j]]);
    }
}

/// The number of candidates of each color.
fn list_lengths(paths: &Vec<Vec<Path>>) -> (r: Vec<usize>)
    ensures
        r@.len() == paths@.len(),
        forall|c: int| 0 <= c < r@.len() ==> r@[c] == (#[trigger] cands(paths@)[c]).len(),
{
    let mut r: Vec<usize> = Vec::new();
    let mut c: usize = 0;
    while c < paths.len()
        invariant
            c <= paths@.len(),
            r@.len() == c,
            forall|d: int| 0 <= d < c ==> r@[d] == (#[trigger] cands(paths@)[d]).len(),
        decreases paths@.len() - c,
    {
        assert(cands(paths@)[c as int].len() == paths@[c as int]@.len());
        r.push(paths[c].len());
        c = c + 1;
    }
    r
}

/// Whether some color's number of candidates differs from `lens`.
fn lengths_changed(paths: &Vec<Vec<Path>>, lens: &Vec<usize>) -> (r: bool)
    requires
        lens@.len() == paths@.len(),
    ensures
        r == exists|c: int| 0 <= c < lens@.len() && lens@[c] != (#[trigger] cands(paths@)[c]).len(),
{
    let mut c: usize = 0;
    while c < paths.len()
        invariant
            lens@.len() == paths@.len(),
            c <= paths@.len(),
            forall|d: int| 0 <= d < c ==> lens@[d] == (#[trigger] cands(paths@)[d]).len(),
        decreases paths@.len() - c,
    {
        assert(cands(paths@)[c as int].len() == paths@[c as int]@.len());
        if paths[c].len() != lens[c] {
            return true;
        }
        c = c + 1;
    }
    false
}

/// Runs both filters to a fixpoint. `Some(true)`: every color is down to one candidate, and
/// these paths are pairwise disjoint and cover the grid. `Some(false)`: every color is down to
/// one candidate but they do not tile the grid, or some color has none, or some cell is visited
/// by no candidate. `None`: a further pass of either filter would drop nothing.
pub fn prune(paths: &mut Vec<Vec<Path>>, dims: &(usize, usize)) -> (r: Option<bool>)
    requires
        dims.0 > 0,
        dims.1 > 0,
        cands_wf(cands(old(paths)@), dims.0 as int, dims.1 as int),
    ensures
        cands_wf(cands(final(paths)@), dims.0 as int, dims.1 as int),
        shrinks(cands(final(paths)@), cands(old(paths)@)),
        r == Some(true) <==> all_single(cands(final(paths)@)) && tiles_grid(firsts(cands(final(paths)@)), dims.0 as int, dims.1 as int),
        r == Some(false) ==> (all_single(cands(final(paths)@)) && !tiles_grid(firsts(cands(final(paths)@)), dims.0 as int, dims.1 as int))
            || has_empty(cands(final(paths)@)) || !covered(cands(final(paths)@), dims.0 as int, dims.1 as int),
        has_empty(cands(old(paths)@)) ==> r == Some(false),
        r is None ==> filter_forced(cands(final(paths)@)) == cands(final(paths)@)
            && filter_single(cands(final(paths)@), dims.0 as int, dims.1 as int) == cands(final(paths)@),
        r is None ==> !all_single(cands(final(paths)@)) && !has_empty(cands(final(paths)@))
            && covered(cands(final(paths)@), dims.0 as int, dims.1 as int),
        (r, cands(final(paths)@)) == prune_result(cands(old(paths)@), dims.0 as int, dims.1 as int),
{
    let ghost s0 = cands(paths@);
    let ghost rows = dims.0 as int;
    let ghost cols = dims.1 as int;
    proof { lemma_shrinks_refl(s0); }
    proof {
        if has_empty(s0) {
            lemma_empty_fails(s0, rows, cols);
        }
    }
    loop
        invariant
            has_empty(s0) ==> prune_result(s0, rows, cols).0 == Some(false),
            prune_loop(cands(paths@), rows, cols) == prune_loop(s0, rows, cols),
            rows == dims.0,
            cols == dims.1,
            dims.0 > 0,
            dims.1 > 0,
            cands_wf(cands(paths@), rows, cols),
            s0 == cands(old(paths)@),
            shrinks(cands(paths@), s0),
        decreases total(cands(paths@)),
    {
        let ghost sp = cands(paths@);
        let lens = list_lengths(paths);
        filter_paths_forced(paths, dims);
        let ghost sm = cands(paths@);
        proof {
            lemma_filter_forced_shrinks(sp);
            lemma_wf_shrinks(sm, sp, rows, cols);
        }
        filter_paths_single(paths, dims);
        let ghost sf = cands(paths@);
        proof {
            lemma_filter_single_shrinks(sm, rows, cols);
            lemma_wf_shrinks(sf, sm, rows, cols);
            lemma_shrinks_trans(sf, sm, sp);
            lemma_shrinks_trans(sf, sp, s0);
            assert(shrinks(sf, s0));
        }
        assert(sf == cands(paths@));
        assert(sf == pass(sp, rows, cols));
        let changed = lengths_changed(paths, &lens);
        if is_solved(paths) {
            let tiled = check_exclusive(paths, dims);
            proof {
                if tiled {
                    lemma_exclusive_tiles(sf, rows, cols);
                } else {
                    if tiles_grid(firsts(sf), rows, cols) {
                        lemma_tiles_exclusive(sf, rows, cols);
                    }
                }
            }
            return Some(tiled);
        }
        if is_impossible(paths) || !check_reachable(paths, dims) {
            return Some(false);
        }
        if !changed {
            proof {
                assert forall|d: int| 0 <= d < sp.len() implies #[trigger] sm[d] == sp[d] by {
                    assert(lens@[d] == sf[d].len());
                    lemma_filter_full(sp[d], |p: Seq<Coord>| keep_forced(sp, d, p));
                }
                assert(sm =~= sp);
                assert forall|d: int| 0 <= d < sm.len() implies #[trigger] sf[d] == sm[d] by {
                    assert(lens@[d] == sf[d].len());
                    assert(sm[d] == sp[d]);
                    lemma_filter_full(sm[d], |p: Seq<Coord>| keep_single(sm, d, p, rows, cols));
                }
                assert(sf =~= sm);
            }
            return None;
        }
        proof {
            let d = choose|d: int| 0 <= d < lens@.len() && lens@[d] != (#[trigger] cands(paths@)[d]).len();
            assert(sf[d].len() < sp[d].len());
            lemma_total_le(sf, sp);
            assert(!same_lens(sf, sp));
        }
    }
}

/// `sel` picks one candidate for each color of `s`.
pub open spec fn is_choice(sel: Seq<Seq<Coord>>, s: Seq<Seq<Seq<Coord>>>) -> bool {
    sel.len() == s.len() && forall|c: int| 0 <= c < s.len() ==> #[trigger] s[c].contains(sel[c])
}

/// One candidate can be picked for each color so that the picked paths tile the grid.
pub open spec fn has_tiling(s: Seq<Seq<Seq<Coord>>>, rows: int, cols: int) -> bool {
    exists|sel: Seq<Seq<Coord>>| is_choice(sel, s) && tiles_grid(sel, rows, cols)
}

proof fn lemma_forced_owner(s: Seq<Seq<Seq<Coord>>>, x: Coord, n: int)
    requires
        0 <= n <= s.len(),
        s.len() <= usize::MAX,
    ensures
        forced_owner(s, x, n) matches Some(o) ==> o < n && forced_for(s[o as int], x),
    decreases n,
{
    if n > 0 {
        lemma_forced_owner(s, x, n - 1);
    }
}

proof fn lemma_filter_keeps(s: Seq<Seq<Coord>>, f: spec_fn(Seq<Coord>) -> bool, p: Seq<Coord>)
    requires
        s.contains(p),
        f(p),
    ensures
        s.filter(f).contains(p),
{
    let i = choose|i: int| 0 <= i < s.len() && s[i] == p;
    s.lemma_filter_contains(f, i);
}

/// Neither filter drops a candidate of a tiling.
pub proof fn lemma_pass_keeps_tiling(s: Seq<Seq<Seq<Coord>>>, sel: Seq<Seq<Coord>>, rows: int, cols: int)
    requires
        s.len() <= usize::MAX,
        is_choice(sel, s),
        tiles_grid(sel, rows, cols),
    ensures
        is_choice(sel, pass(s, rows, cols)),
{
    let m = filter_forced(s);
    assert forall|c: int| 0 <= c < s.len() implies #[trigger] m[c].contains(sel[c]) by {
        assert(s[c].contains(sel[c]));
        assert forall|i: int| 0 <= i < sel[c].len() implies match forced_owner(s, #[trigger] sel[c][i], s.len() as int) {
            None => true,
            Some(o) => o == c,
        } by {
            let x = sel[c][i];
            lemma_forced_owner(s, x, s.len() as int);
            if let Some(o) = forced_owner(s, x, s.len() as int) {
                if o != c {
                    let o = o as int;
                    assert(s[o].contains(sel[o]));
                    let k = choose|k: int| 0 <= k < s[o].len() && s[o][k] == sel[o];
                    assert(s[o][k].contains(x));
                    assert(sel[c].contains(x));
                }
            }
        }
        lemma_filter_keeps(s[c], |p: Seq<Coord>| keep_forced(s, c, p), sel[c]);
    }
    let t = pass(s, rows, cols);
    assert forall|c: int| 0 <= c < s.len() implies #[trigger] t[c].contains(sel[c]) by {
        assert(m[c].contains(sel[c]));
        assert forall|x: Coord| in_bounds(x, rows, cols) && #[trigger] exclusive_to(m, c, x) implies sel[c].contains(x) by {
            let d = choose|d: int| 0 <= d < sel.len() && #[trigger] sel[d].contains(x);
            assert(m[d].contains(sel[d]));
            let k = choose|k: int| 0 <= k < m[d].len() && m[d][k] == sel[d];
            assert(touches(m[d], x));
        }
        lemma_filter_keeps(m[c], |p: Seq<Coord>| keep_single(m, c, p, rows, cols), sel[c]);
    }
}

/// Propagation never loses a tiling: it does not fail where one exists, and one remains.
pub proof fn lemma_prune_keeps_tiling(s: Seq<Seq<Seq<Coord>>>, rows: int, cols: int)
    requires
        s.len() <= usize::MAX,
        has_tiling(s, rows, cols),
    ensures
        prune_result(s, rows, cols).0 != Some(false),
        has_tiling(prune_result(s, rows, cols).1, rows, cols),
    decreases total(s),
{
    let sel = choose|sel: Seq<Seq<Coord>>| is_choice(sel, s) && tiles_grid(sel, rows, cols);
    let t = pass(s, rows, cols);
    lemma_pass_keeps_tiling(s, sel, rows, cols);
    lemma_pass_shrinks(s, rows, cols);
    assert(has_tiling(t, rows, cols));
    if all_single(t) {
        assert forall|c: int| 0 <= c < t.len() implies #[trigger] firsts(t)[c] == sel[c] by {
            assert(t[c].len() == 1);
            assert(t[c].contains(sel[c]));
        }
        assert(firsts(t) =~= sel);
        lemma_tiles_exclusive(t, rows, cols);
    } else if has_empty(t) {
        let c = choose|c: int| 0 <= c < t.len() && (#[trigger] t[c]).len() == 0;
        assert(t[c].contains(sel[c]));
    } else if !covered(t, rows, cols) {
        assert forall|x: Coord| in_bounds(x, rows, cols) implies exists|c: int| 0 <= c < t.len() && #[trigger] touches(t[c], x) by {
            let c = choose|c: int| 0 <= c < sel.len() && #[trigger] sel[c].contains(x);
            assert(t[c].contains(sel[c]));
            let k = choose|k: int| 0 <= k < t[c].len() && t[c][k] == sel[c];
            assert(touches(t[c], x));
        }
    } else if !same_lens(t, s) {
        lemma_prune_keeps_tiling(t, rows, cols);
    }
}

proof fn lemma_first_open(t: Seq<Seq<Seq<Coord>>>, i: int)
    requires
        0 <= i <= t.len(),
    ensures
        i <= first_open(t, i) <= t.len(),
        first_open(t, i) < t.len() ==> t[first_open(t, i)].len() != 1,
        first_open(t, i) == t.len() ==> forall|c: int| i <= c < t.len() ==> (#[trigger] t[c]).len() == 1,
    decreases t.len() - i,
{
    if i < t.len() && t[i].len() == 1 {
        lemma_first_open(t, i + 1);
    }
}

/// Whenever a tiling can be picked from the candidates, the search finds an answer.
pub proof fn lemma_search_complete(s: Seq<Seq<Seq<Coord>>>, rows: int, cols: int)
    requires
        s.len() <= usize::MAX,
        has_tiling(s, rows, cols),
    ensures
        search(s, rows, cols) is Some,
    decreases total(s), 1int, 0int,
{
    lemma_prune_keeps_tiling(s, rows, cols);
    lemma_prune_result_shrinks(s, rows, cols);
    let (r, t) = prune_result(s, rows, cols);
    if r is None {
        let sel = choose|sel: Seq<Seq<Coord>>| is_choice(sel, t) && tiles_grid(sel, rows, cols);
        lemma_prune_loop_none(s, rows, cols);
        lemma_first_open(t, 0);
        let idx = first_open(t, 0);
        if idx == t.len() {
            assert(all_single(t));
        }
        assert(t[idx].len() != 0);
        assert(t[idx].contains(sel[idx]));
        let j0 = choose|j: int| 0 <= j < t[idx].len() && t[idx][j] == sel[idx];
        lemma_try_complete(t, idx, 0, j0, sel, rows, cols);
    }
}

proof fn lemma_prune_loop_none(s: Seq<Seq<Seq<Coord>>>, rows: int, cols: int)
    ensures
        prune_loop(s, rows, cols).0 is None ==> !all_single(prune_loop(s, rows, cols).1) && !has_empty(prune_loop(s, rows, cols).1),
    decreases total(s),
{
    let t = pass(s, rows, cols);
    lemma_pass_shrinks(s, rows, cols);
    if !all_single(t) && !(has_empty(t) || !covered(t, rows, cols)) && !same_lens(t, s) {
        lemma_prune_loop_none(t, rows, cols);
    }
}

proof fn lemma_try_complete(
    t: Seq<Seq<Seq<Coord>>>,
    idx: int,
    j: int,
    j0: int,
    sel: Seq<Seq<Coord>>,
    rows: int,
    cols: int,
)
    requires
        t.len() <= usize::MAX,
        0 <= idx < t.len(),
        t[idx].len() >= 2,
        0 <= j <= j0 < t[idx].len(),
        t[idx][j0] == sel[idx],
        is_choice(sel, t),
        tiles_grid(sel, rows, cols),
    ensures
        try_branches(t, idx, j, rows, cols) is Some,
    decreases total(t), 0int, j0 - j,
{
    let branch = t.update(idx, seq![t[idx][j]]);
    lemma_total_update(t, idx, seq![t[idx][j]]);
    if j == j0 {
        assert forall|c: int| 0 <= c < branch.len() implies #[trigger] branch[c].contains(sel[c]) by {
            if c == idx {
                assert(branch[c][0] == sel[c]);
            } else {
                assert(branch[c] == t[c]);
            }
        }
        assert(is_choice(sel, branch));
        lemma_search_complete(branch, rows, cols);
    } else if search(branch, rows, cols) is None {
        lemma_try_complete(t, idx, j + 1, j0, sel, rows, cols);
    }
}

proof fn lemma_prune_loop_true(s: Seq<Seq<Seq<Coord>>>, rows: int, cols: int)
    ensures
        prune_loop(s, rows, cols).0 == Some(true) ==> all_single(prune_loop(s, rows, cols).1)
            && all_exclusive(prune_loop(s, rows, cols).1, rows, cols),
    decreases total(s),
{
    let t = pass(s, rows, cols);
    lemma_pass_shrinks(s, rows, cols);
    if !all_single(t) && !(has_empty(t) || !covered(t, rows, cols)) && !same_lens(t, s) {
        lemma_prune_loop_true(t, rows, cols);
    }
}

proof fn lemma_choice_of_single(t: Seq<Seq<Seq<Coord>>>, s: Seq<Seq<Seq<Coord>>>)
    requires
        all_single(t),
        shrinks(t, s),
    ensures
        is_choice(firsts(t), s),
{
    assert forall|c: int| 0 <= c < s.len() implies #[trigger] s[c].contains(firsts(t)[c]) by {
        assert(t[c].len() == 1);
        assert(s[c].contains(t[c][0]));
    }
}

/// What the search answers is one candidate per color, taken from the candidates it started
/// with, and these tile the grid.
pub proof fn lemma_search_sound(s: Seq<Seq<Seq<Coord>>>, rows: int, cols: int)
    requires
        s.len() <= usize::MAX,
        cands_wf(s, rows, cols),
    ensures
        search(s, rows, cols) matches Some(t) ==> all_single(t) && tiles_grid(firsts(t), rows, cols) && shrinks(t, s),
    decreases total(s), 1int, 0int,
{
    lemma_prune_result_shrinks(s, rows, cols);
    lemma_prune_loop_true(s, rows, cols);
    let (r, t) = prune_result(s, rows, cols);
    lemma_wf_shrinks(t, s, rows, cols);
    if r == Some(true) {
        lemma_exclusive_tiles(t, rows, cols);
    } else if r is None {
        let idx = first_open(t, 0);
        if 0 <= idx < t.len() {
            lemma_try_sound(t, idx, 0, rows, cols);
            if let Some(x) = try_branches(t, idx, 0, rows, cols) {
                lemma_shrinks_trans(x, t, s);
            }
        }
    }
}

proof fn lemma_try_sound(t: Seq<Seq<Seq<Coord>>>, idx: int, j: int, rows: int, cols: int)
    requires
        t.len() <= usize::MAX,
        cands_wf(t, rows, cols),
        0 <= idx < t.len(),
        0 <= j,
    ensures
        try_branches(t, idx, j, rows, cols) matches Some(x) ==> all_single(x) && tiles_grid(firsts(x), rows, cols) && shrinks(x, t),
    decreases total(t), 0int, t[idx].len() - j,
{
    if !(t[idx].len() < 2 || j >= t[idx].len()) {
        let branch = t.update(idx, seq![t[idx][j]]);
        lemma_total_update(t, idx, seq![t[idx][j]]);
        assert forall|c: int, k: int| 0 <= c < branch.len() && 0 <= k < branch[c].len() implies t[c].contains(#[trigger] branch[c][k]) by {
            if c == idx {
                assert(t[c][j] == branch[c][k]);
            }
        }
        assert(shrinks(branch, t));
        lemma_wf_shrinks(branch, t, rows, cols);
        lemma_search_sound(branch, rows, cols);
        if let Some(x) = search(branch, rows, cols) {
            lemma_shrinks_trans(x, branch, t);
        } else {
            lemma_try_sound(t, idx, j + 1, rows, cols);
        }
    }
}

/// A puzzle whose candidates allow exactly one tiling: the search answers with that tiling.
pub proof fn lemma_unique_tiling_found(s: Seq<Seq<Seq<Coord>>>, sel: Seq<Seq<Coord>>, rows: int, cols: int)
    requires
        s.len() <= usize::MAX,
        cands_wf(s, rows, cols),
        is_choice(sel, s),
        tiles_grid(sel, rows, cols),
        forall|other: Seq<Seq<Coord>>| is_choice(other, s) && tiles_grid(other, rows, cols) ==> other == sel,
    ensures
        search(s, rows, cols) is Some,
        firsts(search(s, rows, cols).unwrap()) == sel,
{
    lemma_search_complete(s, rows, cols);
    lemma_search_sound(s, rows, cols);
    let t = search(s, rows, cols).unwrap();
    lemma_choice_of_single(t, s);
}

/// Depth-first search: prunes, then tries each candidate of the first color with several
/// candidates, in order, and adopts the first branch that succeeds. On success every color is
/// down to one candidate and these tile the grid; on failure the lists are as pruning left them.
pub fn backtrack(paths: &mut Vec<Vec<Path>>, dims: &(usize, usize)) -> (r: bool)
    requires
        dims.0 > 0,
        dims.1 > 0,
        cands_wf(cands(old(paths)@), dims.0 as int, dims.1 as int),
    ensures
        cands_wf(cands(final(paths)@), dims.0 as int, dims.1 as int),
        shrinks(cands(final(paths)@), cands(old(paths)@)),
        r ==> all_single(cands(final(paths)@)),
        r ==> tiles_grid(firsts(cands(final(paths)@)), dims.0 as int, dims.1 as int),
        !r ==> cands(final(paths)@) == prune_result(cands(old(paths)@), dims.0 as int, dims.1 as int).1,
        !r ==> !has_tiling(cands(old(paths)@), dims.0 as int, dims.1 as int),
        r == search(cands(old(paths)@), dims.0 as int, dims.1 as int) is Some,
        r ==> cands(final(paths)@) == search(cands(old(paths)@), dims.0 as int, dims.1 as int).unwrap(),
    decreases total(cands(old(paths)@)),
{
    let ghost s0 = cands(paths@);
    let ghost rows = dims.0 as int;
    let ghost cols = dims.1 as int;
    let nb_colors = paths.len();
    proof {
        if has_tiling(s0, rows, cols) {
            lemma_search_complete(s0, rows, cols);
        }
    }
    let res = prune(paths, dims);
    match res {
        Some(r) => {
            return r;
        },
        None => {},
    }
    let ghost sp = cands(paths@);
    proof {
        assert(sp.len() == s0.len());
        assert forall|c: int| 0 <= c < sp.len() implies (#[trigger] sp[c]).len() <= s0[c].len() by {}
        lemma_total_le(sp, s0);
    }
    let mut index: usize = 0;
    while index < nb_colors && paths[index].len() == 1
        invariant
            sp == cands(paths@),
            nb_colors == paths@.len(),
            index <= nb_colors,
            first_open(sp, 0) == first_open(sp, index as int),
        decreases nb_colors - index,
    {
        assert(sp[index as int].len() == paths@[index as int]@.len());
        index = index + 1;
    }
    if index == nb_colors {
        return false;
    }
    assert(sp[index as int].len() == paths@[index as int]@.len());
    assert(first_open(sp, 0) == index);
    assert(sp[index as int].len() == paths@[index as int]@.len());
    let mut j: usize = 0;
    while j < paths[index].len()
        invariant
            sp == cands(paths@),
            shrinks(sp, s0),
            cands_wf(sp, rows, cols),
            total(sp) <= total(s0),
            rows == dims.0,
            cols == dims.1,
            dims.0 > 0,
            dims.1 > 0,
            nb_colors == paths@.len(),
            index < nb_colors,
            sp[index as int].len() != 1,
            s0 == cands(old(paths)@),
            search(s0, rows, cols) == try_branches(sp, index as int, 0, rows, cols),
            try_branches(sp, index as int, 0, rows, cols) == try_branches(sp, index as int, j as int, rows, cols),
            j <= sp[index as int].len(),
        decreases paths@[index as int]@.len() - j,
    {
        let mut n_paths: Vec<Vec<Path>> = Vec::new();
        let mut color: usize = 0;
        let ghost chosen = sp[index as int][j as int];
        while color < nb_colors
            invariant
                sp == cands(paths@),
                nb_colors == paths@.len(),
                index < nb_colors,
                j < sp[index as int].len(),
                chosen == sp[index as int][j as int],
                color <= nb_colors,
                n_paths@.len() == color,
                forall|d: int| 0 <= d < color ==> #[trigger] cands(n_paths@)[d] == sp.update(index as int, seq![chosen])[d],
            decreases nb_colors - color,
        {
            let ghost before = n_paths@;
            if color == index {
                let mut one: Vec<Path> = Vec::new();
                one.push(copy_path(&paths[index][j]));
                assert(path_views(one@) =~= seq![chosen]);
                n_paths.push(one);
                assert(n_paths@[color as int]@ == one@);
            } else {
                let list = copy_list(&paths[color]);
                n_paths.push(list);
                assert(n_paths@[color as int]@ == list@);
                assert(sp[color as int] == path_views(paths@[color as int]@));
            }
            assert(cands(n_paths@)[color as int] == path_views(n_paths@[color as int]@));
            assert(cands(n_paths@)[color as int] == sp.update(index as int, seq![chosen])[color as int]);
            assert forall|d: int| 0 <= d < color + 1 implies #[trigger] cands(n_paths@)[d] == sp.update(index as int, seq![chosen])[d] by {
                if d < color {
                    assert(n_paths@[d] == before[d]);
                    assert(cands(before)[d] == sp.update(index as int, seq![chosen])[d]);
                    assert(cands(before)[d] == path_views(before[d]@));
                    assert(cands(n_paths@)[d] == path_views(n_paths@[d]@));
                }
            }
            color = color + 1;
        }
        let ghost sn = cands(n_paths@);
        proof {
            assert(sn =~= sp.update(index as int, seq![chosen]));
            lemma_total_update(sp, index as int, seq![chosen]);
            assert forall|c: int, k: int| 0 <= c < sn.len() && 0 <= k < sn[c].len() implies sp[c].contains(#[trigger] sn[c][k]) by {
                if c == index {
                    assert(sp[c][j as int] == sn[c][k]);
                }
            }
            assert(shrinks(sn, sp));
            lemma_wf_shrinks(sn, sp, rows, cols);
        }
        if backtrack(&mut n_paths, dims) {
            proof {
                lemma_shrinks_trans(cands(n_paths@), sn, sp);
                lemma_shrinks_trans(cands(n_paths@), sp, s0);
            }
            *paths = n_paths;
            return true;
        }
        j = j + 1;
    }
    false
}

/// The color painted at `x` when each color paints its first candidate, in color order.
pub open spec fn painted(s: Seq<Seq<Seq<Coord>>>, x: Coord, n: int) -> Option<Color>
    decreases n,
{
    if n <= 0 {
        None
    } else if s[n - 1][0].contains(x) {
        Some((n - 1) as usize)
    } else {
        painted(s, x, n - 1)
    }
}

proof fn lemma_painted(s: Seq<Seq<Seq<Coord>>>, x: Coord, n: int)
    requires
        0 <= n <= s.len(),
        s.len() <= usize::MAX,
    ensures
        painted(s, x, n) matches Some(c) ==> c < n && s[c as int][0].contains(x),
        painted(s, x, n) is None ==> forall|c: int| 0 <= c < n ==> !(#[trigger] s[c][0]).contains(x),
    decreases n,
{
    if n > 0 {
        lemma_painted(s, x, n - 1);
    }
}

/// When every color has one candidate left, the candidates cover the grid, and no two of them
/// share a cell, the painted grid gives each cell the one color whose path visits it.
pub proof fn lemma_painted_tiles(s: Seq<Seq<Seq<Coord>>>, rows: int, cols: int)
    requires
        s.len() <= usize::MAX,
        all_single(s),
        covered(s, rows, cols),
        forall|a: int, b: int, x: Coord|
            0 <= a < s.len() && 0 <= b < s.len() && a != b && #[trigger] s[a][0].contains(x) ==> !#[trigger] s[b][0].contains(x),
    ensures
        forall|x: Coord| in_bounds(x, rows, cols) ==> {
            &&& #[trigger] painted(s, x, s.len() as int) is Some
            &&& s[painted(s, x, s.len() as int).unwrap() as int][0].contains(x)
            &&& forall|c: int| 0 <= c < s.len() && #[trigger] s[c][0].contains(x) ==> c == painted(s, x, s.len() as int).unwrap()
        },
{
    assert forall|x: Coord| in_bounds(x, rows, cols) implies {
        &&& #[trigger] painted(s, x, s.len() as int) is Some
        &&& s[painted(s, x, s.len() as int).unwrap() as int][0].contains(x)
        &&& forall|c: int| 0 <= c < s.len() && #[trigger] s[c][0].contains(x) ==> c == painted(s, x, s.len() as int).unwrap()
    } by {
        lemma_painted(s, x, s.len() as int);
        let c = choose|c: int| 0 <= c < s.len() && #[trigger] crate::propagate::touches(s[c], x);
        let k = choose|k: int| 0 <= k < s[c].len() && #[trigger] s[c][k].contains(x);
        assert(s[c].len() == 1);
        assert(s[c][0].contains(x));
    }
}

/// The grid painted by each color's first candidate.
pub fn generate_final_grid(paths: &Vec<Vec<Path>>, dims: &(usize, usize)) -> (r: Grid)
    requires
        dims.0 > 0,
        dims.1 > 0,
        cands_wf(cands(paths@), dims.0 as int, dims.1 as int),
        forall|c: int| 0 <= c < paths@.len() ==> (#[trigger] cands(paths@)[c]).len() >= 1,
    ensures
        r.wf(),
        r.rows() == dims.0,
        r.cols() == dims.1,
        forall|x: Coord| in_bounds(x, dims.0 as int, dims.1 as int) ==> #[trigger] r.cell(x) == painted(cands(paths@), x, paths@.len() as int),
{
    let ghost s = cands(paths@);
    let mut grid = Grid::new(dims);
    let mut c: usize = 0;
    while c < paths.len()
        invariant
            s == cands(paths@),
            cands_wf(s, dims.0 as int, dims.1 as int),
            forall|d: int| 0 <= d < paths@.len() ==> (#[trigger] s[d]).len() >= 1,
            c <= paths@.len(),
            grid.wf(),
            grid.rows() == dims.0,
            grid.cols() == dims.1,
            forall|x: Coord| in_bounds(x, dims.0 as int, dims.1 as int) ==> #[trigger] grid.cell(x) == painted(s, x, c as int),
        decreases paths@.len() - c,
    {
        assert(s[c as int].len() >= 1);
        assert(paths@[c as int]@.len() >= 1);
        let path = &paths[c][0];
        assert(s[c as int][0] == path@);
        let mut j: usize = 0;
        while j < path.len()
            invariant
                s == cands(paths@),
                cands_wf(s, dims.0 as int, dims.1 as int),
                c < paths@.len(),
                s[c as int].len() >= 1,
                s[c as int][0] == path@,
                j <= path@.len(),
                grid.wf(),
                grid.rows() == dims.0,
                grid.cols() == dims.1,
                forall|x: Coord| in_bounds(x, dims.0 as int, dims.1 as int) ==> #[trigger] grid.cell(x) == if (exists|i: int| 0 <= i < j && path@[i] == x) {
                    Some(c)
                } else {
                    painted(s, x, c as int)
                },
            decreases path@.len() - j,
        {
            let ghost g0 = grid;
            assert(in_bounds(s[c as int][0][j as int], dims.0 as int, dims.1 as int));
            grid.set(&path[j], Some(c));
            assert forall|x: Coord| in_bounds(x, dims.0 as int, dims.1 as int) implies #[trigger] grid.cell(x) == if (exists|i: int| 0 <= i < j + 1 && path@[i] == x) {
                Some(c)
            } else {
                painted(s, x, c as int)
            } by {
                if x == path@[j as int] {
                    assert(0 <= j < j + 1 && path@[j as int] == x);
                } else {
                    assert(grid.cell(x) == g0.cell(x));
                    if exists|i: int| 0 <= i < j + 1 && path@[i] == x {
                        let i = choose|i: int| 0 <= i < j + 1 && path@[i] == x;
                        assert(0 <= i < j && path@[i] == x);
                    }
                }
            }
            j = j + 1;
        }
        assert forall|x: Coord| in_bounds(x, dims.0 as int, dims.1 as int) implies #[trigger] grid.cell(x) == painted(s, x, c + 1) by {
            if path@.contains(x) {
                let i = choose|i: int| 0 <= i < path@.len() && path@[i] == x;
                assert(0 <= i < j && path@[i] == x);
            } else {
                assert(!(exists|i: int| 0 <= i < j && path@[i] == x));
            }
        }
        c = c + 1;
    }
    grid
}

/// Candidates that survive propagation or search are flow paths of their color whenever the
/// candidates they came from were.
pub proof fn lemma_survivors_are_flow_paths(
    new: Seq<Seq<Seq<Coord>>>,
    old: Seq<Seq<Seq<Coord>>>,
    ends: Seq<(Coord, Coord)>,
    g: Grid,
)
    requires
        shrinks(new, old),
        ends.len() == old.len(),
        forall|c: int, k: int| 0 <= c < old.len() && 0 <= k < old[c].len() ==> is_flow_path(#[trigger] old[c][k], ends[c].0, ends[c].1, g),
    ensures
        forall|c: int, k: int| 0 <= c < new.len() && 0 <= k < new[c].len() ==> is_flow_path(#[trigger] new[c][k], ends[c].0, ends[c].1, g),
{
    assert forall|c: int, k: int| 0 <= c < new.len() && 0 <= k < new[c].len() implies is_flow_path(#[trigger] new[c][k], ends[c].0, ends[c].1, g) by {
        assert(old[c].contains(new[c][k]));
        let j = choose|j: int| 0 <= j < old[c].len() && old[c][j] == new[c][k];
        assert(is_flow_path(old[c][j], ends[c].0, ends[c].1, g));
    }
}

/// The candidate universe: for each color, every path the enumeration yields between its
/// endpoints.
pub open spec fn universe(grid: Grid) -> Seq<Seq<Seq<Coord>>> {
    let pts = grid_points(grid.cells(), grid.rows());
    Seq::new(
        (pts.len() / 2) as nat,
        |c: int|
            {
                let e = endpoints(pts, c as usize, grid.rows(), grid.cols()).unwrap();
                dfs(e.1, seq![e.0], grid)
            },
    )
}

/// Solves a puzzle: enumerates each color's paths, then searches. On success each color has
/// exactly one path left, from its first point to its partner through empty cells, and these
/// paths tile the grid; when every color has its pair, `None` means no tiling can be picked
/// from the enumerated paths.
pub fn solve(grid: &Grid) -> (r: Option<Vec<Vec<Path>>>)
    requires
        grid.wf(),
    ensures
        r is Some <==> pairs_found(*grid) && search(universe(*grid), grid.rows(), grid.cols()) is Some,
        r matches Some(sol) ==> cands(sol@) == search(universe(*grid), grid.rows(), grid.cols()).unwrap(),
        r matches Some(sol) ==> tiles_grid(firsts(cands(sol@)), grid.rows(), grid.cols()),
        r is None && pairs_found(*grid) ==> !has_tiling(universe(*grid), grid.rows(), grid.cols()),
        r matches Some(sol) ==> is_choice(firsts(cands(sol@)), universe(*grid)),
        r matches Some(sol) ==> {
            let pts = grid_points(grid.cells(), grid.rows());
            let n = pts.len() / 2;
            &&& cands(sol@).len() == n
            &&& all_single(cands(sol@))
            &&& forall|c: int| 0 <= c < n ==> {
                let ends = #[trigger] endpoints(pts, c as usize, grid.rows(), grid.cols());
                ends is Some && is_flow_path(cands(sol@)[c][0], ends.unwrap().0, ends.unwrap().1, *grid)
            }
        },
{
    let dims = grid.get_dims();
    let ghost pts = grid_points(grid.cells(), grid.rows());
    let ghost n = pts.len() / 2;
    let all = match generate_all_paths(grid) {
        Some(a) => a,
        None => {
            return None;
        },
    };
    let mut work = get_paths_refs(&all);
    let ghost u = cands(work@);
    proof {
        assert forall|c: int| 0 <= c < u.len() implies #[trigger] u[c] == universe(*grid)[c] by {
            assert(u[c] == path_views(all@[c]@));
        }
        assert(u =~= universe(*grid));
    }
    let ghost ends = Seq::new(n as nat, |c: int| endpoints(pts, c as usize, grid.rows(), grid.cols()).unwrap());
    proof {
        assert(u.len() == n);
        assert forall|c: int, k: int| 0 <= c < u.len() && 0 <= k < u[c].len() implies is_flow_path(#[trigger] u[c][k], ends[c].0, ends[c].1, *grid) by {
            assert(u[c][k] == all@[c]@[k]@);
        }
        assert forall|c: int, k: int, i: int| 0 <= c < u.len() && 0 <= k < u[c].len() && 0 <= i < u[c][k].len() implies in_bounds(
            #[trigger] u[c][k][i],
            dims.0 as int,
            dims.1 as int,
        ) by {
            assert(is_flow_path(u[c][k], ends[c].0, ends[c].1, *grid));
        }
    }
    if backtrack(&mut work, &dims) {
        proof {
            lemma_survivors_are_flow_paths(cands(work@), u, ends, *grid);
            let fin = cands(work@);
            assert forall|c: int| 0 <= c < u.len() implies #[trigger] u[c].contains(firsts(fin)[c]) by {
                assert(fin[c].len() == 1);
                assert(u[c].contains(fin[c][0]));
            }
            assert forall|c: int| 0 <= c < n implies {
                let e = #[trigger] endpoints(pts, c as usize, grid.rows(), grid.cols());
                e is Some && is_flow_path(cands(work@)[c][0], e.unwrap().0, e.unwrap().1, *grid)
            } by {
                assert(cands(work@)[c].len() == 1);
                assert(is_flow_path(cands(work@)[c][0], ends[c].0, ends[c].1, *grid));
            }
        }
        Some(work)
    } else {
        None
    }
}

} // verus!
