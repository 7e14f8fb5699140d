use vstd::prelude::*;
use std::collections::VecDeque;
use vstd::std_specs::cmp::PartialEqSpec;

verus! {

/// A non-empty grid whose rows all have the length of the first one.
pub open spec fn rectangular<T>(grid: Seq<Vec<T>>) -> bool {
    &&& grid.len() > 0
    &&& forall|r: int| 0 <= r < grid.len() ==> (#[trigger] grid[r])@.len() == grid[0]@.len()
}

/// Cell `(r, c)` lies inside the grid.
pub open spec fn in_grid<T>(grid: Seq<Vec<T>>, r: int, c: int) -> bool {
    0 <= r < grid.len() && 0 <= c < grid[0]@.len()
}

/// Cell `(r, c)` holds `target`, by `T`'s own `==`.
pub open spec fn holds<T: PartialEq>(grid: Seq<Vec<T>>, r: int, c: int, target: &T) -> bool {
    grid[r]@[c].eq_spec(target)
}

/// What a search returns: whether it found `target`, and where; a position
/// found is a cell of the grid that holds `target`.
pub open spec fn sound_result<T: PartialEq>(grid: Seq<Vec<T>>, target: &T, r: (bool, Option<(usize, usize)>)) -> bool {
    &&& r.0 <==> r.1 is Some
    &&& r.1 matches Some(p) ==> in_grid(grid, p.0 as int, p.1 as int)
    &&& T::obeys_eq_spec() ==> (r.1 matches Some(p) ==> holds(grid, p.0 as int, p.1 as int, target))
}

/// Whether cell `(r, c)` is marked in a table of marks.
pub open spec fn marked(vis: Seq<Vec<bool>>, r: int, c: int) -> bool {
    vis[r]@[c]
}

/// A `rows` by `cols` table of marks.
pub open spec fn table(vis: Seq<Vec<bool>>, rows: int, cols: int) -> bool {
    &&& vis.len() == rows
    &&& forall|r: int| 0 <= r < rows ==> (#[trigger] vis[r])@.len() == cols
}

/// The number of unmarked entries of a row.
pub open spec fn unmarked_in(s: Seq<bool>) -> int
    decreases s.len(),
{
    if s.len() == 0 {
        0
    } else {
        unmarked_in(s.drop_last()) + if s.last() {
            0int
        } else {
            1int
        }
    }
}

/// The number of unmarked cells of the first `n` rows.
pub open spec fn unmarked(vis: Seq<Vec<bool>>, n: int) -> int
    decreases n,
{
    if n <= 0 {
        0
    } else {
        unmarked(vis, n - 1) + unmarked_in(vis[n - 1]@)
    }
}

proof fn lemma_unmarked_in_mark(s: Seq<bool>, i: int)
    requires
        0 <= i < s.len(),
        !s[i],
    ensures
        unmarked_in(s.update(i, true)) == unmarked_in(s) - 1,
        0 <= unmarked_in(s.update(i, true)),
    decreases s.len(),
{
    let t = s.update(i, true);
    if i < s.len() - 1 {
        assert(t.drop_last() =~= s.drop_last().update(i, true));
        lemma_unmarked_in_mark(s.drop_last(), i);
    } else {
        assert(t.drop_last() =~= s.drop_last());
        lemma_unmarked_in_nonneg(s.drop_last());
    }
}

proof fn lemma_unmarked_in_nonneg(s: Seq<bool>)
    ensures
        0 <= unmarked_in(s),
    decreases s.len(),
{
    if s.len() > 0 {
        lemma_unmarked_in_nonneg(s.drop_last());
    }
}

proof fn lemma_unmarked_nonneg(vis: Seq<Vec<bool>>, n: int)
    ensures
        0 <= unmarked(vis, n),
    decreases n,
{
    if n > 0 {
        lemma_unmarked_nonneg(vis, n - 1);
        lemma_unmarked_in_nonneg(vis[n - 1]@);
    }
}

/// Marking an unmarked cell leaves one unmarked cell fewer.
proof fn lemma_unmarked_mark(vis: Seq<Vec<bool>>, vis2: Seq<Vec<bool>>, n: int, r: int, c: int)
    requires
        0 <= r < n <= vis.len(),
        vis2.len() == vis.len(),
        0 <= c < vis[r]@.len(),
        !vis[r]@[c],
        vis2[r]@ == vis[r]@.update(c, true),
        forall|k: int| 0 <= k < vis.len() && k != r ==> vis2[k]@ == vis[k]@,
    ensures
        unmarked(vis2, n) == unmarked(vis, n) - 1,
        0 <= unmarked(vis2, n),
    decreases n,
{
    lemma_unmarked_nonneg(vis2, n);
    if n - 1 == r {
        lemma_unmarked_in_mark(vis[r]@, c);
        lemma_unmarked_same(vis, vis2, n - 1, r);
    } else {
        lemma_unmarked_mark(vis, vis2, n - 1, r, c);
    }
}

proof fn lemma_unmarked_same(vis: Seq<Vec<bool>>, vis2: Seq<Vec<bool>>, n: int, r: int)
    requires
        0 <= n <= r,
        n <= vis.len(),
        vis2.len() == vis.len(),
        forall|k: int| 0 <= k < vis.len() && k != r ==> vis2[k]@ == vis[k]@,
    ensures
        unmarked(vis2, n) == unmarked(vis, n),
    decreases n,
{
    if n > 0 {
        lemma_unmarked_same(vis, vis2, n - 1, r);
    }
}

/// Some cell of the grid holds `target`.
pub open spec fn present<T: PartialEq>(grid: Seq<Vec<T>>, target: &T) -> bool {
    exists|r: int, c: int| in_grid(grid, r, c) && #[trigger] holds(grid, r, c, target)
}

/// Cell `(r, c)` waits in `front`.
#[verifier::opaque]
pub open spec fn waiting(front: Seq<(usize, usize)>, r: int, c: int) -> bool {
    front.contains((r as usize, c as usize))
}

/// Cell `(r, c)` is marked or waits in `front`.
pub open spec fn reached(vis: Seq<Vec<bool>>, front: Seq<(usize, usize)>, r: int, c: int) -> bool {
    marked(vis, r, c) || waiting(front, r, c)
}

/// Each in-grid neighbour of a marked cell is marked or waits in `front`.
pub open spec fn closed(vis: Seq<Vec<bool>>, front: Seq<(usize, usize)>, rows: int, cols: int) -> bool {
    forall|r: int, c: int|
        0 <= r < rows && 0 <= c < cols && #[trigger] marked(vis, r, c) ==> {
            &&& r > 0 ==> reached(vis, front, r - 1, c)
            &&& r + 1 < rows ==> reached(vis, front, r + 1, c)
            &&& c > 0 ==> reached(vis, front, r, c - 1)
            &&& c + 1 < cols ==> reached(vis, front, r, c + 1)
        }
}

/// Nothing waits in an empty front.
proof fn lemma_waiting_empty(r: int, c: int)
    ensures
        !waiting(Seq::empty(), r, c),
{
    reveal(waiting);
}

/// Appending `x` to a front adds `x` to what waits there.
proof fn lemma_waiting_push(front: Seq<(usize, usize)>, x: (usize, usize))
    ensures
        forall|r: int, c: int|
            0 <= r <= usize::MAX && 0 <= c <= usize::MAX ==> #[trigger] waiting(front.push(x), r, c) == (
            waiting(front, r, c) || x == (r as usize, c as usize)),
{
    reveal(waiting);
    assert forall|r: int, c: int|
        0 <= r <= usize::MAX && 0 <= c <= usize::MAX implies #[trigger] waiting(front.push(x), r, c) == (
        waiting(front, r, c) || x == (r as usize, c as usize)) by {
        let y = (r as usize, c as usize);
        if front.contains(y) {
            let k = choose|k: int| 0 <= k < front.len() && front[k] == y;
            assert(front.push(x)[k] == y);
        }
        if x == y {
            assert(front.push(x)[front.len() as int] == y);
        }
        if front.push(x).contains(y) && x != y {
            let k = choose|k: int| 0 <= k < front.len() + 1 && front.push(x)[k] == y;
            assert(front[k] == y);
        }
    }
}

/// Taking the first entry off a front leaves every other waiting cell.
proof fn lemma_waiting_pop_front(front: Seq<(usize, usize)>)
    requires
        front.len() > 0,
    ensures
        forall|r: int, c: int|
            0 <= r <= usize::MAX && 0 <= c <= usize::MAX && #[trigger] waiting(front, r, c) && front[0] != (
            r as usize, c as usize) ==> waiting(front.subrange(1, front.len() as int), r, c),
{
    reveal(waiting);
    let rest = front.subrange(1, front.len() as int);
    assert forall|r: int, c: int|
        0 <= r <= usize::MAX && 0 <= c <= usize::MAX && #[trigger] waiting(front, r, c) && front[0] != (
        r as usize, c as usize) implies waiting(rest, r, c) by {
        let y = (r as usize, c as usize);
        let k = choose|k: int| 0 <= k < front.len() && front[k] == y;
        assert(rest[k - 1] == y);
    }
}

/// Taking the last entry off a front leaves every other waiting cell.
proof fn lemma_waiting_pop_back(front: Seq<(usize, usize)>)
    requires
        front.len() > 0,
    ensures
        forall|r: int, c: int|
            0 <= r <= usize::MAX && 0 <= c <= usize::MAX && #[trigger] waiting(front, r, c) && front.last() != (
            r as usize, c as usize) ==> waiting(front.drop_last(), r, c),
{
    reveal(waiting);
    let rest = front.drop_last();
    assert forall|r: int, c: int|
        0 <= r <= usize::MAX && 0 <= c <= usize::MAX && #[trigger] waiting(front, r, c) && front.last() != (
        r as usize, c as usize) implies waiting(rest, r, c) by {
        let y = (r as usize, c as usize);
        let k = choose|k: int| 0 <= k < front.len() && front[k] == y;
        assert(rest[k] == y);
    }
}

/// Dropping a cell that is marked, or off the grid, keeps the table closed.
proof fn lemma_closed_skip(
    vis: Seq<Vec<bool>>,
    front: Seq<(usize, usize)>,
    rest: Seq<(usize, usize)>,
    p: (usize, usize),
    rows: int,
    cols: int,
)
    requires
        closed(vis, front, rows, cols),
        rows <= usize::MAX,
        cols <= usize::MAX,
        forall|r: int, c: int|
            0 <= r <= usize::MAX && 0 <= c <= usize::MAX && #[trigger] waiting(front, r, c) && p != (
            r as usize, c as usize) ==> waiting(rest, r, c),
        p.0 < rows && p.1 < cols ==> marked(vis, p.0 as int, p.1 as int),
    ensures
        closed(vis, rest, rows, cols),
{
    assert forall|r: int, c: int| 0 <= r < rows && 0 <= c < cols && #[trigger] marked(vis, r, c) implies {
        &&& r > 0 ==> reached(vis, rest, r - 1, c)
        &&& r + 1 < rows ==> reached(vis, rest, r + 1, c)
        &&& c > 0 ==> reached(vis, rest, r, c - 1)
        &&& c + 1 < cols ==> reached(vis, rest, r, c + 1)
    } by {
        if r > 0 && !marked(vis, r - 1, c) {
            assert(waiting(front, r - 1, c));
        }
        if r + 1 < rows && !marked(vis, r + 1, c) {
            assert(waiting(front, r + 1, c));
        }
        if c > 0 && !marked(vis, r, c - 1) {
            assert(waiting(front, r, c - 1));
        }
        if c + 1 < cols && !marked(vis, r, c + 1) {
            assert(waiting(front, r, c + 1));
        }
    }
}

/// Marking `p`, taken off the front, and putting its unmarked neighbours
/// into `next` keeps the table closed.
proof fn lemma_closed_visit(
    vis: Seq<Vec<bool>>,
    vis2: Seq<Vec<bool>>,
    front: Seq<(usize, usize)>,
    rest: Seq<(usize, usize)>,
    next: Seq<(usize, usize)>,
    p: (usize, usize),
    rows: int,
    cols: int,
)
    requires
        closed(vis, front, rows, cols),
        rows <= usize::MAX,
        cols <= usize::MAX,
        forall|r: int, c: int|
            0 <= r <= usize::MAX && 0 <= c <= usize::MAX && #[trigger] waiting(front, r, c) && p != (
            r as usize, c as usize) ==> waiting(rest, r, c),
        forall|r: int, c: int|
            0 <= r <= usize::MAX && 0 <= c <= usize::MAX && #[trigger] waiting(rest, r, c) ==> waiting(next, r, c),
        p.0 < rows && p.1 < cols,
        forall|r: int, c: int|
            0 <= r < rows && 0 <= c < cols ==> #[trigger] marked(vis2, r, c) == (marked(vis, r, c) || (r
                == p.0 && c == p.1)),
        p.0 > 0 ==> reached(vis2, next, p.0 - 1, p.1 as int),
        p.0 + 1 < rows ==> reached(vis2, next, p.0 + 1, p.1 as int),
        p.1 > 0 ==> reached(vis2, next, p.0 as int, p.1 - 1),
        p.1 + 1 < cols ==> reached(vis2, next, p.0 as int, p.1 + 1),
    ensures
        closed(vis2, next, rows, cols),
{
    assert forall|r: int, c: int| 0 <= r < rows && 0 <= c < cols && #[trigger] marked(vis2, r, c) implies {
        &&& r > 0 ==> reached(vis2, next, r - 1, c)
        &&& r + 1 < rows ==> reached(vis2, next, r + 1, c)
        &&& c > 0 ==> reached(vis2, next, r, c - 1)
        &&& c + 1 < cols ==> reached(vis2, next, r, c + 1)
    } by {
        if r != p.0 || c != p.1 {
            assert(marked(vis, r, c));
            if r > 0 {
                assert(marked(vis2, r - 1, c) == (marked(vis, r - 1, c) || (r - 1 == p.0 && c == p.1)));
                if !marked(vis, r - 1, c) && !(r - 1 == p.0 && c == p.1) {
                    assert(waiting(front, r - 1, c));
                    assert(waiting(rest, r - 1, c));
                }
            }
            if r + 1 < rows {
                assert(marked(vis2, r + 1, c) == (marked(vis, r + 1, c) || (r + 1 == p.0 && c == p.1)));
                if !marked(vis, r + 1, c) && !(r + 1 == p.0 && c == p.1) {
                    assert(waiting(front, r + 1, c));
                    assert(waiting(rest, r + 1, c));
                }
            }
            if c > 0 {
                assert(marked(vis2, r, c - 1) == (marked(vis, r, c - 1) || (r == p.0 && c - 1 == p.1)));
                if !marked(vis, r, c - 1) && !(r == p.0 && c - 1 == p.1) {
                    assert(waiting(front, r, c - 1));
                    assert(waiting(rest, r, c - 1));
                }
            }
            if c + 1 < cols {
                assert(marked(vis2, r, c + 1) == (marked(vis, r, c + 1) || (r == p.0 && c + 1 == p.1)));
                if !marked(vis, r, c + 1) && !(r == p.0 && c + 1 == p.1) {
                    assert(waiting(front, r, c + 1));
                    assert(waiting(rest, r, c + 1));
                }
            }
        }
    }
}

/// In a closed table with nothing waiting, marks spread along row `r` from
/// a marked cell `(r, c0)`.
proof fn lemma_spread_row(vis: Seq<Vec<bool>>, rows: int, cols: int, r: int, c0: int, c: int)
    requires
        closed(vis, Seq::empty(), rows, cols),
        0 <= r < rows,
        0 <= c0 < cols,
        0 <= c < cols,
        marked(vis, r, c0),
    ensures
        marked(vis, r, c),
    decreases if c >= c0 { c - c0 } else { c0 - c },
{
    if c > c0 {
        lemma_spread_row(vis, rows, cols, r, c0, c - 1);
        lemma_waiting_empty(r, c);
    } else if c < c0 {
        lemma_spread_row(vis, rows, cols, r, c0, c + 1);
        lemma_waiting_empty(r, c);
    }
}

/// The same along column `c`.
proof fn lemma_spread_col(vis: Seq<Vec<bool>>, rows: int, cols: int, r0: int, r: int, c: int)
    requires
        closed(vis, Seq::empty(), rows, cols),
        0 <= r0 < rows,
        0 <= r < rows,
        0 <= c < cols,
        marked(vis, r0, c),
    ensures
        marked(vis, r, c),
    decreases if r >= r0 { r - r0 } else { r0 - r },
{
    if r > r0 {
        lemma_spread_col(vis, rows, cols, r0, r - 1, c);
        lemma_waiting_empty(r, c);
    } else if r < r0 {
        lemma_spread_col(vis, rows, cols, r0, r + 1, c);
        lemma_waiting_empty(r, c);
    }
}

/// A closed table with nothing waiting and one marked cell has every cell
/// marked: the grid is connected.
proof fn lemma_all_marked(vis: Seq<Vec<bool>>, rows: int, cols: int, r0: int, c0: int)
    requires
        closed(vis, Seq::empty(), rows, cols),
        0 <= r0 < rows,
        0 <= c0 < cols,
        marked(vis, r0, c0),
    ensures
        forall|r: int, c: int| 0 <= r < rows && 0 <= c < cols ==> #[trigger] marked(vis, r, c),
{
    assert forall|r: int, c: int| 0 <= r < rows && 0 <= c < cols implies #[trigger] marked(vis, r, c) by {
        lemma_spread_row(vis, rows, cols, r0, c0, c);
        lemma_spread_col(vis, rows, cols, r0, r, c);
    }
}

/// The number of steps between `s` and cell `(r, c)`.
pub open spec fn gap(s: (usize, usize), r: int, c: int) -> int {
    (if r >= s.0 { r - s.0 } else { s.0 - r }) + (if c >= s.1 { c - s.1 } else { s.1 - c })
}

/// Every entry of `front` lies at least `m` steps from `s`.
pub open spec fn all_at_least(front: Seq<(usize, usize)>, s: (usize, usize), m: int) -> bool {
    forall|i: int| 0 <= i < front.len() ==> gap(s, (#[trigger] front[i]).0 as int, front[i].1 as int) >= m
}

/// Every cell fewer than `k` steps from `s` is marked.
pub open spec fn marked_within(vis: Seq<Vec<bool>>, s: (usize, usize), rows: int, cols: int, k: int) -> bool {
    forall|r: int, c: int| 0 <= r < rows && 0 <= c < cols && gap(s, r, c) < k ==> #[trigger] marked(vis, r, c)
}

/// A cell waiting in a front whose entries all lie at least `m` steps away
/// lies at least `m` steps away itself.
proof fn lemma_waiting_far(front: Seq<(usize, usize)>, s: (usize, usize), m: int, r: int, c: int)
    requires
        all_at_least(front, s, m),
        waiting(front, r, c),
        0 <= r <= usize::MAX,
        0 <= c <= usize::MAX,
    ensures
        gap(s, r, c) >= m,
{
    reveal(waiting);
    let k = choose|k: int| 0 <= k < front.len() && front[k] == (r as usize, c as usize);
    assert(gap(s, front[k].0 as int, front[k].1 as int) >= m);
}

/// In a closed table where every cell fewer than `k` steps from `s` is
/// marked, `s` is reached, and everything waiting lies more than `k` steps
/// away, every cell `k` steps away is marked too.
proof fn lemma_next_layer(
    vis: Seq<Vec<bool>>,
    front: Seq<(usize, usize)>,
    rows: int,
    cols: int,
    s: (usize, usize),
    k: int,
)
    requires
        closed(vis, front, rows, cols),
        rows <= usize::MAX,
        cols <= usize::MAX,
        s.0 < rows && s.1 < cols,
        reached(vis, front, s.0 as int, s.1 as int),
        marked_within(vis, s, rows, cols, k),
        all_at_least(front, s, k + 1),
        k >= 0,
    ensures
        marked_within(vis, s, rows, cols, k + 1),
{
    assert forall|r: int, c: int| 0 <= r < rows && 0 <= c < cols && gap(s, r, c) < k + 1 implies #[trigger] marked(vis, r, c) by {
        if gap(s, r, c) == k {
            if r == s.0 && c == s.1 {
                if !marked(vis, r, c) {
                    lemma_waiting_far(front, s, k + 1, r, c);
                }
            } else {
                if r > s.0 {
                    assert(marked(vis, r - 1, c));
                } else if r < s.0 {
                    assert(marked(vis, r + 1, c));
                } else if c > s.1 {
                    assert(marked(vis, r, c - 1));
                } else {
                    assert(marked(vis, r, c + 1));
                }
                if !marked(vis, r, c) {
                    lemma_waiting_far(front, s, k + 1, r, c);
                }
            }
        }
    }
}

/// The front is ordered by distance from `s`, spans at most two distances,
/// and every cell closer to `s` than its first entry is marked.
pub open spec fn layered(vis: Seq<Vec<bool>>, front: Seq<(usize, usize)>, s: (usize, usize), rows: int, cols: int) -> bool {
    &&& forall|i: int, j: int|
        0 <= i < j < front.len() ==> gap(s, (#[trigger] front[i]).0 as int, front[i].1 as int) <= gap(
            s,
            (#[trigger] front[j]).0 as int,
            front[j].1 as int,
        )
    &&& front.len() > 0 ==> {
        &&& forall|i: int|
            0 <= i < front.len() ==> gap(s, (#[trigger] front[i]).0 as int, front[i].1 as int) <= gap(
                s,
                front[0].0 as int,
                front[0].1 as int,
            ) + 1
        &&& marked_within(vis, s, rows, cols, gap(s, front[0].0 as int, front[0].1 as int))
    }
}

/// After taking the first entry, `k` steps from `s`, off a layered front and
/// appending only cells `k + 1` steps away, the front is layered again.
proof fn lemma_layered_next(
    vis: Seq<Vec<bool>>,
    vis2: Seq<Vec<bool>>,
    front: Seq<(usize, usize)>,
    next: Seq<(usize, usize)>,
    rows: int,
    cols: int,
    s: (usize, usize),
)
    requires
        front.len() > 0,
        layered(vis, front, s, rows, cols),
        closed(vis2, next, rows, cols),
        rows <= usize::MAX,
        cols <= usize::MAX,
        s.0 < rows && s.1 < cols,
        reached(vis2, next, s.0 as int, s.1 as int),
        forall|r: int, c: int| 0 <= r < rows && 0 <= c < cols && #[trigger] marked(vis, r, c) ==> marked(vis2, r, c),
        next.len() >= front.len() - 1,
        forall|i: int| 0 <= i < front.len() - 1 ==> #[trigger] next[i] == front[i + 1],
        forall|i: int|
            front.len() - 1 <= i < next.len() ==> gap(s, (#[trigger] next[i]).0 as int, next[i].1 as int) == gap(
                s,
                front[0].0 as int,
                front[0].1 as int,
            ) + 1,
    ensures
        layered(vis2, next, s, rows, cols),
{
    let k = gap(s, front[0].0 as int, front[0].1 as int);
    assert forall|i: int| 0 <= i < next.len() implies k <= gap(s, (#[trigger] next[i]).0 as int, next[i].1 as int)
        <= k + 1 by {
        if i < front.len() - 1 {
            assert(next[i] == front[i + 1]);
            assert(gap(s, front[0].0 as int, front[0].1 as int) <= gap(s, front[i + 1].0 as int, front[i + 1].1 as int));
        }
    }
    assert forall|i: int, j: int|
        0 <= i < j < next.len() implies gap(s, (#[trigger] next[i]).0 as int, next[i].1 as int) <= gap(
            s,
            (#[trigger] next[j]).0 as int,
            next[j].1 as int,
        ) by {
        if j < front.len() - 1 {
            assert(next[i] == front[i + 1] && next[j] == front[j + 1]);
            assert(gap(s, front[i + 1].0 as int, front[i + 1].1 as int) <= gap(s, front[j + 1].0 as int, front[j + 1].1 as int));
        }
        assert(k <= gap(s, next[i].0 as int, next[i].1 as int) <= k + 1);
    }
    assert(marked_within(vis2, s, rows, cols, k)) by {
        assert forall|r: int, c: int| 0 <= r < rows && 0 <= c < cols && gap(s, r, c) < k implies #[trigger] marked(vis2, r, c) by {
            assert(marked(vis, r, c));
        }
    }
    if next.len() > 0 {
        let m = gap(s, next[0].0 as int, next[0].1 as int);
        assert(k <= m <= k + 1);
        if m == k + 1 {
            assert forall|i: int| 0 <= i < next.len() implies gap(s, (#[trigger] next[i]).0 as int, next[i].1 as int) >= k + 1 by {
                if i > 0 {
                    assert(gap(s, next[0].0 as int, next[0].1 as int) <= gap(s, next[i].0 as int, next[i].1 as int));
                }
            }
            lemma_next_layer(vis2, next, rows, cols, s, k);
        }
        assert forall|i: int| 0 <= i < next.len() implies gap(s, (#[trigger] next[i]).0 as int, next[i].1 as int) <= m + 1 by {
            assert(k <= gap(s, next[i].0 as int, next[i].1 as int) <= k + 1);
        }
    }
}

/// Whether `x == y` by `T`'s own `==`.
fn same<T: PartialEq>(x: &T, y: &T) -> (r: bool)
    ensures
        T::obeys_eq_spec() ==> r == x.eq_spec(y),
{
    x == y
}

/// A `rows` by `cols` table with no mark.
fn new_table(rows: usize, cols: usize) -> (r: Vec<Vec<bool>>)
    ensures
        table(r@, rows as int, cols as int),
        forall|i: int, j: int| 0 <= i < rows && 0 <= j < cols ==> !#[trigger] marked(r@, i, j),
{
    let mut t: Vec<Vec<bool>> = Vec::new();
    let mut i: usize = 0;
    while i < rows
        invariant
            i <= rows,
            t@.len() == i,
            forall|k: int| 0 <= k < i ==> (#[trigger] t@[k])@.len() == cols,
            forall|k: int, j: int| 0 <= k < i && 0 <= j < cols ==> !#[trigger] marked(t@, k, j),
        decreases rows - i,
    {
        let mut row: Vec<bool> = Vec::new();
        let mut j: usize = 0;
        while j < cols
            invariant
                j <= cols,
                row@.len() == j,
                forall|k: int| 0 <= k < j ==> !#[trigger] row@[k],
            decreases cols - j,
        {
            row.push(false);
            j += 1;
        }
        let ghost before = t@;
        let ghost new_row = row@;
        t.push(row);
        assert forall|k: int, j: int| 0 <= k < i + 1 && 0 <= j < cols implies !#[trigger] marked(t@, k, j) by {
            if k < i {
                assert(t@[k] == before[k]);
                assert(!marked(before, k, j));
            } else {
                assert(t@[k]@ == new_row);
                assert(!new_row[j]);
            }
        }
        i += 1;
    }
    t
}

/// Breadth-first search of the grid from `start`, over the four neighbours
/// up, down, left and right, for a cell equal to `target`; returns whether
/// one was found and the first one reached. The grid has no walls, so from
/// a `start` inside it the search finds `target` exactly when some cell
/// holds it; a `start` off the grid finds nothing.
#[verifier::rlimit(100)]
pub fn bfs_grid<T: PartialEq>(grid: &[Vec<T>], start: (usize, usize), target: &T) -> (r: (
    bool,
    Option<(usize, usize)>,
))
    requires
        rectangular(grid@),
    ensures
        sound_result(grid@, target, r),
        T::obeys_eq_spec() && in_grid(grid@, start.0 as int, start.1 as int) ==> (r.0 <==> present(
            grid@,
            target,
        )),
        !in_grid(grid@, start.0 as int, start.1 as int) ==> !r.0,
        T::obeys_eq_spec() && in_grid(grid@, start.0 as int, start.1 as int) ==> (r.1 matches Some(p)
            ==> forall|a: int, b: int|
            in_grid(grid@, a, b) && #[trigger] holds(grid@, a, b, target) ==> gap(start, p.0 as int, p.1 as int)
                <= gap(start, a, b)),
{
    let rows = grid.len();
    let cols = grid[0].len();
    let mut visited = new_table(rows, cols);
    let mut queue: VecDeque<(usize, usize)> = VecDeque::new();
    queue.push_back(start);
    proof {
        lemma_waiting_push(Seq::empty(), start);
        assert(queue@ =~= Seq::<(usize, usize)>::empty().push(start));
    }
    loop
        invariant
            rows == grid@.len(),
            cols == grid@[0]@.len(),
            rectangular(grid@),
            table(visited@, rows as int, cols as int),
            !in_grid(grid@, start.0 as int, start.1 as int) ==> forall|k: int|
                0 <= k < queue@.len() ==> #[trigger] queue@[k] == start,
            closed(visited@, queue@, rows as int, cols as int),
            in_grid(grid@, start.0 as int, start.1 as int) ==> reached(
                visited@,
                queue@,
                start.0 as int,
                start.1 as int,
            ),
            T::obeys_eq_spec() ==> forall|r: int, c: int|
                in_grid(grid@, r, c) && #[trigger] marked(visited@, r, c) ==> !holds(grid@, r, c, target),
            in_grid(grid@, start.0 as int, start.1 as int) ==> layered(
                visited@,
                queue@,
                start,
                rows as int,
                cols as int,
            ),
        ensures
            table(visited@, rows as int, cols as int),
            closed(visited@, Seq::empty(), rows as int, cols as int),
            in_grid(grid@, start.0 as int, start.1 as int) ==> marked(
                visited@,
                start.0 as int,
                start.1 as int,
            ),
            T::obeys_eq_spec() ==> forall|r: int, c: int|
                in_grid(grid@, r, c) && #[trigger] marked(visited@, r, c) ==> !holds(grid@, r, c, target),
        decreases unmarked(visited@, rows as int), queue@.len(),
    {
        let ghost vis = visited@;
        let ghost front = queue@;
        match queue.pop_front() {
            None => {
                proof {
                    assert(queue@ =~= Seq::<(usize, usize)>::empty());
                    lemma_waiting_empty(start.0 as int, start.1 as int);
                }
                break;
            },
            Some(p) => {
                let (row, col) = p;
                let ghost rest = queue@;
                let ghost k = gap(start, row as int, col as int);
                let ghost on_grid = in_grid(grid@, start.0 as int, start.1 as int);
                proof {
                    lemma_waiting_pop_front(front);
                    assert(rest == front.subrange(1, front.len() as int));
                }
                if row >= rows || col >= cols || visited[row][col] {
                    proof {
                        lemma_closed_skip(vis, front, rest, p, rows as int, cols as int);
                        if on_grid {
                            assert(reached(vis, rest, start.0 as int, start.1 as int));
                            lemma_layered_next(vis, vis, front, rest, rows as int, cols as int, start);
                        }
                    }
                    continue;
                }
                visited[row][col] = true;
                proof {
                    lemma_unmarked_mark(vis, visited@, rows as int, row as int, col as int);
                    assert forall|r: int, c: int| 0 <= r < rows && 0 <= c < cols implies #[trigger] marked(
                        visited@,
                        r,
                        c,
                    ) == (marked(vis, r, c) || (r == row && c == col)) by {
                        if r != row {
                            assert(visited@[r] == vis[r]);
                        }
                    }
                }
                if same(&grid[row][col], target) {
                    proof {
                        if on_grid && T::obeys_eq_spec() {
                            assert forall|a: int, b: int|
                                in_grid(grid@, a, b) && #[trigger] holds(grid@, a, b, target) implies k <= gap(start, a, b) by {
                                if gap(start, a, b) < k {
                                    assert(marked(vis, a, b));
                                }
                            }
                        }
                    }
                    return (true, Some((row, col)));
                }
                if row > 0 && !visited[row - 1][col] {
                    let ghost q0 = queue@;
                    let n = (row - 1, col);
                    proof {
                        if on_grid && gap(start, n.0 as int, n.1 as int) < k {
                            assert(marked(vis, n.0 as int, n.1 as int));
                        }
                    }
                    queue.push_back(n);
                    proof { lemma_waiting_push(q0, n); }
                }
                assert(on_grid ==> queue@.len() >= rest.len() && (forall|i: int| 0 <= i < rest.len() ==> #[trigger] queue@[i] == rest[i])
                    && (forall|i: int| rest.len() <= i < queue@.len() ==> gap(start, (#[trigger] queue@[i]).0 as int, queue@[i].1 as int) == k + 1));
                assert(forall|r: int, c: int|
                    0 <= r <= usize::MAX && 0 <= c <= usize::MAX && #[trigger] waiting(rest, r, c) ==> waiting(queue@, r, c));
                if row + 1 < rows && !visited[row + 1][col] {
                    let ghost q0 = queue@;
                    let n = (row + 1, col);
                    proof {
                        if on_grid && gap(start, n.0 as int, n.1 as int) < k {
                            assert(marked(vis, n.0 as int, n.1 as int));
                        }
                    }
                    queue.push_back(n);
                    proof { lemma_waiting_push(q0, n); }
                }
                assert(on_grid ==> queue@.len() >= rest.len() && (forall|i: int| 0 <= i < rest.len() ==> #[trigger] queue@[i] == rest[i])
                    && (forall|i: int| rest.len() <= i < queue@.len() ==> gap(start, (#[trigger] queue@[i]).0 as int, queue@[i].1 as int) == k + 1));
                assert(forall|r: int, c: int|
                    0 <= r <= usize::MAX && 0 <= c <= usize::MAX && #[trigger] waiting(rest, r, c) ==> waiting(queue@, r, c));
                if col > 0 && !visited[row][col - 1] {
                    let ghost q0 = queue@;
                    let n = (row, col - 1);
                    proof {
                        if on_grid && gap(start, n.0 as int, n.1 as int) < k {
                            assert(marked(vis, n.0 as int, n.1 as int));
                        }
                    }
                    queue.push_back(n);
                    proof { lemma_waiting_push(q0, n); }
                }
                assert(on_grid ==> queue@.len() >= rest.len() && (forall|i: int| 0 <= i < rest.len() ==> #[trigger] queue@[i] == rest[i])
                    && (forall|i: int| rest.len() <= i < queue@.len() ==> gap(start, (#[trigger] queue@[i]).0 as int, queue@[i].1 as int) == k + 1));
                assert(forall|r: int, c: int|
                    0 <= r <= usize::MAX && 0 <= c <= usize::MAX && #[trigger] waiting(rest, r, c) ==> waiting(queue@, r, c));
                if col + 1 < cols && !visited[row][col + 1] {
                    let ghost q0 = queue@;
                    let n = (row, col + 1);
                    proof {
                        if on_grid && gap(start, n.0 as int, n.1 as int) < k {
                            assert(marked(vis, n.0 as int, n.1 as int));
                        }
                    }
                    queue.push_back(n);
                    proof { lemma_waiting_push(q0, n); }
                }
                assert(on_grid ==> queue@.len() >= rest.len() && (forall|i: int| 0 <= i < rest.len() ==> #[trigger] queue@[i] == rest[i])
                    && (forall|i: int| rest.len() <= i < queue@.len() ==> gap(start, (#[trigger] queue@[i]).0 as int, queue@[i].1 as int) == k + 1));
                assert(forall|r: int, c: int|
                    0 <= r <= usize::MAX && 0 <= c <= usize::MAX && #[trigger] waiting(rest, r, c) ==> waiting(queue@, r, c));
                proof {
                    lemma_closed_visit(vis, visited@, front, rest, queue@, p, rows as int, cols as int);
                    if on_grid {
                        assert(reached(visited@, queue@, start.0 as int, start.1 as int));
                        lemma_layered_next(vis, visited@, front, queue@, rows as int, cols as int, start);
                    }
                }
            },
        }
    }
    proof {
        if in_grid(grid@, start.0 as int, start.1 as int) {
            lemma_all_marked(visited@, rows as int, cols as int, start.0 as int, start.1 as int);
            if T::obeys_eq_spec() {
                assert forall|r: int, c: int| in_grid(grid@, r, c) implies !#[trigger] holds(grid@, r, c, target) by {
                    assert(marked(visited@, r, c));
                }
            }
        }
    }
    (false, None)
}

/// Depth-first search of the grid from `start`, over the four neighbours
/// (the last one put on the stack is tried first), for a cell equal to
/// `target`; returns whether one was found and the first one reached. The grid has no walls, so from
/// a `start` inside it the search finds `target` exactly when some cell
/// holds it; a `start` off the grid finds nothing.
#[verifier::rlimit(100)]
pub fn dfs_grid<T: PartialEq>(grid: &[Vec<T>], start: (usize, usize), target: &T) -> (r: (
    bool,
    Option<(usize, usize)>,
))
    requires
        rectangular(grid@),
    ensures
        sound_result(grid@, target, r),
        T::obeys_eq_spec() && in_grid(grid@, start.0 as int, start.1 as int) ==> (r.0 <==> present(
            grid@,
            target,
        )),
        !in_grid(grid@, start.0 as int, start.1 as int) ==> !r.0,
{
    let rows = grid.len();
    let cols = grid[0].len();
    let mut visited = new_table(rows, cols);
    let mut stack: Vec<(usize, usize)> = Vec::new();
    stack.push(start);
    proof {
        lemma_waiting_push(Seq::empty(), start);
        assert(stack@ =~= Seq::<(usize, usize)>::empty().push(start));
    }
    loop
        invariant
            rows == grid@.len(),
            cols == grid@[0]@.len(),
            rectangular(grid@),
            table(visited@, rows as int, cols as int),
            !in_grid(grid@, start.0 as int, start.1 as int) ==> forall|k: int|
                0 <= k < stack@.len() ==> #[trigger] stack@[k] == start,
            closed(visited@, stack@, rows as int, cols as int),
            in_grid(grid@, start.0 as int, start.1 as int) ==> reached(
                visited@,
                stack@,
                start.0 as int,
                start.1 as int,
            ),
            T::obeys_eq_spec() ==> forall|r: int, c: int|
                in_grid(grid@, r, c) && #[trigger] marked(visited@, r, c) ==> !holds(grid@, r, c, target),
        ensures
            table(visited@, rows as int, cols as int),
            closed(visited@, Seq::empty(), rows as int, cols as int),
            in_grid(grid@, start.0 as int, start.1 as int) ==> marked(
                visited@,
                start.0 as int,
                start.1 as int,
            ),
            T::obeys_eq_spec() ==> forall|r: int, c: int|
                in_grid(grid@, r, c) && #[trigger] marked(visited@, r, c) ==> !holds(grid@, r, c, target),
        decreases unmarked(visited@, rows as int), stack@.len(),
    {
        let ghost vis = visited@;
        let ghost front = stack@;
        match stack.pop() {
            None => {
                proof {
                    assert(stack@ =~= Seq::<(usize, usize)>::empty());
                    lemma_waiting_empty(start.0 as int, start.1 as int);
                }
                break;
            },
            Some(p) => {
                let (row, col) = p;
                let ghost rest = stack@;
                proof {
                    lemma_waiting_pop_back(front);
                    assert(rest == front.drop_last());
                }
                if row >= rows || col >= cols || visited[row][col] {
                    proof {
                        lemma_closed_skip(vis, front, rest, p, rows as int, cols as int);
                    }
                    continue;
                }
                visited[row][col] = true;
                proof {
                    lemma_unmarked_mark(vis, visited@, rows as int, row as int, col as int);
                    assert forall|r: int, c: int| 0 <= r < rows && 0 <= c < cols implies #[trigger] marked(
                        visited@,
                        r,
                        c,
                    ) == (marked(vis, r, c) || (r == row && c == col)) by {
                        if r != row {
                            assert(visited@[r] == vis[r]);
                        }
                    }
                }
                if same(&grid[row][col], target) {
                    return (true, Some((row, col)));
                }
                if row > 0 && !visited[row - 1][col] {
                    let ghost q0 = stack@;
                    let n = (row - 1, col);
                    stack.push(n);
                    proof { lemma_waiting_push(q0, n); }
                }
                assert(forall|r: int, c: int|
                    0 <= r <= usize::MAX && 0 <= c <= usize::MAX && #[trigger] waiting(rest, r, c) ==> waiting(stack@, r, c));
                if row + 1 < rows && !visited[row + 1][col] {
                    let ghost q0 = stack@;
                    let n = (row + 1, col);
                    stack.push(n);
                    proof { lemma_waiting_push(q0, n); }
                }
                assert(forall|r: int, c: int|
                    0 <= r <= usize::MAX && 0 <= c <= usize::MAX && #[trigger] waiting(rest, r, c) ==> waiting(stack@, r, c));
                if col > 0 && !visited[row][col - 1] {
                    let ghost q0 = stack@;
                    let n = (row, col - 1);
                    stack.push(n);
                    proof { lemma_waiting_push(q0, n); }
                }
                assert(forall|r: int, c: int|
                    0 <= r <= usize::MAX && 0 <= c <= usize::MAX && #[trigger] waiting(rest, r, c) ==> waiting(stack@, r, c));
                if col + 1 < cols && !visited[row][col + 1] {
                    let ghost q0 = stack@;
                    let n = (row, col + 1);
                    stack.push(n);
                    proof { lemma_waiting_push(q0, n); }
                }
                assert(forall|r: int, c: int|
                    0 <= r <= usize::MAX && 0 <= c <= usize::MAX && #[trigger] waiting(rest, r, c) ==> waiting(stack@, r, c));
                proof {
                    lemma_closed_visit(vis, visited@, front, rest, stack@, p, rows as int, cols as int);
                }
            },
        }
    }
    proof {
        if in_grid(grid@, start.0 as int, start.1 as int) {
            lemma_all_marked(visited@, rows as int, cols as int, start.0 as int, start.1 as int);
            if T::obeys_eq_spec() {
                assert forall|r: int, c: int| in_grid(grid@, r, c) implies !#[trigger] holds(grid@, r, c, target) by {
                    assert(marked(visited@, r, c));
                }
            }
        }
    }
    (false, None)
}

/// Every cell of the grid marked in `v1` is marked in `v2`.
pub open spec fn grows(v1: Seq<Vec<bool>>, v2: Seq<Vec<bool>>, rows: int, cols: int) -> bool {
    forall|r: int, c: int| 0 <= r < rows && 0 <= c < cols && #[trigger] marked(v1, r, c) ==> marked(v2, r, c)
}

/// Every cell marked in `v2` but not in `v1` was looked at and does not hold
/// `target`.
pub open spec fn checked<T: PartialEq>(v1: Seq<Vec<bool>>, v2: Seq<Vec<bool>>, grid: Seq<Vec<T>>, target: &T) -> bool {
    forall|r: int, c: int|
        in_grid(grid, r, c) && #[trigger] marked(v2, r, c) && !marked(v1, r, c) ==> !holds(grid, r, c, target)
}

/// Every in-grid neighbour of `p` is marked.
pub open spec fn around_marked(v: Seq<Vec<bool>>, p: (usize, usize), rows: int, cols: int) -> bool {
    &&& p.0 > 0 ==> marked(v, p.0 - 1, p.1 as int)
    &&& p.0 + 1 < rows ==> marked(v, p.0 + 1, p.1 as int)
    &&& p.1 > 0 ==> marked(v, p.0 as int, p.1 - 1)
    &&& p.1 + 1 < cols ==> marked(v, p.0 as int, p.1 + 1)
}

proof fn lemma_marks_chain<T: PartialEq>(
    v0: Seq<Vec<bool>>,
    v1: Seq<Vec<bool>>,
    v2: Seq<Vec<bool>>,
    grid: Seq<Vec<T>>,
    target: &T,
)
    requires
        grows(v0, v1, grid.len() as int, grid[0]@.len() as int),
        grows(v1, v2, grid.len() as int, grid[0]@.len() as int),
        T::obeys_eq_spec() ==> checked(v0, v1, grid, target),
        T::obeys_eq_spec() ==> checked(v1, v2, grid, target),
    ensures
        grows(v0, v2, grid.len() as int, grid[0]@.len() as int),
        T::obeys_eq_spec() ==> checked(v0, v2, grid, target),
{
    if T::obeys_eq_spec() {
        assert forall|r: int, c: int|
            in_grid(grid, r, c) && #[trigger] marked(v2, r, c) && !marked(v0, r, c) implies !holds(grid, r, c, target) by {
            if marked(v1, r, c) {
                assert(!holds(grid, r, c, target));
            }
        }
    }
}

/// The number of steps up, down, left or right between two cells.
pub open spec fn steps_between(p: (usize, usize), q: (usize, usize)) -> int {
    (if p.0 >= q.0 { p.0 - q.0 } else { q.0 - p.0 }) + (if p.1 >= q.1 { p.1 - q.1 } else { q.1 - p.1 })
}

/// Depth-first search from `position` that goes at most `depth` cells deep
/// (depth 0 visits nothing), marking each cell it enters in `visited` and
/// recording it in `visited_positions`; returns the first cell found that
/// equals `target`. A depth of 0, a cell off the grid or an already marked
/// cell gives `None` and changes nothing. A cell found lies fewer than
/// `depth` steps from `position`, is marked, and is the last one recorded.
fn depth_limited_dfs_grid<T: PartialEq>(
    grid: &[Vec<T>],
    position: (usize, usize),
    target: &T,
    depth: usize,
    visited: &mut Vec<Vec<bool>>,
    visited_positions: &mut Vec<(usize, usize)>,
) -> (r: Option<(usize, usize)>)
    requires
        rectangular(grid@),
        table(old(visited)@, grid@.len() as int, grid@[0]@.len() as int),
    ensures
        table(final(visited)@, grid@.len() as int, grid@[0]@.len() as int),
        sound_result(grid@, target, (r is Some, r)),
        !in_grid(grid@, position.0 as int, position.1 as int) ==> r is None,
        depth == 0 || !in_grid(grid@, position.0 as int, position.1 as int) || marked(
            old(visited)@,
            position.0 as int,
            position.1 as int,
        ) ==> {
            &&& r is None
            &&& final(visited)@ == old(visited)@
            &&& final(visited_positions)@ == old(visited_positions)@
        },
        r matches Some(p) ==> {
            &&& steps_between(position, p) < depth
            &&& marked(final(visited)@, p.0 as int, p.1 as int)
            &&& final(visited_positions)@.len() > 0
            &&& final(visited_positions)@.last() == p
        },
        T::obeys_eq_spec() && depth > 0 && in_grid(grid@, position.0 as int, position.1 as int) && !marked(
            old(visited)@,
            position.0 as int,
            position.1 as int,
        ) && holds(grid@, position.0 as int, position.1 as int, target) ==> r == Some(position),
        grows(old(visited)@, final(visited)@, grid@.len() as int, grid@[0]@.len() as int),
        T::obeys_eq_spec() && r is None ==> checked(old(visited)@, final(visited)@, grid@, target),
        r is None && depth >= 1 && in_grid(grid@, position.0 as int, position.1 as int) ==> marked(
            final(visited)@,
            position.0 as int,
            position.1 as int,
        ),
        r is None && depth >= 2 && in_grid(grid@, position.0 as int, position.1 as int) && !marked(
            old(visited)@,
            position.0 as int,
            position.1 as int,
        ) ==> around_marked(final(visited)@, position, grid@.len() as int, grid@[0]@.len() as int),
    decreases depth,
{
    let rows = grid.len();
    let cols = grid[0].len();
    let (row, col) = position;
    if depth == 0 || row >= rows || col >= cols || visited[row][col] {
        return None;
    }
    let ghost vis0 = visited@;
    visited[row][col] = true;
    proof {
        assert forall|r: int, c: int| 0 <= r < rows && 0 <= c < cols implies #[trigger] marked(visited@, r, c) == (
        marked(vis0, r, c) || (r == row && c == col)) by {
            if r != row {
                assert(visited@[r] == vis0[r]);
            }
        }
    }
    visited_positions.push((row, col));
    if same(&grid[row][col], target) {
        return Some(position);
    }
    assert(grows(vis0, visited@, rows as int, cols as int));
    assert(T::obeys_eq_spec() ==> checked(vis0, visited@, grid@, target));
    assert(marked(visited@, row as int, col as int));
    if row > 0 && !visited[row - 1][col] {
        let ghost vb = visited@;
        if let Some(found) = depth_limited_dfs_grid(grid, (row - 1, col), target, depth - 1, visited, visited_positions) {
            return Some(found);
        }
        proof { lemma_marks_chain(vis0, vb, visited@, grid@, target); }
    }
    assert((marked(visited@, row as int, col as int)) && (depth >= 2 ==> (row > 0 ==> marked(visited@, row - 1, col as int))));
    if row + 1 < rows && !visited[row + 1][col] {
        let ghost vb = visited@;
        if let Some(found) = depth_limited_dfs_grid(grid, (row + 1, col), target, depth - 1, visited, visited_positions) {
            return Some(found);
        }
        proof { lemma_marks_chain(vis0, vb, visited@, grid@, target); }
    }
    assert((marked(visited@, row as int, col as int)) && (depth >= 2 ==> (row > 0 ==> marked(visited@, row - 1, col as int))) && (depth >= 2 ==> (row + 1 < rows ==> marked(visited@, row + 1, col as int))));
    if col > 0 && !visited[row][col - 1] {
        let ghost vb = visited@;
        if let Some(found) = depth_limited_dfs_grid(grid, (row, col - 1), target, depth - 1, visited, visited_positions) {
            return Some(found);
        }
        proof { lemma_marks_chain(vis0, vb, visited@, grid@, target); }
    }
    assert((marked(visited@, row as int, col as int)) && (depth >= 2 ==> (row > 0 ==> marked(visited@, row - 1, col as int))) && (depth >= 2 ==> (row + 1 < rows ==> marked(visited@, row + 1, col as int))) && (depth >= 2 ==> (col > 0 ==> marked(visited@, row as int, col - 1))));
    if col + 1 < cols && !visited[row][col + 1] {
        let ghost vb = visited@;
        if let Some(found) = depth_limited_dfs_grid(grid, (row, col + 1), target, depth - 1, visited, visited_positions) {
            return Some(found);
        }
        proof { lemma_marks_chain(vis0, vb, visited@, grid@, target); }
    }
    assert((marked(visited@, row as int, col as int)) && (depth >= 2 ==> (row > 0 ==> marked(visited@, row - 1, col as int))) && (depth >= 2 ==> (row + 1 < rows ==> marked(visited@, row + 1, col as int))) && (depth >= 2 ==> (col > 0 ==> marked(visited@, row as int, col - 1))) && (depth >= 2 ==> (col + 1 < cols ==> marked(visited@, row as int, col + 1))));
    None
}

/// Iterative deepening: depth-limited searches from `start` with limits 0,
/// 1, ..., `max_depth`, each with fresh marks; returns whether one found a
/// cell equal to `target`, and that cell, which lies fewer than `max_depth`
/// steps from `start`. Where `start` itself holds `target` and `max_depth`
/// is at least 1, that is the cell found; with `max_depth` at least 2, a
/// cell holding `target` one step from `start` is never missed.
pub fn iterative_deepening_dfs_grid<T: PartialEq>(
    grid: &[Vec<T>],
    start: (usize, usize),
    target: &T,
    max_depth: usize,
) -> (r: (bool, Option<(usize, usize)>))
    requires
        rectangular(grid@),
    ensures
        sound_result(grid@, target, r),
        !in_grid(grid@, start.0 as int, start.1 as int) ==> !r.0,
        r.1 matches Some(p) ==> steps_between(start, p) < max_depth,
        T::obeys_eq_spec() && max_depth >= 1 && in_grid(grid@, start.0 as int, start.1 as int) && holds(
            grid@,
            start.0 as int,
            start.1 as int,
            target,
        ) ==> r == (true, Some(start)),
        T::obeys_eq_spec() && max_depth >= 2 && in_grid(grid@, start.0 as int, start.1 as int) && !r.0
            ==> forall|a: int, b: int|
            in_grid(grid@, a, b) && gap(start, a, b) <= 1 ==> !#[trigger] holds(grid@, a, b, target),
{
    let mut depth: usize = 0;
    loop
        invariant
            depth <= max_depth,
            rectangular(grid@),
            depth >= 2 ==> !(T::obeys_eq_spec() && in_grid(grid@, start.0 as int, start.1 as int) && holds(
                grid@,
                start.0 as int,
                start.1 as int,
                target,
            )),
            depth >= 3 ==> (T::obeys_eq_spec() && in_grid(grid@, start.0 as int, start.1 as int) ==> forall|
                a: int,
                b: int,
            | in_grid(grid@, a, b) && gap(start, a, b) <= 1 ==> !#[trigger] holds(grid@, a, b, target)),
        decreases max_depth - depth,
    {
        let mut visited = new_table(grid.len(), grid[0].len());
        let ghost fresh = visited@;
        let mut visited_positions: Vec<(usize, usize)> = Vec::new();
        if let Some(position) = depth_limited_dfs_grid(grid, start, target, depth, &mut visited, &mut visited_positions) {
            return (true, Some(position));
        }
        proof {
            if depth >= 2 && T::obeys_eq_spec() && in_grid(grid@, start.0 as int, start.1 as int) {
                assert(!marked(fresh, start.0 as int, start.1 as int));
                assert forall|a: int, b: int| in_grid(grid@, a, b) && gap(start, a, b) <= 1 implies !#[trigger] holds(
                    grid@,
                    a,
                    b,
                    target,
                ) by {
                    assert(!marked(fresh, a, b));
                    assert(marked(visited@, a, b));
                }
            }
        }
        if depth == max_depth {
            return (false, None);
        }
        depth += 1;
    }
}

} // verus!
