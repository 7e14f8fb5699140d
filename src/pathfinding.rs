use vstd::prelude::*;
use crate::grid_search::{in_grid, rectangular};

verus! {

/// `p` and `q` are one step apart: up, down, left or right.
pub open spec fn adjacent(p: (usize, usize), q: (usize, usize)) -> bool {
    ||| p.0 == q.0 && (p.1 + 1 == q.1 || q.1 + 1 == p.1)
    ||| p.1 == q.1 && (p.0 + 1 == q.0 || q.0 + 1 == p.0)
}

/// `path` walks from `start` to `goal` in single steps over cells of the
/// grid, each cell after the first one allowed by `open`.
pub open spec fn walk_from_to<T>(
    grid: Seq<Vec<T>>,
    path: Seq<(usize, usize)>,
    start: (usize, usize),
    goal: (usize, usize),
    open: spec_fn((usize, usize)) -> bool,
) -> bool {
    &&& path.len() > 0
    &&& path[0] == start
    &&& path.last() == goal
    &&& forall|k: int| 0 <= k < path.len() ==> in_grid(grid, (#[trigger] path[k]).0 as int, path[k].1 as int)
    &&& forall|k: int| 0 < k < path.len() ==> open(#[trigger] path[k])
    &&& forall|k: int| 0 <= k < path.len() - 1 ==> adjacent(#[trigger] path[k], path[k + 1])
}

/// A `rows` by `cols` table.
pub open spec fn dims<V>(t: Seq<Vec<V>>, rows: int, cols: int) -> bool {
    &&& t.len() == rows
    &&& forall|r: int| 0 <= r < rows ==> (#[trigger] t[r])@.len() == cols
}

/// The predecessor recorded for cell `(r, c)`.
pub open spec fn link(came: Seq<Vec<Option<(usize, usize)>>>, r: int, c: int) -> Option<(usize, usize)> {
    came[r]@[c]
}

/// Every recorded predecessor is a cell of the grid one step away, and the
/// cell it leads to is allowed by `open`.
pub open spec fn links_ok<T>(
    grid: Seq<Vec<T>>,
    came: Seq<Vec<Option<(usize, usize)>>>,
    open: spec_fn((usize, usize)) -> bool,
) -> bool {
    forall|r: int, c: int|
        in_grid(grid, r, c) && (#[trigger] link(came, r, c)) is Some ==> {
            let p = link(came, r, c)->0;
            &&& in_grid(grid, p.0 as int, p.1 as int)
            &&& adjacent(p, (r as usize, c as usize))
            &&& open((r as usize, c as usize))
        }
}

/// The sum of a row of costs.
pub open spec fn row_total(s: Seq<usize>) -> int
    decreases s.len(),
{
    if s.len() == 0 {
        0
    } else {
        row_total(s.drop_last()) + s.last()
    }
}

/// The sum of the costs in the first `n` rows.
pub open spec fn table_total(t: Seq<Vec<usize>>, n: int) -> int
    decreases n,
{
    if n <= 0 {
        0
    } else {
        table_total(t, n - 1) + row_total(t[n - 1]@)
    }
}

proof fn lemma_row_total_nonneg(s: Seq<usize>)
    ensures
        0 <= row_total(s),
    decreases s.len(),
{
    if s.len() > 0 {
        lemma_row_total_nonneg(s.drop_last());
    }
}

proof fn lemma_table_total_nonneg(t: Seq<Vec<usize>>, n: int)
    ensures
        0 <= table_total(t, n),
    decreases n,
{
    if n > 0 {
        lemma_table_total_nonneg(t, n - 1);
        lemma_row_total_nonneg(t[n - 1]@);
    }
}

proof fn lemma_row_total_lower(s: Seq<usize>, i: int, v: usize)
    requires
        0 <= i < s.len(),
        v < s[i],
    ensures
        row_total(s.update(i, v)) < row_total(s),
    decreases s.len(),
{
    let t = s.update(i, v);
    if i < s.len() - 1 {
        assert(t.drop_last() =~= s.drop_last().update(i, v));
        lemma_row_total_lower(s.drop_last(), i, v);
    } else {
        assert(t.drop_last() =~= s.drop_last());
    }
}

proof fn lemma_table_total_same(t: Seq<Vec<usize>>, t2: Seq<Vec<usize>>, n: int, r: int)
    requires
        0 <= n <= r,
        n <= t.len(),
        t2.len() == t.len(),
        forall|k: int| 0 <= k < t.len() && k != r ==> t2[k]@ == t[k]@,
    ensures
        table_total(t2, n) == table_total(t, n),
    decreases n,
{
    if n > 0 {
        lemma_table_total_same(t, t2, n - 1, r);
    }
}

/// Lowering one cost lowers the sum.
proof fn lemma_table_total_lower(t: Seq<Vec<usize>>, t2: Seq<Vec<usize>>, n: int, r: int, c: int, v: usize)
    requires
        0 <= r < n <= t.len(),
        t2.len() == t.len(),
        0 <= c < t[r]@.len(),
        v < t[r]@[c],
        t2[r]@ == t[r]@.update(c, v),
        forall|k: int| 0 <= k < t.len() && k != r ==> t2[k]@ == t[k]@,
    ensures
        table_total(t2, n) < table_total(t, n),
    decreases n,
{
    if n - 1 == r {
        lemma_row_total_lower(t[r]@, c, v);
        lemma_table_total_same(t, t2, n - 1, r);
    } else {
        lemma_table_total_lower(t, t2, n - 1, r, c, v);
    }
}

/// A `rows` by `cols` table with every entry `v`.
fn filled<V: Copy>(rows: usize, cols: usize, v: V) -> (r: Vec<Vec<V>>)
    ensures
        dims(r@, rows as int, cols as int),
        forall|i: int, j: int| 0 <= i < rows && 0 <= j < cols ==> #[trigger] r@[i]@[j] == v,
{
    let mut t: Vec<Vec<V>> = Vec::new();
    let mut i: usize = 0;
    while i < rows
        invariant
            i <= rows,
            t@.len() == i,
            forall|k: int| 0 <= k < i ==> (#[trigger] t@[k])@.len() == cols,
            forall|k: int, j: int| 0 <= k < i && 0 <= j < cols ==> #[trigger] t@[k]@[j] == v,
        decreases rows - i,
    {
        let mut row: Vec<V> = Vec::new();
        let mut j: usize = 0;
        while j < cols
            invariant
                j <= cols,
                row@.len() == j,
                forall|k: int| 0 <= k < j ==> #[trigger] row@[k] == v,
            decreases cols - j,
        {
            row.push(v);
            j += 1;
        }
        let ghost before = t@;
        let ghost new_row = row@;
        t.push(row);
        assert forall|k: int, j: int| 0 <= k < i + 1 && 0 <= j < cols implies #[trigger] t@[k]@[j] == v by {
            if k < i {
                assert(t@[k] == before[k]);
            } else {
                assert(t@[k]@ == new_row);
            }
        }
        i += 1;
    }
    t
}

/// `(a, b)` comes no later than `(c, d)` in the order of cost, then row, then column.
pub open spec fn entry_le(x: (usize, (usize, usize)), y: (usize, (usize, usize))) -> bool {
    ||| x.0 < y.0
    ||| x.0 == y.0 && x.1.0 < y.1.0
    ||| x.0 == y.0 && x.1.0 == y.1.0 && x.1.1 <= y.1.1
}

/// Takes the least entry (by cost, then row, then column) out of `frontier`.
fn pop_least(frontier: &mut Vec<(usize, (usize, usize))>) -> (r: (usize, (usize, usize)))
    requires
        old(frontier)@.len() > 0,
    ensures
        exists|i: int|
            0 <= i < old(frontier)@.len() && r == old(frontier)@[i] && final(frontier)@ == old(
                frontier,
            )@.remove(i),
        forall|k: int| 0 <= k < old(frontier)@.len() ==> entry_le(r, #[trigger] old(frontier)@[k]),
{
    let mut best: usize = 0;
    let mut i: usize = 1;
    while i < frontier.len()
        invariant
            1 <= i <= frontier@.len(),
            best < i,
            forall|k: int| 0 <= k < i ==> entry_le(frontier@[best as int], #[trigger] frontier@[k]),
        decreases frontier@.len() - i,
    {
        let (c, (r, col)) = frontier[i];
        let (bc, (br, bcol)) = frontier[best];
        if c < bc || (c == bc && r < br) || (c == bc && r == br && col < bcol) {
            best = i;
        }
        i += 1;
    }
    frontier.remove(best)
}

/// A usable cost: every cell but those of cost `usize::MAX`, which are walls.
pub open spec fn passable(grid: Seq<Vec<usize>>) -> spec_fn((usize, usize)) -> bool {
    |p: (usize, usize)| grid[p.0 as int]@[p.1 as int] != usize::MAX
}

/// Every frontier entry names a cell of the grid.
pub open spec fn frontier_ok<T>(grid: Seq<Vec<T>>, frontier: Seq<(usize, (usize, usize))>) -> bool {
    forall|k: int| 0 <= k < frontier.len() ==> in_grid(grid, (#[trigger] frontier[k]).1.0 as int, frontier[k].1.1 as int)
}

/// Records the step from `from` to `to` where it reaches `to` at a cost
/// `new_cost` below the best known: the cost drops, `to` is queued with
/// `priority`, and `from` becomes its predecessor.
fn record_step<T>(
    grid: &[Vec<T>],
    cost_so_far: &mut Vec<Vec<usize>>,
    came_from: &mut Vec<Vec<Option<(usize, usize)>>>,
    frontier: &mut Vec<(usize, (usize, usize))>,
    new_cost: usize,
    priority: usize,
    from: (usize, usize),
    to: (usize, usize),
    Ghost(open): Ghost<spec_fn((usize, usize)) -> bool>,
)
    requires
        rectangular(grid@),
        in_grid(grid@, from.0 as int, from.1 as int),
        in_grid(grid@, to.0 as int, to.1 as int),
        adjacent(from, to),
        open(to),
        dims(old(cost_so_far)@, grid@.len() as int, grid@[0]@.len() as int),
        dims(old(came_from)@, grid@.len() as int, grid@[0]@.len() as int),
        links_ok(grid@, old(came_from)@, open),
        frontier_ok(grid@, old(frontier)@),
    ensures
        dims(final(cost_so_far)@, grid@.len() as int, grid@[0]@.len() as int),
        dims(final(came_from)@, grid@.len() as int, grid@[0]@.len() as int),
        links_ok(grid@, final(came_from)@, open),
        frontier_ok(grid@, final(frontier)@),
        ({
            ||| final(cost_so_far)@ == old(cost_so_far)@ && final(frontier)@ == old(frontier)@
            ||| table_total(final(cost_so_far)@, grid@.len() as int) < table_total(
                old(cost_so_far)@,
                grid@.len() as int,
            ) && final(frontier)@.len() == old(frontier)@.len() + 1
        }),
{
    if new_cost < cost_so_far[to.0][to.1] {
        let ghost before = cost_so_far@;
        cost_so_far[to.0][to.1] = new_cost;
        proof {
            lemma_table_total_lower(before, cost_so_far@, grid@.len() as int, to.0 as int, to.1 as int, new_cost);
        }
        frontier.push((priority, to));
        let ghost links = came_from@;
        came_from[to.0][to.1] = Some(from);
        assert forall|r: int, c: int|
            in_grid(grid@, r, c) && (#[trigger] link(came_from@, r, c)) is Some implies {
                let p = link(came_from@, r, c)->0;
                &&& in_grid(grid@, p.0 as int, p.1 as int)
                &&& adjacent(p, (r as usize, c as usize))
                &&& open((r as usize, c as usize))
            } by {
            if r != to.0 || c != to.1 {
                assert(link(came_from@, r, c) == link(links, r, c));
            }
        }
    }
}

/// The step of a uniform-cost search from `from` to `to`: a wall is never
/// entered; another cell costs its own value more than `current_cost`.
fn relax_step(
    grid: &[Vec<usize>],
    cost_so_far: &mut Vec<Vec<usize>>,
    came_from: &mut Vec<Vec<Option<(usize, usize)>>>,
    frontier: &mut Vec<(usize, (usize, usize))>,
    current_cost: usize,
    from: (usize, usize),
    to: (usize, usize),
)
    requires
        rectangular(grid@),
        in_grid(grid@, from.0 as int, from.1 as int),
        in_grid(grid@, to.0 as int, to.1 as int),
        adjacent(from, to),
        dims(old(cost_so_far)@, grid@.len() as int, grid@[0]@.len() as int),
        dims(old(came_from)@, grid@.len() as int, grid@[0]@.len() as int),
        links_ok(grid@, old(came_from)@, passable(grid@)),
        frontier_ok(grid@, old(frontier)@),
    ensures
        dims(final(cost_so_far)@, grid@.len() as int, grid@[0]@.len() as int),
        dims(final(came_from)@, grid@.len() as int, grid@[0]@.len() as int),
        links_ok(grid@, final(came_from)@, passable(grid@)),
        frontier_ok(grid@, final(frontier)@),
        ({
            ||| final(cost_so_far)@ == old(cost_so_far)@ && final(frontier)@ == old(frontier)@
            ||| table_total(final(cost_so_far)@, grid@.len() as int) < table_total(
                old(cost_so_far)@,
                grid@.len() as int,
            ) && final(frontier)@.len() == old(frontier)@.len() + 1
        }),
{
    let w = grid[to.0][to.1];
    if w == usize::MAX {
        return;
    }
    let new_cost = current_cost.saturating_add(w);
    record_step(grid, cost_so_far, came_from, frontier, new_cost, new_cost, from, to, Ghost(passable(grid@)));
}

/// Follows the recorded predecessors back from `goal` and returns the walk
/// they give, first cell first, where it begins at `start`; else an empty
/// path. A chain longer than the grid has cells would go round in a cycle;
/// it gives no path either.
fn trace_back<T>(
    grid: &[Vec<T>],
    came_from: &Vec<Vec<Option<(usize, usize)>>>,
    start: (usize, usize),
    goal: (usize, usize),
    Ghost(open): Ghost<spec_fn((usize, usize)) -> bool>,
) -> (r: Vec<(usize, usize)>)
    requires
        rectangular(grid@),
        in_grid(grid@, goal.0 as int, goal.1 as int),
        dims(came_from@, grid@.len() as int, grid@[0]@.len() as int),
        links_ok(grid@, came_from@, open),
    ensures
        r@.len() == 0 || walk_from_to(grid@, r@, start, goal, open),
{
    let rows = grid.len();
    let cols = grid[0].len();
    let limit: usize = match rows.checked_mul(cols) {
        Some(n) => n,
        None => usize::MAX,
    };
    let mut chain: Vec<(usize, usize)> = Vec::new();
    let mut current: Option<(usize, usize)> = Some(goal);
    let mut cycle = false;
    loop
        invariant
            rows == grid@.len(),
            cols == grid@[0]@.len(),
            rectangular(grid@),
            dims(came_from@, rows as int, cols as int),
            links_ok(grid@, came_from@, open),
            chain@.len() <= limit as int + 1,
            current matches Some(p) ==> in_grid(grid@, p.0 as int, p.1 as int),
            chain@.len() == 0 ==> current == Some(goal),
            chain@.len() > 0 ==> chain@[0] == goal,
            chain@.len() > 0 ==> current == link(came_from@, chain@.last().0 as int, chain@.last().1 as int),
            forall|k: int| 0 <= k < chain@.len() ==> in_grid(grid@, (#[trigger] chain@[k]).0 as int, chain@[k].1 as int),
            forall|k: int|
                0 <= k < chain@.len() - 1 ==> link(came_from@, (#[trigger] chain@[k]).0 as int, chain@[k].1 as int)
                    == Some(chain@[k + 1]),
        ensures
            chain@.len() > 0,
            chain@[0] == goal,
            forall|k: int| 0 <= k < chain@.len() ==> in_grid(grid@, (#[trigger] chain@[k]).0 as int, chain@[k].1 as int),
            forall|k: int|
                0 <= k < chain@.len() - 1 ==> link(came_from@, (#[trigger] chain@[k]).0 as int, chain@[k].1 as int)
                    == Some(chain@[k + 1]),
        decreases limit as int + 1 - chain@.len(),
    {
        match current {
            None => {
                break;
            },
            Some(pos) => {
                if chain.len() > limit {
                    cycle = true;
                    break;
                }
                let ghost before = chain@;
                chain.push(pos);
                assert forall|k: int| 0 <= k < chain@.len() - 1 implies link(
                    came_from@,
                    (#[trigger] chain@[k]).0 as int,
                    chain@[k].1 as int,
                ) == Some(chain@[k + 1]) by {
                    if k < before.len() - 1 {
                        assert(chain@[k] == before[k] && chain@[k + 1] == before[k + 1]);
                    } else {
                        assert(chain@[k] == before.last());
                    }
                }
                current = came_from[pos.0][pos.1];
            },
        }
    }
    if cycle {
        return Vec::new();
    }
    let n = chain.len();
    let mut path: Vec<(usize, usize)> = Vec::new();
    let mut k: usize = n;
    while k > 0
        invariant
            k <= n,
            n == chain@.len(),
            path@.len() == n - k,
            forall|j: int| 0 <= j < path@.len() ==> #[trigger] path@[j] == chain@[n - 1 - j],
        decreases k,
    {
        k -= 1;
        path.push(chain[k]);
    }
    let first = path[0];
    let last = path[n - 1];
    if first.0 == start.0 && first.1 == start.1 && last.0 == goal.0 && last.1 == goal.1 {
        assert forall|j: int| 0 < j < path@.len() implies open(#[trigger] path@[j]) by {
            let c = chain@[n - 1 - j];
            assert(link(came_from@, c.0 as int, c.1 as int) == Some(chain@[n - j]));
        }
        assert forall|j: int| 0 <= j < path@.len() - 1 implies adjacent(#[trigger] path@[j], path@[j + 1]) by {
            let c = chain@[n - 2 - j];
            assert(path@[j + 1] == c);
            assert(link(came_from@, c.0 as int, c.1 as int) == Some(chain@[n - 1 - j]));
        }
        assert forall|j: int| 0 <= j < path@.len() implies in_grid(grid@, (#[trigger] path@[j]).0 as int, path@[j].1 as int) by {
            assert(path@[j] == chain@[n - 1 - j]);
        }
        path
    } else {
        Vec::new()
    }
}

/// Uniform-cost search on a grid of step costs: entering a cell costs its
/// value, and a cell of cost `usize::MAX` is a wall. Cells are taken from
/// the frontier cheapest first (ties by row, then column) until `goal` is;
/// returns the walk from `start` to `goal` through the recorded
/// predecessors, or an empty path where there is none.
pub fn uniform_cost_search_grid(grid: &[Vec<usize>], start: (usize, usize), goal: (usize, usize)) -> (r: Vec<
    (usize, usize),
>)
    requires
        rectangular(grid@),
        in_grid(grid@, start.0 as int, start.1 as int),
        in_grid(grid@, goal.0 as int, goal.1 as int),
    ensures
        r@.len() == 0 || walk_from_to(grid@, r@, start, goal, passable(grid@)),
{
    let rows = grid.len();
    let cols = grid[0].len();
    let mut cost_so_far = filled(rows, cols, usize::MAX);
    let mut came_from: Vec<Vec<Option<(usize, usize)>>> = filled(rows, cols, None);
    let mut frontier: Vec<(usize, (usize, usize))> = Vec::new();
    frontier.push((0, start));
    cost_so_far[start.0][start.1] = 0;
    assert(links_ok(grid@, came_from@, passable(grid@)));
    loop
        invariant
            rows == grid@.len(),
            cols == grid@[0]@.len(),
            rectangular(grid@),
            dims(cost_so_far@, rows as int, cols as int),
            dims(came_from@, rows as int, cols as int),
            links_ok(grid@, came_from@, passable(grid@)),
            frontier_ok(grid@, frontier@),
        decreases table_total(cost_so_far@, rows as int), frontier@.len(),
    {
        if frontier.len() == 0 {
            break;
        }
        let ghost before = frontier@;
        let (current_cost, (row, col)) = pop_least(&mut frontier);
        assert forall|k: int| 0 <= k < frontier@.len() implies in_grid(
            grid@,
            (#[trigger] frontier@[k]).1.0 as int,
            frontier@[k].1.1 as int,
        ) by {
            let i = choose|i: int| 0 <= i < before.len() && (current_cost, (row, col)) == before[i] && frontier@ == before.remove(i);
            if k < i {
                assert(frontier@[k] == before[k]);
            } else {
                assert(frontier@[k] == before[k + 1]);
            }
        }
        if row == goal.0 && col == goal.1 {
            break;
        }
        let ghost costs0 = cost_so_far@;
        let ghost len1 = frontier@.len();
        assert(len1 == before.len() - 1);
        if row > 0 {
            relax_step(grid, &mut cost_so_far, &mut came_from, &mut frontier, current_cost, (row, col), (row - 1, col));
        }
        assert(cost_so_far@ == costs0 && frontier@.len() == len1 || table_total(cost_so_far@, rows as int) < table_total(costs0, rows as int));
        if row + 1 < rows {
            relax_step(grid, &mut cost_so_far, &mut came_from, &mut frontier, current_cost, (row, col), (row + 1, col));
        }
        assert(cost_so_far@ == costs0 && frontier@.len() == len1 || table_total(cost_so_far@, rows as int) < table_total(costs0, rows as int));
        if col > 0 {
            relax_step(grid, &mut cost_so_far, &mut came_from, &mut frontier, current_cost, (row, col), (row, col - 1));
        }
        assert(cost_so_far@ == costs0 && frontier@.len() == len1 || table_total(cost_so_far@, rows as int) < table_total(costs0, rows as int));
        if col + 1 < cols {
            relax_step(grid, &mut cost_so_far, &mut came_from, &mut frontier, current_cost, (row, col), (row, col + 1));
        }
        assert(cost_so_far@ == costs0 && frontier@.len() == len1 || table_total(cost_so_far@, rows as int) < table_total(costs0, rows as int));
        proof { lemma_table_total_nonneg(cost_so_far@, rows as int); }
    }
    trace_back(grid, &came_from, start, goal, Ghost(passable(grid@)))
}

/// A cell of a maze grid that is not an obstacle (`true` marks one).
pub open spec fn free(grid: Seq<Vec<bool>>) -> spec_fn((usize, usize)) -> bool {
    |p: (usize, usize)| !grid[p.0 as int]@[p.1 as int]
}

/// The Manhattan distance between two cells, the A* estimate of the steps
/// left (held at `usize::MAX` where it would exceed it).
fn heuristic(a: (usize, usize), b: (usize, usize)) -> (r: usize)
    ensures
        r == if a.0 >= b.0 { a.0 - b.0 } else { b.0 - a.0 } + if a.1 >= b.1 { a.1 - b.1 } else { b.1 - a.1 }
            || (r == usize::MAX && usize::MAX < if a.0 >= b.0 { a.0 - b.0 } else { b.0 - a.0 } + if a.1 >= b.1 {
            a.1 - b.1
        } else {
            b.1 - a.1
        }),
{
    let dr = if a.0 >= b.0 {
        a.0 - b.0
    } else {
        b.0 - a.0
    };
    let dc = if a.1 >= b.1 {
        a.1 - b.1
    } else {
        b.1 - a.1
    };
    dr.saturating_add(dc)
}

/// The step of an A* search from `from`, reached in `steps` steps, to `to`:
/// an obstacle is never entered; another cell is one step further, queued
/// by its steps plus its estimated distance to `goal`.
fn a_star_step(
    grid: &[Vec<bool>],
    g_score: &mut Vec<Vec<usize>>,
    came_from: &mut Vec<Vec<Option<(usize, usize)>>>,
    open_set: &mut Vec<(usize, (usize, usize))>,
    from: (usize, usize),
    to: (usize, usize),
    goal: (usize, usize),
)
    requires
        rectangular(grid@),
        in_grid(grid@, from.0 as int, from.1 as int),
        in_grid(grid@, to.0 as int, to.1 as int),
        adjacent(from, to),
        dims(old(g_score)@, grid@.len() as int, grid@[0]@.len() as int),
        dims(old(came_from)@, grid@.len() as int, grid@[0]@.len() as int),
        links_ok(grid@, old(came_from)@, free(grid@)),
        frontier_ok(grid@, old(open_set)@),
    ensures
        dims(final(g_score)@, grid@.len() as int, grid@[0]@.len() as int),
        dims(final(came_from)@, grid@.len() as int, grid@[0]@.len() as int),
        links_ok(grid@, final(came_from)@, free(grid@)),
        frontier_ok(grid@, final(open_set)@),
        ({
            ||| final(g_score)@ == old(g_score)@ && final(open_set)@ == old(open_set)@
            ||| table_total(final(g_score)@, grid@.len() as int) < table_total(
                old(g_score)@,
                grid@.len() as int,
            ) && final(open_set)@.len() == old(open_set)@.len() + 1
        }),
{
    if grid[to.0][to.1] {
        return;
    }
    let tentative = g_score[from.0][from.1].saturating_add(1);
    let f_score = tentative.saturating_add(heuristic(to, goal));
    record_step(grid, g_score, came_from, open_set, tentative, f_score, from, to, Ghost(free(grid@)));
}

/// A* search on a maze grid (`true` marks an obstacle) from `start` to
/// `goal`, one step at a time up, down, left or right. Cells are taken from
/// the open set by least steps-so-far plus Manhattan distance to `goal`
/// (ties by row, then column); when `goal` is taken, returns the walk from
/// `start` to it through the recorded predecessors. Returns an empty path
/// where the open set runs out first.
pub fn a_star_grid(grid: &[Vec<bool>], start: (usize, usize), goal: (usize, usize)) -> (r: Vec<(usize, usize)>)
    requires
        rectangular(grid@),
        in_grid(grid@, start.0 as int, start.1 as int),
    ensures
        r@.len() == 0 || walk_from_to(grid@, r@, start, goal, free(grid@)),
{
    let rows = grid.len();
    let cols = grid[0].len();
    let mut g_score = filled(rows, cols, usize::MAX);
    let mut came_from: Vec<Vec<Option<(usize, usize)>>> = filled(rows, cols, None);
    let mut open_set: Vec<(usize, (usize, usize))> = Vec::new();
    open_set.push((heuristic(start, goal), start));
    g_score[start.0][start.1] = 0;
    assert(links_ok(grid@, came_from@, free(grid@)));
    loop
        invariant
            rows == grid@.len(),
            cols == grid@[0]@.len(),
            rectangular(grid@),
            dims(g_score@, rows as int, cols as int),
            dims(came_from@, rows as int, cols as int),
            links_ok(grid@, came_from@, free(grid@)),
            frontier_ok(grid@, open_set@),
        decreases table_total(g_score@, rows as int), open_set@.len(),
    {
        if open_set.len() == 0 {
            break;
        }
        let ghost before = open_set@;
        let (_, (row, col)) = pop_least(&mut open_set);
        assert forall|k: int| 0 <= k < open_set@.len() implies in_grid(
            grid@,
            (#[trigger] open_set@[k]).1.0 as int,
            open_set@[k].1.1 as int,
        ) by {
            let i = choose|i: int| 0 <= i < before.len() && before[i].1 == (row, col) && open_set@ == before.remove(i);
            if k < i {
                assert(open_set@[k] == before[k]);
            } else {
                assert(open_set@[k] == before[k + 1]);
            }
        }
        if row == goal.0 && col == goal.1 {
            return trace_back(grid, &came_from, start, goal, Ghost(free(grid@)));
        }
        let ghost scores0 = g_score@;
        let ghost len1 = open_set@.len();
        assert(len1 == before.len() - 1);
        if row > 0 {
            a_star_step(grid, &mut g_score, &mut came_from, &mut open_set, (row, col), (row - 1, col), goal);
        }
        assert(g_score@ == scores0 && open_set@.len() == len1 || table_total(g_score@, rows as int) < table_total(scores0, rows as int));
        if row + 1 < rows {
            a_star_step(grid, &mut g_score, &mut came_from, &mut open_set, (row, col), (row + 1, col), goal);
        }
        assert(g_score@ == scores0 && open_set@.len() == len1 || table_total(g_score@, rows as int) < table_total(scores0, rows as int));
        if col > 0 {
            a_star_step(grid, &mut g_score, &mut came_from, &mut open_set, (row, col), (row, col - 1), goal);
        }
        assert(g_score@ == scores0 && open_set@.len() == len1 || table_total(g_score@, rows as int) < table_total(scores0, rows as int));
        if col + 1 < cols {
            a_star_step(grid, &mut g_score, &mut came_from, &mut open_set, (row, col), (row, col + 1), goal);
        }
        assert(g_score@ == scores0 && open_set@.len() == len1 || table_total(g_score@, rows as int) < table_total(scores0, rows as int));
        proof { lemma_table_total_nonneg(g_score@, rows as int); }
    }
    Vec::new()
}

} // verus!
