//! Breadth-first pathfinding over the cells that are not walls.

use crate::map_grid::connectivity::{adjacent, lemma_cell_coords, lemma_cell_index};
use crate::map_grid::{Partition, UnionFind};
use vstd::prelude::*;

verus! {

impl Partition {
    /// Whether a route may step from cell `a` to cell `b`: the two share an
    /// edge and `b` has a positive value.
    pub open spec fn open_step(self, a: int, b: int) -> bool {
        adjacent(self.size, a, b) && self.values[b] > 0
    }

    /// Whether the step from cell `k` of `route` to the next cell is open.
    pub open spec fn is_step(self, route: Seq<int>, k: int) -> bool {
        self.open_step(route[k], route[k + 1])
    }

    /// Whether `route` is a sequence of cells in which each step is open.
    pub open spec fn is_route(self, route: Seq<int>) -> bool {
        &&& route.len() > 0
        &&& forall|k: int| 0 <= k < route.len() ==> 0 <= #[trigger] route[k] < self.len()
        &&& forall|k: int| 0 <= k < route.len() - 1 ==> #[trigger] self.is_step(route, k)
    }

    /// Whether some route leads from cell `a` to cell `b`.
    pub open spec fn reachable(self, a: int, b: int) -> bool {
        exists|route: Seq<int>| #[trigger]
            self.is_route(route) && route[0] == a && route[route.len() - 1] == b
    }
}

/// The state of a breadth-first search: which cells it has visited, from
/// which cell it came to each, and the visited cells in the order in which
/// it found them.
pub struct Search {
    pub visited: Seq<bool>,
    pub came_from: Seq<usize>,
    pub frontier: Seq<usize>,
}

impl Partition {
    /// The search before its first step: only `start` is visited.
    pub open spec fn search_start(self, start: int) -> Search {
        Search {
            visited: Seq::new(self.len(), |i: int| false).update(start, true),
            came_from: Seq::new(self.len(), |i: int| 0usize),
            frontier: seq![start as usize],
        }
    }

    /// The search after it has looked from `current` in direction `d`: a
    /// neighbour of positive value that was not visited is visited now.
    pub open spec fn discovered(self, search: Search, current: int, d: int) -> Search {
        match neighbour_of(self.size, current, d) {
            Some(next) => if self.values[next] > 0 && !search.visited[next] {
                Search {
                    visited: search.visited.update(next, true),
                    came_from: search.came_from.update(next, current as usize),
                    frontier: search.frontier.push(next as usize),
                }
            } else {
                search
            },
            None => search,
        }
    }

    /// The search after it has looked from `current` in the directions from
    /// `d` on: down, up, right, left.
    pub open spec fn expanded_from(self, search: Search, current: int, d: int) -> Search
        decreases 4 - d,
    {
        if d < 0 || d >= 4 {
            search
        } else {
            self.expanded_from(self.discovered(search, current, d), current, d + 1)
        }
    }

    /// The search at its end: from position `head` of the frontier on, cell
    /// after cell is expanded until the cell at hand is `goal` or the frontier
    /// is used up.
    pub open spec fn searched(self, search: Search, head: int, goal: int) -> Search
        decreases self.len() - head,
    {
        if head < 0 || head >= search.frontier.len() || head >= self.len() || search.frontier[head]
            == goal {
            search
        } else {
            self.searched(
                self.expanded_from(search, search.frontier[head] as int, 0),
                head + 1,
                goal,
            )
        }
    }

    /// The cells from `current` back to `start`, each followed by the cell
    /// from which the search came to it; at most `limit` steps.
    pub open spec fn traced(self, search: Search, start: int, current: int, limit: nat) -> Seq<
        usize,
    >
        decreases limit,
    {
        if current == start || limit == 0 {
            seq![current as usize]
        } else {
            seq![current as usize] + self.traced(
                search,
                start,
                search.came_from[current] as int,
                (limit - 1) as nat,
            )
        }
    }

    /// The route that breadth-first search finds from `start` to `goal`:
    /// empty if one of the two has value 0 or the search does not come to
    /// `goal`, else the cells from `start` to `goal`.
    pub open spec fn found_route(self, start: int, goal: int) -> Seq<usize> {
        if self.values[start] == 0 || self.values[goal] == 0 {
            Seq::empty()
        } else {
            let end = self.searched(self.search_start(start), 0, goal);
            if end.visited[goal] {
                backward(self.traced(end, start, goal, self.len()))
            } else {
                Seq::empty()
            }
        }
    }
}

/// A sequence from its last entry to its first.
pub open spec fn backward(cells: Seq<usize>) -> Seq<usize> {
    Seq::new(cells.len(), |k: int| cells[cells.len() - 1 - k])
}

/// Whether an open step leads to cell `k` of `points` from the cell behind
/// it.
pub open spec fn is_step_back(p: Partition, points: Seq<usize>, k: int) -> bool {
    p.open_step(points[k + 1] as int, points[k] as int)
}

/// The cell indices of a route, as integers.
pub open spec fn cells_of(route: Seq<usize>) -> Seq<int> {
    Seq::new(route.len(), |k: int| route[k] as int)
}

/// The neighbour of cell `c` in direction `d`: 0 is one row down, 1 one row
/// up, 2 one column right, 3 one column left. `None` where the grid ends.
pub open spec fn neighbour_of(size: nat, c: int, d: int) -> Option<int> {
    let x = c % (size as int);
    let y = c / (size as int);
    if d == 0 {
        if y + 1 < size {
            Some(c + size)
        } else {
            None
        }
    } else if d == 1 {
        if y >= 1 {
            Some(c - size)
        } else {
            None
        }
    } else if d == 2 {
        if x + 1 < size {
            Some(c + 1)
        } else {
            None
        }
    } else {
        if x >= 1 {
            Some(c - 1)
        } else {
            None
        }
    }
}

/// The neighbours of a cell in the four directions are the cells adjacent to
/// it.
pub proof fn lemma_neighbours(size: nat, c: int)
    requires
        0 <= c < size * size,
    ensures
        forall|d: int|
            0 <= d < 4 && (#[trigger] neighbour_of(size, c, d)) is Some ==> adjacent(
                size,
                c,
                neighbour_of(size, c, d)->0,
            ),
        forall|w: int|
            adjacent(size, c, w) ==> exists|d: int|
                0 <= d < 4 && #[trigger] neighbour_of(size, c, d) == Some(w),
{
    let n = size as int;
    assert(n > 0) by (nonlinear_arith)
        requires
            0 <= n,
            0 <= c < n * n,
    ;
    lemma_cell_coords(n, c);
    let x = c % n;
    let y = c / n;
    if y + 1 < n {
        lemma_cell_index(n, x, y + 1);
        assert((y + 1) * n + x == c + n) by (nonlinear_arith)
            requires
                c == y * n + x,
        ;
    }
    if y >= 1 {
        lemma_cell_index(n, x, y - 1);
        assert((y - 1) * n + x == c - n) by (nonlinear_arith)
            requires
                c == y * n + x,
        ;
    }
    if x + 1 < n {
        lemma_cell_index(n, x + 1, y);
    }
    if x >= 1 {
        lemma_cell_index(n, x - 1, y);
    }
    assert forall|w: int| adjacent(size, c, w) implies exists|d: int|
        0 <= d < 4 && #[trigger] neighbour_of(size, c, d) == Some(w) by {
        lemma_cell_coords(n, w);
        if w == c + 1 {
            assert(x + 1 < n) by {
                if x + 1 >= n {
                    assert(c + 1 == (y + 1) * n) by (nonlinear_arith)
                        requires
                            c == y * n + x,
                            x + 1 == n,
                    ;
                    if y + 1 < n {
                        lemma_cell_index(n, 0, y + 1);
                    } else {
                        assert((y + 1) * n >= n * n) by (nonlinear_arith)
                            requires
                                y + 1 >= n,
                                n > 0,
                        ;
                    }
                }
            }
            assert(neighbour_of(size, c, 2) == Some(w));
        } else if c == w + 1 {
            assert(x >= 1) by {
                if x == 0 {
                    assert(w + 1 == y * n);
                    if y >= 1 {
                        lemma_cell_index(n, n - 1, y - 1);
                        assert((y - 1) * n + (n - 1) == w) by (nonlinear_arith)
                            requires
                                w + 1 == y * n,
                        ;
                    }
                }
            }
            assert(neighbour_of(size, c, 3) == Some(w));
        } else if w == c + n {
            assert(y + 1 < n) by {
                if y + 1 >= n {
                    assert(c + n >= n * n) by (nonlinear_arith)
                        requires
                            c == y * n + x,
                            y + 1 >= n,
                            x >= 0,
                            n > 0,
                    ;
                }
            }
            assert(neighbour_of(size, c, 0) == Some(w));
        } else {
            assert(c == w + n);
            assert(y >= 1) by {
                if y == 0 {
                    assert(c == x) by (nonlinear_arith)
                        requires
                            c == y * n + x,
                            y == 0,
                    ;
                }
            }
            assert(neighbour_of(size, c, 1) == Some(w));
        }
    }
}

/// The number of `true` entries of a sequence.
pub open spec fn count_true(flags: Seq<bool>) -> nat
    decreases flags.len(),
{
    if flags.len() == 0 {
        0
    } else {
        count_true(flags.drop_last()) + if flags.last() {
            1nat
        } else {
            0nat
        }
    }
}

/// A sequence has at most as many `true` entries as it has entries.
pub proof fn lemma_count_true_bound(flags: Seq<bool>)
    ensures
        count_true(flags) <= flags.len(),
    decreases flags.len(),
{
    if flags.len() > 0 {
        lemma_count_true_bound(flags.drop_last());
    }
}

/// Setting a `false` entry to `true` raises the count by one.
pub proof fn lemma_count_true_set(flags: Seq<bool>, i: int)
    requires
        0 <= i < flags.len(),
        !flags[i],
    ensures
        count_true(flags.update(i, true)) == count_true(flags) + 1,
    decreases flags.len(),
{
    let after = flags.update(i, true);
    if i == flags.len() - 1 {
        assert(after.drop_last() =~= flags.drop_last());
    } else {
        assert(after.drop_last() =~= flags.drop_last().update(i, true));
        lemma_count_true_set(flags.drop_last(), i);
    }
}

/// A sequence of `false` entries has no `true` entry.
pub proof fn lemma_count_true_none(flags: Seq<bool>)
    requires
        forall|i: int| 0 <= i < flags.len() ==> !flags[i],
    ensures
        count_true(flags) == 0,
    decreases flags.len(),
{
    if flags.len() > 0 {
        lemma_count_true_none(flags.drop_last());
    }
}

/// Whether cell `v`, if it is visited and not the start, has a visited
/// predecessor from which an open step leads to it, one level closer to the
/// start.
pub open spec fn is_linked(
    p: Partition,
    start: int,
    visited: Seq<bool>,
    prev: Seq<usize>,
    level: Seq<nat>,
    v: int,
) -> bool {
    visited[v] && v != start ==> 0 <= prev[v] < p.len() && visited[prev[v] as int] && p.open_step(
        prev[v] as int,
        v,
    ) && level[v] == level[prev[v] as int] + 1
}

/// The search tree: every visited cell but the start has a visited
/// predecessor from which an open step leads to it, one level closer to the
/// start, which has level 0.
pub open spec fn is_search_tree(
    p: Partition,
    start: int,
    visited: Seq<bool>,
    prev: Seq<usize>,
    level: Seq<nat>,
) -> bool {
    &&& visited.len() == p.len()
    &&& prev.len() == p.len()
    &&& level.len() == p.len()
    &&& 0 <= start < p.len()
    &&& visited[start]
    &&& level[start] == 0
    &&& forall|v: int| 0 <= v < p.len() ==> #[trigger] is_linked(p, start, visited, prev, level, v)
}

/// The frontier holds exactly the visited cells, each once.
pub open spec fn is_frontier(p: Partition, visited: Seq<bool>, frontier: Seq<usize>) -> bool {
    &&& forall|j: int|
        0 <= j < frontier.len() ==> #[trigger] frontier[j] < p.len() && visited[frontier[j] as int]
    &&& forall|v: int|
        0 <= v < p.len() && #[trigger] visited[v] ==> exists|j: int|
            0 <= j < frontier.len() && #[trigger] frontier[j] == v
    &&& frontier.len() == count_true(visited)
}

/// The frontier is layered: levels never fall along it, from `head` on they
/// differ by one at most, and no level exceeds the position of its cell.
pub open spec fn is_layered(frontier: Seq<usize>, level: Seq<nat>, head: int) -> bool {
    &&& forall|j: int| 0 <= j < frontier.len() ==> level[#[trigger] frontier[j] as int] <= j
    &&& forall|i: int, j: int|
        0 <= i <= j < frontier.len() ==> level[#[trigger] frontier[i] as int]
            <= level[#[trigger] frontier[j] as int]
    &&& forall|i: int, j: int|
        head <= i <= j < frontier.len() ==> level[#[trigger] frontier[j] as int]
            <= level[#[trigger] frontier[i] as int] + 1
}

/// Whether every cell to which an open step leads from `c` is visited, at
/// most one level beyond `c`.
pub open spec fn is_expanded(p: Partition, visited: Seq<bool>, level: Seq<nat>, c: int) -> bool {
    forall|w: int|
        0 <= w < p.len() && #[trigger] p.open_step(c, w) ==> visited[w] && level[w] <= level[c] + 1
}

/// Every visited cell of a search tree is reachable from the start.
pub proof fn lemma_visited_is_reachable(
    p: Partition,
    start: int,
    visited: Seq<bool>,
    prev: Seq<usize>,
    level: Seq<nat>,
    v: int,
)
    requires
        is_search_tree(p, start, visited, prev, level),
        0 <= v < p.len(),
        visited[v],
    ensures
        p.reachable(start, v),
    decreases level[v],
{
    assert(is_linked(p, start, visited, prev, level, v));
    if v == start {
        let route = seq![start];
        assert(p.is_route(route));
    } else {
        lemma_visited_is_reachable(p, start, visited, prev, level, prev[v] as int);
        let route = choose|route: Seq<int>| #[trigger]
            p.is_route(route) && route[0] == start && route[route.len() - 1] == prev[v] as int;
        let longer = route.push(v);
        assert forall|k: int| 0 <= k < longer.len() - 1 implies #[trigger] p.is_step(
            longer,
            k,
        ) by {
            if k < route.len() - 1 {
                assert(p.is_step(route, k));
            }
        }
        assert(p.is_route(longer));
    }
}

/// Where the start is visited and every visited cell is expanded, every cell
/// of a route from the start is visited.
pub proof fn lemma_route_is_visited(
    p: Partition,
    visited: Seq<bool>,
    level: Seq<nat>,
    route: Seq<int>,
    k: int,
)
    requires
        visited.len() == p.len(),
        p.is_route(route),
        visited[route[0]],
        forall|v: int|
            0 <= v < p.len() && #[trigger] visited[v] ==> is_expanded(p, visited, level, v),
        0 <= k < route.len(),
    ensures
        visited[route[k]],
    decreases k,
{
    if k > 0 {
        lemma_route_is_visited(p, visited, level, route, k - 1);
        assert(p.is_step(route, k - 1));
        assert(is_expanded(p, visited, level, route[k - 1]));
    }
}

/// While the search has expanded the cells before `head` of a layered
/// frontier, a route from the start cannot come to a cell in fewer steps than
/// the level of the cell at `head`, unless the cell is visited on a level
/// that is no higher than the number of steps.
pub proof fn lemma_route_meets_levels(
    p: Partition,
    start: int,
    visited: Seq<bool>,
    prev: Seq<usize>,
    level: Seq<nat>,
    frontier: Seq<usize>,
    head: int,
    route: Seq<int>,
    k: int,
)
    requires
        is_search_tree(p, start, visited, prev, level),
        is_frontier(p, visited, frontier),
        is_layered(frontier, level, head),
        0 <= head < frontier.len(),
        forall|j: int|
            0 <= j < head ==> is_expanded(p, visited, level, #[trigger] frontier[j] as int),
        p.is_route(route),
        route[0] == start,
        0 <= k < route.len(),
        k < level[frontier[head] as int],
    ensures
        visited[route[k]],
        level[route[k]] <= k,
    decreases k,
{
    if k > 0 {
        lemma_route_meets_levels(p, start, visited, prev, level, frontier, head, route, k - 1);
        let before = route[k - 1];
        let i = choose|i: int| 0 <= i < frontier.len() && #[trigger] frontier[i] == before;
        if i >= head {
            assert(level[frontier[head] as int] <= level[frontier[i] as int]);
        }
        assert(is_expanded(p, visited, level, frontier[i] as int));
        assert(p.is_step(route, k - 1));
    }
}

/// What holds throughout a search that stands at position `head` of its
/// frontier: the visited cells form a search tree, the frontier holds them
/// in layers, and every cell before `head` is expanded.
#[verifier::opaque]
pub open spec fn is_search(
    p: Partition,
    start: int,
    search: Search,
    level: Seq<nat>,
    head: int,
) -> bool {
    &&& is_search_tree(p, start, search.visited, search.came_from, level)
    &&& is_frontier(p, search.visited, search.frontier)
    &&& is_layered(search.frontier, level, head)
    &&& 0 <= head <= search.frontier.len()
    &&& forall|j: int|
        0 <= j < head ==> is_expanded(
            p,
            search.visited,
            level,
            #[trigger] search.frontier[j] as int,
        )
}

/// Whether the neighbour of `current` in direction `d`, if it has a positive
/// value, is visited at most one level beyond `current`.
pub open spec fn is_looked(
    p: Partition,
    search: Search,
    level: Seq<nat>,
    current: int,
    d: int,
) -> bool {
    match neighbour_of(p.size, current, d) {
        Some(next) => p.values[next] > 0 ==> search.visited[next] && level[next] <= level[current]
            + 1,
        None => true,
    }
}

/// A search stands well at its start.
pub proof fn lemma_search_begins(p: Partition, start: usize)
    requires
        start < p.len(),
    ensures
        is_search(
            p,
            start as int,
            p.search_start(start as int),
            Seq::new(p.len(), |i: int| 0nat),
            0,
        ),
{
    reveal(is_search);
    let search = p.search_start(start as int);
    let blank = Seq::new(p.len(), |i: int| false);
    lemma_count_true_none(blank);
    lemma_count_true_set(blank, start as int);
    assert(search.frontier[0] == start);
}

/// At the end of a search that has found the cell at `head`, the cells from
/// that cell back to the start, turned round, are a shortest route to it.
pub proof fn lemma_trace_is_shortest(
    p: Partition,
    start: int,
    search: Search,
    level: Seq<nat>,
    head: int,
    points: Seq<usize>,
)
    requires
        is_search(p, start, search, level, head),
        0 <= head < search.frontier.len(),
        points.len() == level[search.frontier[head] as int] + 1,
        points[0] == search.frontier[head],
        points[points.len() - 1] == start,
        forall|k: int| 0 <= k < points.len() ==> #[trigger] points[k] < p.len(),
        forall|k: int| 0 <= k < points.len() - 1 ==> #[trigger] is_step_back(p, points, k),
    ensures
        p.is_route(cells_of(backward(points))),
        forall|other: Seq<int>| #[trigger]
            p.is_route(other) && other[0] == start && other[other.len() - 1]
                == search.frontier[head] as int ==> points.len() <= other.len(),
{
    reveal(is_search);
    let goal = search.frontier[head] as int;
    let count = points.len() as int;
    let cells = cells_of(backward(points));
    assert forall|k: int| 0 <= k < cells.len() - 1 implies #[trigger] p.is_step(cells, k) by {
        assert(is_step_back(p, points, count - 2 - k));
    }
    assert forall|other: Seq<int>| #[trigger]
        p.is_route(other) && other[0] == start && other[other.len() - 1]
            == goal implies points.len() <= other.len() by {
        if other.len() - 1 < level[goal] {
            lemma_route_meets_levels(
                p,
                start,
                search.visited,
                search.came_from,
                level,
                search.frontier,
                head,
                other,
                other.len() - 1,
            );
        }
    }
}

/// Where a search has used up its frontier, it has visited every cell that a
/// route from the start reaches.
pub proof fn lemma_search_is_complete(
    p: Partition,
    start: int,
    search: Search,
    level: Seq<nat>,
    goal: int,
)
    requires
        is_search(p, start, search, level, search.frontier.len() as int),
        p.reachable(start, goal),
    ensures
        search.visited[goal],
{
    reveal(is_search);
    let route = choose|route: Seq<int>| #[trigger]
        p.is_route(route) && route[0] == start && route[route.len() - 1] == goal;
    assert forall|v: int| 0 <= v < p.len() && #[trigger] search.visited[v] implies is_expanded(
        p,
        search.visited,
        level,
        v,
    ) by {
        let j = choose|j: int| 0 <= j < search.frontier.len() && #[trigger] search.frontier[j] == v;
        assert(is_expanded(p, search.visited, level, search.frontier[j] as int));
    }
    lemma_route_is_visited(p, search.visited, level, route, route.len() - 1);
}

/// What a search knows of the cell at `head`: it is visited on a level that
/// is no higher than `head`, and it is reachable from the start.
pub proof fn lemma_search_reaches(
    p: Partition,
    start: int,
    search: Search,
    level: Seq<nat>,
    head: int,
)
    requires
        is_search(p, start, search, level, head),
        0 <= head < search.frontier.len(),
    ensures
        is_search_tree(p, start, search.visited, search.came_from, level),
        search.frontier[head] < p.len(),
        search.visited[search.frontier[head] as int],
        level[search.frontier[head] as int] <= head,
        search.frontier.len() <= p.len(),
        p.reachable(start, search.frontier[head] as int),
{
    reveal(is_search);
    lemma_count_true_bound(search.visited);
    lemma_visited_is_reachable(
        p,
        start,
        search.visited,
        search.came_from,
        level,
        search.frontier[head] as int,
    );
}

/// A list of cells from its last entry to its first.
fn turned(points: &Vec<usize>) -> (route: Vec<usize>)
    ensures
        route@ == backward(points@),
{
    let count = points.len();
    let mut route: Vec<usize> = Vec::new();
    let mut i: usize = 0;
    while i < count
        invariant
            count == points@.len(),
            i <= count,
            route@.len() == i,
            forall|k: int| 0 <= k < i ==> #[trigger] route@[k] == points@[count - 1 - k],
        decreases count - i,
    {
        route.push(points[count - 1 - i]);
        i = i + 1;
    }
    assert(route@ =~= backward(points@));
    route
}

/// The cells from `goal` back to `start` along the search tree.
fn trace_back(
    came_from: &Vec<usize>,
    start: usize,
    goal: usize,
    Ghost(p): Ghost<Partition>,
    Ghost(end): Ghost<Search>,
    Ghost(level): Ghost<Seq<nat>>,
) -> (points: Vec<usize>)
    requires
        is_search_tree(p, start as int, end.visited, end.came_from, level),
        end.came_from == came_from@,
        goal < p.len(),
        end.visited[goal as int],
        level[goal as int] < p.len(),
    ensures
        points@ == p.traced(end, start as int, goal as int, p.len()),
        points@.len() == level[goal as int] + 1,
        points@[0] == goal,
        points@[points@.len() - 1] == start,
        forall|k: int| 0 <= k < points@.len() ==> #[trigger] points@[k] < p.len(),
        forall|k: int| 0 <= k < points@.len() - 1 ==> #[trigger] is_step_back(p, points@, k),
{
    let ghost total = p.len();
    let ghost trace = p.traced(end, start as int, goal as int, total);
    let mut points: Vec<usize> = Vec::new();
    let mut current = goal;
    while current != start
        invariant
            is_search_tree(p, start as int, end.visited, end.came_from, level),
            end.came_from == came_from@,
            total == p.len(),
            current < total,
            goal < total,
            end.visited[current as int],
            points@.len() + level[current as int] == level[goal as int],
            level[goal as int] < total,
            points@ + p.traced(
                end,
                start as int,
                current as int,
                (total - points@.len()) as nat,
            ) == trace,
            forall|k: int| 0 <= k < points@.len() ==> #[trigger] points@[k] < total,
            forall|k: int| 0 <= k < points@.len() - 1 ==> #[trigger] is_step_back(p, points@, k),
            points@.len() > 0 ==> points@[0] == goal && p.open_step(
                current as int,
                points@[points@.len() - 1] as int,
            ),
            points@.len() == 0 ==> current == goal,
        decreases level[current as int],
    {
        let ghost before = points@;
        let ghost fuel = (total - before.len()) as nat;
        let next = came_from[current];
        proof {
            assert(is_linked(
                p,
                start as int,
                end.visited,
                end.came_from,
                level,
                current as int,
            ));
            assert(p.open_step(next as int, current as int));
            assert(level[current as int] == level[next as int] + 1);
            assert(fuel > 0);
            let rest = p.traced(end, start as int, next as int, (fuel - 1) as nat);
            assert(p.traced(end, start as int, current as int, fuel) == seq![current] + rest);
            assert((before.push(current)) + rest =~= before + (seq![current] + rest));
        }
        points.push(current);
        proof {
            assert forall|k: int| 0 <= k < points@.len() - 1 implies #[trigger] is_step_back(
                p,
                points@,
                k,
            ) by {
                if k < before.len() - 1 {
                    assert(is_step_back(p, before, k));
                }
            }
        }
        current = next;
    }
    let ghost before = points@;
    proof {
        assert(p.traced(end, start as int, current as int, (total - points@.len()) as nat)
            == seq![current]);
        assert(points@.push(current) =~= points@ + seq![current]);
    }
    points.push(current);
    proof {
        assert forall|k: int| 0 <= k < points@.len() - 1 implies #[trigger] is_step_back(
            p,
            points@,
            k,
        ) by {
            if k < before.len() - 1 {
                assert(is_step_back(p, before, k));
            }
        }
    }
    points
}

/// A search whose cell at `head` is expanded may go on to the next cell.
pub proof fn lemma_search_advances(
    p: Partition,
    start: int,
    search: Search,
    level: Seq<nat>,
    head: int,
)
    requires
        is_search(p, start, search, level, head),
        0 <= head < search.frontier.len(),
        is_expanded(p, search.visited, level, search.frontier[head] as int),
    ensures
        is_search(p, start, search, level, head + 1),
{
    reveal(is_search);
}

/// The vectors of a breadth-first search.
struct Explorer {
    visited: Vec<bool>,
    came_from: Vec<usize>,
    frontier: Vec<usize>,
}

impl View for Explorer {
    type V = Search;

    closed spec fn view(&self) -> Search {
        Search { visited: self.visited@, came_from: self.came_from@, frontier: self.frontier@ }
    }
}

impl UnionFind {
    /// The neighbour of cell `c` in direction `d`, if the grid has one.
    pub(crate) fn neighbour(&self, c: usize, d: usize) -> (next: Option<usize>)
        requires
            self.wf(),
            c < self@.len(),
            d < 4,
        ensures
            match next {
                Some(w) => neighbour_of(self@.size, c as int, d as int) == Some(w as int) && w
                    < self@.len(),
                None => neighbour_of(self@.size, c as int, d as int) is None,
            },
    {
        let n = self.size();
        let total = self.len();
        proof {
            assert(total == n * n);
            assert(n > 0) by (nonlinear_arith)
                requires
                    c < n * n,
            ;
            lemma_cell_coords(n as int, c as int);
            lemma_neighbours(self@.size, c as int);
            assert(neighbour_of(self@.size, c as int, d as int) is Some ==> adjacent(
                self@.size,
                c as int,
                neighbour_of(self@.size, c as int, d as int)->0,
            ));
        }
        let x: usize = c % n;
        let y: usize = c / n;
        if d == 0 {
            if y + 1 < n {
                Some(c + n)
            } else {
                None
            }
        } else if d == 1 {
            if y >= 1 {
                Some(c - n)
            } else {
                None
            }
        } else if d == 2 {
            if x + 1 < n {
                Some(c + 1)
            } else {
                None
            }
        } else {
            if x >= 1 {
                Some(c - 1)
            } else {
                None
            }
        }
    }

    /// Looks from the cell at position `head` of the frontier in direction
    /// `d`: a neighbour of positive value that is not yet visited is visited
    /// now, one level beyond the cell. Returns the levels.
    fn look(
        &self,
        head: usize,
        d: usize,
        explorer: &mut Explorer,
        Ghost(start): Ghost<int>,
        Ghost(level): Ghost<Seq<nat>>,
    ) -> (levels: Ghost<Seq<nat>>)
        requires
            self.wf(),
            d < 4,
            head < old(explorer)@.frontier.len(),
            is_search(self@, start, old(explorer)@, level, head as int),
        ensures
            final(explorer)@ == self@.discovered(
                old(explorer)@,
                old(explorer)@.frontier[head as int] as int,
                d as int,
            ),
            is_search(self@, start, final(explorer)@, levels@, head as int),
            final(explorer)@.frontier.len() >= old(explorer)@.frontier.len(),
            forall|j: int|
                0 <= j < old(explorer)@.frontier.len() ==> #[trigger] final(explorer)@.frontier[j]
                    == old(explorer)@.frontier[j],
            levels@[old(explorer)@.frontier[head as int] as int] == level[old(
                explorer
            )@.frontier[head as int] as int],
            is_looked(
                self@,
                final(explorer)@,
                levels@,
                old(explorer)@.frontier[head as int] as int,
                d as int,
            ),
            forall|e: int|
                0 <= e < 4 && #[trigger] is_looked(
                self@,
                old(explorer)@,
                level,
                old(explorer)@.frontier[head as int] as int,
                e,
            ) ==> is_looked(
                self@,
                final(explorer)@,
                levels@,
                old(explorer)@.frontier[head as int] as int,
                e,
            ),
    {
        proof {
            reveal(is_search);
        }
        let ghost p = self@;
        let ghost seen = explorer.visited@;
        let ghost queue = explorer.frontier@;
        let current = explorer.frontier[head];
        match self.neighbour(current, d) {
            Some(next) => {
                if self.value(next) > 0 {
                    if !explorer.visited[next] {
                        proof {
                            lemma_neighbours(p.size, current as int);
                            assert(adjacent(
                                p.size,
                                current as int,
                                neighbour_of(p.size, current as int, d as int)->0,
                            ));
                            lemma_count_true_set(explorer.visited@, next as int);
                        }
                        explorer.frontier.push(next);
                        explorer.visited[next] = true;
                        explorer.came_from[next] = current;
                        let ghost levels = level.update(next as int, level[current as int] + 1);
                        proof {
                            assert(explorer.frontier@[queue.len() as int] == next);
                            assert forall|v: int|
                                0 <= v < p.len() && #[trigger] explorer.visited@[v] implies exists|
                                j: int,
                            |
                                0 <= j < explorer.frontier@.len()
                                    && #[trigger] explorer.frontier@[j] == v by {
                                if v != next {
                                    assert(seen[v]);
                                    let j = choose|j: int|
                                        0 <= j < queue.len() && #[trigger] queue[j] == v;
                                    assert(explorer.frontier@[j] == v);
                                }
                            }
                            assert forall|j: int| 0 <= j < queue.len() implies levels[(
                            #[trigger] explorer.frontier@[j]) as int] == level[queue[j] as int] by {
                                assert(seen[queue[j] as int]);
                            }
                            assert forall|v: int| 0 <= v < p.len() implies #[trigger] is_linked(
                                p,
                                start,
                                explorer.visited@,
                                explorer.came_from@,
                                levels,
                                v,
                            ) by {
                                assert(is_linked(
                                    p,
                                    start,
                                    seen,
                                    old(explorer)@.came_from,
                                    level,
                                    v,
                                ));
                            }
                            assert(is_layered(explorer.frontier@, levels, head as int)) by {
                                assert forall|j: int|
                                    0 <= j < explorer.frontier@.len() implies levels[(
                                #[trigger] explorer.frontier@[j]) as int] <= j by {
                                    if j < queue.len() {
                                        assert(level[queue[j] as int] <= j);
                                    } else {
                                        assert(level[queue[head as int] as int] <= head);
                                    }
                                }
                                assert forall|i: int, j: int|
                                    0 <= i <= j < explorer.frontier@.len() implies levels[(
                                #[trigger] explorer.frontier@[i]) as int] <= levels[(
                                #[trigger] explorer.frontier@[j]) as int] by {
                                    if j == queue.len() && i < j {
                                        if i >= head {
                                            assert(level[queue[i] as int]
                                                <= level[queue[head as int] as int] + 1);
                                        } else {
                                            assert(level[queue[i] as int]
                                                <= level[queue[head as int] as int]);
                                        }
                                    } else if j < queue.len() {
                                        assert(level[queue[i] as int] <= level[queue[j] as int]);
                                    }
                                }
                                assert forall|i: int, j: int|
                                    head <= i <= j < explorer.frontier@.len() implies levels[(
                                #[trigger] explorer.frontier@[j]) as int] <= levels[(
                                #[trigger] explorer.frontier@[i]) as int] + 1 by {
                                    if j == queue.len() && i < j {
                                        assert(level[queue[head as int] as int]
                                            <= level[queue[i] as int]);
                                    } else if j < queue.len() {
                                        assert(level[queue[j] as int] <= level[queue[i] as int]
                                            + 1);
                                    }
                                }
                            }
                            assert forall|j: int| 0 <= j < head implies is_expanded(
                                p,
                                explorer.visited@,
                                levels,
                                #[trigger] explorer.frontier@[j] as int,
                            ) by {
                                assert(is_expanded(p, seen, level, queue[j] as int));
                                assert(seen[queue[j] as int]);
                            }
                            assert(seen[current as int]);
                            let before = old(explorer)@;
                            let after = explorer@;
                            assert forall|e: int|
                                0 <= e < 4 && #[trigger] is_looked(
                                    p,
                                    before,
                                    level,
                                    current as int,
                                    e,
                                ) implies is_looked(p, after, levels, current as int, e) by {
                                match neighbour_of(p.size, current as int, e) {
                                    Some(w) => {
                                        assert(adjacent(p.size, current as int, w));
                                        if p.values[w] > 0 {
                                            assert(seen[w]);
                                        }
                                    },
                                    None => {},
                                }
                            }
                        }
                        Ghost(levels)
                    } else {
                        proof {
                            let i = choose|i: int|
                                0 <= i < explorer.frontier@.len()
                                    && #[trigger] explorer.frontier@[i] == next;
                            if i >= head {
                                assert(level[explorer.frontier@[i] as int]
                                    <= level[explorer.frontier@[head as int] as int] + 1);
                            } else {
                                assert(level[explorer.frontier@[i] as int]
                                    <= level[explorer.frontier@[head as int] as int]);
                            }
                        }
                        Ghost(level)
                    }
                } else {
                    Ghost(level)
                }
            },
            None => Ghost(level),
        }
    }

    /// Expands the cell at position `head` of the frontier: looks from it
    /// down, up, right and left. Returns the levels.
    fn expand(
        &self,
        head: usize,
        explorer: &mut Explorer,
        Ghost(start): Ghost<int>,
        Ghost(level): Ghost<Seq<nat>>,
    ) -> (levels: Ghost<Seq<nat>>)
        requires
            self.wf(),
            head < old(explorer)@.frontier.len(),
            is_search(self@, start, old(explorer)@, level, head as int),
        ensures
            final(explorer)@ == self@.expanded_from(
                old(explorer)@,
                old(explorer)@.frontier[head as int] as int,
                0,
            ),
            is_search(self@, start, final(explorer)@, levels@, head + 1),
            final(explorer)@.frontier.len() >= old(explorer)@.frontier.len(),
            forall|j: int|
                0 <= j < old(explorer)@.frontier.len() ==> #[trigger] final(explorer)@.frontier[j]
                    == old(explorer)@.frontier[j],
    {
        let ghost p = self@;
        let ghost queue = explorer.frontier@;
        let current = explorer.frontier[head];
        assert(current < p.len()) by {
            reveal(is_search);
        }
        let ghost wide = p.expanded_from(explorer@, current as int, 0);
        let ghost mut level = level;
        let mut d: usize = 0;
        while d < 4
            invariant
                self.wf(),
                self@ == p,
                current < p.len(),
                d <= 4,
                head < explorer.frontier@.len(),
                explorer.frontier@[head as int] == current,
                explorer.frontier@.len() >= queue.len(),
                forall|j: int|
                    0 <= j < queue.len() ==> #[trigger] explorer.frontier@[j] == queue[j],
                p.expanded_from(explorer@, current as int, d as int) == wide,
                is_search(p, start, explorer@, level, head as int),
                forall|e: int|
                    0 <= e < d ==> #[trigger] is_looked(p, explorer@, level, current as int, e),
            decreases 4 - d,
        {
            let ghost before = explorer@;
            let ghost depth = level;
            let levels = self.look(head, d, explorer, Ghost(start), Ghost(level));
            proof {
                level = levels@;
                let after = explorer@;
                assert forall|e: int| 0 <= e < d + 1 implies #[trigger] is_looked(
                    p,
                    after,
                    level,
                    current as int,
                    e,
                ) by {
                    if e < d {
                        assert(is_looked(p, before, depth, current as int, e));
                    }
                }
            }
            d = d + 1;
        }
        proof {
            lemma_neighbours(p.size, current as int);
            let after = explorer@;
            assert forall|w: int|
                0 <= w < p.len() && #[trigger] p.open_step(
                    current as int,
                    w,
                ) implies explorer.visited@[w] && level[w] <= level[current as int] + 1 by {
                let e = choose|e: int|
                    0 <= e < 4 && #[trigger] neighbour_of(p.size, current as int, e) == Some(w);
                assert(is_looked(p, after, level, current as int, e));
            }
            assert(is_expanded(p, explorer.visited@, level, current as int));
            lemma_search_advances(p, start, after, level, head as int);
        }
        Ghost(level)
    }

    /// A shortest route from `(x1, y1)` to `(x2, y2)` over the cells of
    /// positive value, found by breadth-first search that expands down, up,
    /// right, left.
    ///
    /// The result is empty if either end has value 0 or no route exists.
    /// Otherwise it lists the cells of a route from the first cell to the
    /// second, both included, and no route between the two is shorter.
    pub fn path(&mut self, x1: i32, y1: i32, x2: i32, y2: i32) -> (route: Vec<usize>)
        requires
            old(self).wf(),
            old(self)@.in_grid(x1 as int, y1 as int),
            old(self)@.in_grid(x2 as int, y2 as int),
        ensures
            final(self).wf(),
            final(self)@ == old(self)@,
            route@ == old(self)@.found_route(
                old(self)@.cell(x1 as int, y1 as int),
                old(self)@.cell(x2 as int, y2 as int),
            ),
            route@.len() > 0 <==> (old(self)@.values[old(self)@.cell(x1 as int, y1 as int)] != 0
                && old(self)@.values[old(self)@.cell(x2 as int, y2 as int)] != 0 && old(
                self
            )@.reachable(
                old(self)@.cell(x1 as int, y1 as int),
                old(self)@.cell(x2 as int, y2 as int),
            )),
            route@.len() > 0 ==> old(self)@.is_route(cells_of(route@)) && route@[0] == old(
                self
            )@.cell(x1 as int, y1 as int) && route@[route@.len() - 1] == old(self)@.cell(
                x2 as int,
                y2 as int,
            ),
            route@.len() > 0 ==> forall|other: Seq<int>| #[trigger]
                old(self)@.is_route(other) && other[0] == old(self)@.cell(x1 as int, y1 as int)
                    && other[other.len() - 1] == old(self)@.cell(x2 as int, y2 as int)
                    ==> route@.len() <= other.len(),
    {
        let start = self.index(x1, y1);
        let goal = self.index(x2, y2);
        if self.value(start) == 0 || self.value(goal) == 0 {
            return Vec::new();
        }
        let total = self.len();
        let ghost p = self@;
        let mut explorer = Explorer {
            visited: vec![false; total],
            came_from: vec![0usize; total],
            frontier: Vec::new(),
        };
        let ghost mut level: Seq<nat> = Seq::new(total as nat, |i: int| 0nat);
        explorer.visited[start] = true;
        explorer.frontier.push(start);
        let ghost begin = explorer@;
        proof {
            assert(begin.visited =~= p.search_start(start as int).visited);
            assert(begin.came_from =~= p.search_start(start as int).came_from);
            assert(begin.frontier =~= p.search_start(start as int).frontier);
            lemma_search_begins(p, start);
        }
        let ghost end = p.searched(begin, 0, goal as int);
        let mut head: usize = 0;
        let mut found = false;
        while !found && head < explorer.frontier.len()
            invariant
                self.wf(),
                self@ == p,
                *self == *old(self),
                total == p.len(),
                start < total,
                goal < total,
                head <= explorer.frontier@.len(),
                p.searched(explorer@, head as int, goal as int) == end,
                is_search(p, start as int, explorer@, level, head as int),
                found ==> head < explorer.frontier@.len() && explorer.frontier@[head as int]
                    == goal,
                forall|j: int| 0 <= j < head ==> #[trigger] explorer.frontier@[j] != goal,
            decreases total - head + if found { 0int } else { 1 },
        {
            proof {
                lemma_search_reaches(p, start as int, explorer@, level, head as int);
            }
            let current = explorer.frontier[head];
            if current == goal {
                found = true;
            } else {
                let ghost queue = explorer.frontier@;
                let levels = self.expand(head, &mut explorer, Ghost(start as int), Ghost(level));
                proof {
                    level = levels@;
                    assert forall|j: int| 0 <= j < head + 1 implies #[trigger] explorer.frontier@[j]
                        != goal by {
                        assert(explorer.frontier@[j] == queue[j]);
                    }
                }
                head = head + 1;
            }
        }
        let ghost last = explorer@;
        assert(end == last);
        assert(explorer.visited@.len() == total) by {
            reveal(is_search);
        }
        if !found {
            proof {
                if p.reachable(start as int, goal as int) {
                    lemma_search_is_complete(p, start as int, last, level, goal as int);
                }
                if explorer.visited@[goal as int] {
                    reveal(is_search);
                    let j = choose|j: int|
                        0 <= j < explorer.frontier@.len() && #[trigger] explorer.frontier@[j]
                            == goal;
                    assert(explorer.frontier@[j] != goal);
                }
            }
        } else {
            proof {
                lemma_search_reaches(p, start as int, last, level, head as int);
            }
        }
        if !explorer.visited[goal] {
            return Vec::new();
        }
        let points = trace_back(
            &explorer.came_from,
            start,
            goal,
            Ghost(p),
            Ghost(end),
            Ghost(level),
        );
        let route = turned(&points);
        proof {
            lemma_trace_is_shortest(p, start as int, last, level, head as int, points@);
        }
        route
    }
}

} // verus!
