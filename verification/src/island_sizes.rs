//! Problem: consider a rectangular grid, where each square is either water or land.
//! The squares of land can be partitioned into _islands_:
//! groups of land squares connected orthogonally or diagonally.
//! Given such a rectangular grid, find the sizes of each of its islands.

use crate::grid::Grid;
use std::collections::VecDeque;
use vstd::prelude::*;

verus! {

/// The possible square types.
#[derive(Clone, Copy, PartialEq, Eq, Structural)]
pub enum Square {
    Water,
    Land,
}

type SquareIndex = (i32, i32);

/// The number of marked cells among the first `j` cells in row-major order.
pub open spec fn count_marked(visited: Grid<bool>, j: int) -> int
    decreases j,
{
    if j <= 0 {
        0
    } else {
        count_marked(visited, j - 1) + if visited.cell(
            (j - 1) % visited.spec_width(),
            (j - 1) / visited.spec_width(),
        ) {
            1int
        } else {
            0int
        }
    }
}

/// The number of land cells among the first `j` cells in row-major order.
pub open spec fn count_land(grid: Grid<Square>, j: int) -> int
    decreases j,
{
    if j <= 0 {
        0
    } else {
        count_land(grid, j - 1) + if grid.cell(
            (j - 1) % grid.spec_width(),
            (j - 1) / grid.spec_width(),
        ) == Square::Land {
            1int
        } else {
            0int
        }
    }
}

/// The sum of the entries of a list of sizes.
pub open spec fn sum_sizes(sizes: Seq<usize>) -> int
    decreases sizes.len(),
{
    if sizes.len() == 0 {
        0
    } else {
        sum_sizes(sizes.drop_last()) + sizes.last()
    }
}

/// A visit marker grid matches a terrain grid when it has the same dimensions
/// and only marks land squares.
pub open spec fn marks_land_only(grid: Grid<Square>, visited: Grid<bool>) -> bool {
    &&& visited.wf()
    &&& visited.spec_width() == grid.spec_width()
    &&& visited.spec_height() == grid.spec_height()
    &&& forall|x: int, y: int|
        visited.in_bounds(x, y) && #[trigger] visited.cell(x, y) ==> grid.cell(x, y)
            == Square::Land
}

/// Marked counts never exceed the number of cells counted.
proof fn lemma_count_marked_bound(visited: Grid<bool>, j: int)
    requires
        0 <= j,
    ensures
        0 <= count_marked(visited, j) <= j,
    decreases j,
{
    if j > 0 {
        lemma_count_marked_bound(visited, j - 1);
    }
}

/// Marking one previously unmarked cell raises the marked count of the whole
/// grid by exactly one.
proof fn lemma_count_marked_update(g1: Grid<bool>, g2: Grid<bool>, x: int, y: int, j: int)
    requires
        g1.wf(),
        g2.wf(),
        g1.spec_width() == g2.spec_width(),
        g1.spec_height() == g2.spec_height(),
        g1.in_bounds(x, y),
        !g1.cell(x, y),
        g2.cell(x, y),
        forall|a: int, b: int|
            g1.in_bounds(a, b) && !(a == x && b == y) ==> #[trigger] g2.cell(a, b) == g1.cell(a, b),
        0 <= j <= g1.spec_width() * g1.spec_height(),
    ensures
        count_marked(g2, j) == count_marked(g1, j) + if y * g1.spec_width() + x < j {
            1int
        } else {
            0int
        },
    decreases j,
{
    let w = g1.spec_width();
    let h = g1.spec_height();
    if j > 0 {
        lemma_count_marked_update(g1, g2, x, y, j - 1);
        let cx = (j - 1) % w;
        let cy = (j - 1) / w;
        assert(w > 0) by {
            g1.lemma_dims();
            if w <= 0 {
                assert(w * h <= 0) by (nonlinear_arith)
                    requires
                        w <= 0,
                        h >= 0,
                ;
            }
        }
        vstd::arithmetic::div_mod::lemma_fundamental_div_mod(j - 1, w);
        vstd::arithmetic::div_mod::lemma_mod_bound(j - 1, w);
        vstd::arithmetic::div_mod::lemma_div_pos_is_pos(j - 1, w);
        assert(cy < h && cy * w + cx == j - 1) by (nonlinear_arith)
            requires
                w * cy + cx == j - 1,
                0 <= cx < w,
                j - 1 < w * h,
                w > 0,
                0 <= cy,
        ;
        if cx == x && cy == y {
            assert(y * w + x == j - 1);
        } else {
            assert(g2.cell(cx, cy) == g1.cell(cx, cy));
            assert(y * w + x != j - 1) by {
                if y * w + x == j - 1 {
                    assert(y == cy && x == cx) by (nonlinear_arith)
                        requires
                            y * w + x == cy * w + cx,
                            0 <= x < w,
                            0 <= cx < w,
                    ;
                }
            }
        }
    }
}

/// When exactly the land cells are marked, the marked count equals the land count.
proof fn lemma_counts_agree(grid: Grid<Square>, visited: Grid<bool>, j: int)
    requires
        grid.wf(),
        marks_land_only(grid, visited),
        forall|x: int, y: int|
            visited.in_bounds(x, y) && #[trigger] grid.cell(x, y) == Square::Land ==> visited.cell(
                x,
                y,
            ),
        0 <= j <= grid.spec_width() * grid.spec_height(),
    ensures
        count_marked(visited, j) == count_land(grid, j),
    decreases j,
{
    let w = grid.spec_width();
    let h = grid.spec_height();
    if j > 0 {
        lemma_counts_agree(grid, visited, j - 1);
        let cx = (j - 1) % w;
        let cy = (j - 1) / w;
        assert(w > 0) by {
            grid.lemma_dims();
            if w <= 0 {
                assert(w * h <= 0) by (nonlinear_arith)
                    requires
                        w <= 0,
                        h >= 0,
                ;
            }
        }
        vstd::arithmetic::div_mod::lemma_fundamental_div_mod(j - 1, w);
        vstd::arithmetic::div_mod::lemma_mod_bound(j - 1, w);
        vstd::arithmetic::div_mod::lemma_div_pos_is_pos(j - 1, w);
        assert(cy < h) by (nonlinear_arith)
            requires
                w * cy + cx == j - 1,
                0 <= cx,
                j - 1 < w * h,
                w > 0,
                0 <= cy,
        ;
        assert(visited.in_bounds(cx, cy));
        assert(visited.cell(cx, cy) <==> grid.cell(cx, cy) == Square::Land);
    }
}

/// Data type for keeping track of visited squares.
struct VisitTracker {
    /// The number of squares visited by this tracker.
    num_visited: usize,
    /// A queue of indices of visited squares whose neighbors still need visiting.
    queue: VecDeque<SquareIndex>,
}

impl VisitTracker {
    /// Creates a new tracker that has not yet visited any squares.
    fn new() -> (t: VisitTracker)
        ensures
            t.num_visited == 0,
            t.queue@.len() == 0,
    {
        VisitTracker { num_visited: 0, queue: VecDeque::new() }
    }

    /// Visits the square at the given index, updating the tracker's info appropriately.
    ///
    /// Fails without updating the tracker if the index is out of bounds,
    /// the square is a water square, or the square has already been visited.
    ///
    /// The ghost `n` is the total number of squares; the count of marked squares
    /// never exceeds it, which also bounds the tracker's counter.
    fn visit(
        &mut self,
        grid: &Grid<Square>,
        visited: &mut Grid<bool>,
        index: SquareIndex,
        Ghost(n): Ghost<int>,
    ) -> (r: Result<(), ()>)
        requires
            grid.wf(),
            n == grid.spec_width() * grid.spec_height(),
            marks_land_only(*grid, *old(visited)),
            old(self).num_visited <= count_marked(*old(visited), n),
        ensures
            marks_land_only(*grid, *final(visited)),
            forall|a: int, b: int|
                old(visited).in_bounds(a, b) && #[trigger] old(visited).cell(a, b)
                    ==> final(visited).cell(a, b),
            final(self).num_visited <= count_marked(*final(visited), n),
            count_marked(*old(visited), n) <= n ==> count_marked(*final(visited), n) <= n,
            match r {
                Ok(_) => {
                    let x = index.0 as int;
                    let y = index.1 as int;
                    &&& grid.in_bounds(x, y)
                    &&& grid.cell(x, y) == Square::Land
                    &&& !old(visited).cell(x, y)
                    &&& final(visited).cell(x, y)
                    &&& count_marked(*final(visited), n) == count_marked(*old(visited), n) + 1
                    &&& final(self).num_visited == old(self).num_visited + 1
                    &&& final(self).queue@ == old(self).queue@.push(index)
                },
                Err(_) => {
                    let x = index.0 as int;
                    let y = index.1 as int;
                    &&& *final(visited) == *old(visited)
                    &&& *final(self) == *old(self)
                    &&& !grid.in_bounds(x, y) || grid.cell(x, y) != Square::Land || old(
                        visited,
                    ).cell(x, y)
                },
            },
    {
        let square = match grid.get(index) {
            Some(square) => *square,
            None => {
                return Err(());
            },
        };
        let already = match visited.get(index) {
            Some(flag) => *flag,
            None => {
                return Err(());
            },
        };
        if square == Square::Land && !already {
            let ghost before = *visited;
            match visited.get_mut(index) {
                Some(flag) => {
                    *flag = true;
                },
                None => {
                    proof {
                        assert(false);
                    }
                },
            }
            proof {
                grid.lemma_dims();
                lemma_count_marked_update(before, *visited, index.0 as int, index.1 as int, n);
                lemma_count_marked_bound(*visited, n);
                let x = index.0 as int;
                let y = index.1 as int;
                let w = grid.spec_width();
                assert(y * w + x < n) by (nonlinear_arith)
                    requires
                        0 <= x < w,
                        0 <= y < grid.spec_height(),
                        n == w * grid.spec_height(),
                ;
            }
            self.num_visited = self.num_visited + 1;
            self.queue.push_back(index);
            Ok(())
        } else {
            Err(())
        }
    }
}

/// Visits every square in the island containing the square at the given index,
/// and returns the number of squares visited.
/// Returns None if the square at the given index is a water square or has already been visited.
fn visit_island(grid: &Grid<Square>, index: SquareIndex, visited: &mut Grid<bool>) -> (r: Option<
    usize,
>)
    requires
        grid.wf(),
        grid.spec_width() <= i32::MAX,
        grid.spec_height() <= i32::MAX,
        marks_land_only(*grid, *old(visited)),
    ensures
        marks_land_only(*grid, *final(visited)),
        forall|a: int, b: int|
            old(visited).in_bounds(a, b) && #[trigger] old(visited).cell(a, b)
                ==> final(visited).cell(a, b),
        match r {
            Some(k) => {
                let n = grid.spec_width() * grid.spec_height();
                &&& 1 <= k
                &&& count_marked(*final(visited), n) == count_marked(*old(visited), n) + k
                &&& final(visited).cell(index.0 as int, index.1 as int)
            },
            None => {
                let x = index.0 as int;
                let y = index.1 as int;
                &&& *final(visited) == *old(visited)
                &&& !grid.in_bounds(x, y) || grid.cell(x, y) != Square::Land || old(visited).cell(
                    x,
                    y,
                )
            },
        },
{
    let ghost n = grid.spec_width() * grid.spec_height();
    let ghost initial = *visited;
    let ghost initial_count = count_marked(*old(visited), n);
    let mut tracker = VisitTracker::new();
    proof {
        grid.lemma_dims();
        assert(n >= 0) by (nonlinear_arith)
            requires
                grid.spec_width() >= 0,
                grid.spec_height() >= 0,
                n == grid.spec_width() * grid.spec_height(),
        ;
        lemma_count_marked_bound(*visited, n);
    }
    if tracker.visit(grid, visited, index, Ghost(n)).is_err() {
        return None;
    }
    while tracker.queue.len() > 0
        invariant
            grid.wf(),
            grid.spec_width() <= i32::MAX,
            grid.spec_height() <= i32::MAX,
            n == grid.spec_width() * grid.spec_height(),
            marks_land_only(*grid, *visited),
            marks_land_only(*grid, initial),
            forall|a: int, b: int|
                initial.in_bounds(a, b) && #[trigger] initial.cell(a, b) ==> visited.cell(a, b),
            1 <= tracker.num_visited,
            tracker.num_visited <= count_marked(*visited, n),
            count_marked(*visited, n) <= n,
            count_marked(*visited, n) == initial_count + tracker.num_visited,
            forall|i: int|
                0 <= i < tracker.queue@.len() ==> {
                    let q = #[trigger] tracker.queue@[i];
                    grid.in_bounds(q.0 as int, q.1 as int)
                },
            grid.in_bounds(index.0 as int, index.1 as int),
            visited.cell(index.0 as int, index.1 as int),
        decreases 2 * (n - count_marked(*visited, n)) + tracker.queue@.len(),
    {
        let popped = tracker.queue.pop_front();
        let (x, y) = match popped {
            Some(q) => q,
            None => {
                proof {
                    assert(false);
                }
                (0, 0)
            },
        };
        let ghost prev = *visited;
        visit_neighborhood(grid, visited, &mut tracker, x, y, Ghost(n));
        proof {
            assert forall|a: int, b: int|
                initial.in_bounds(a, b) && #[trigger] initial.cell(a, b) implies visited.cell(
                a,
                b,
            ) by {
                assert(prev.cell(a, b));
            }
        }
    }
    Some(tracker.num_visited)
}

/// Visits the eight neighbors of an in-bounds square, marking and enqueuing
/// whichever of them are unvisited land squares.
fn visit_neighborhood(
    grid: &Grid<Square>,
    visited: &mut Grid<bool>,
    tracker: &mut VisitTracker,
    x: i32,
    y: i32,
    Ghost(n): Ghost<int>,
)
    requires
        grid.wf(),
        grid.spec_width() <= i32::MAX,
        grid.spec_height() <= i32::MAX,
        n == grid.spec_width() * grid.spec_height(),
        grid.in_bounds(x as int, y as int),
        marks_land_only(*grid, *old(visited)),
        old(tracker).num_visited <= count_marked(*old(visited), n),
        count_marked(*old(visited), n) <= n,
        forall|i: int|
            0 <= i < old(tracker).queue@.len() ==> {
                let q = #[trigger] old(tracker).queue@[i];
                grid.in_bounds(q.0 as int, q.1 as int)
            },
    ensures
        marks_land_only(*grid, *final(visited)),
        forall|a: int, b: int|
            old(visited).in_bounds(a, b) && #[trigger] old(visited).cell(a, b)
                ==> final(visited).cell(a, b),
        final(tracker).num_visited <= count_marked(*final(visited), n),
        count_marked(*final(visited), n) <= n,
        old(tracker).num_visited <= final(tracker).num_visited,
        count_marked(*final(visited), n) - count_marked(*old(visited), n)
            == final(tracker).num_visited - old(tracker).num_visited,
        final(tracker).queue@.len() - old(tracker).queue@.len()
            == final(tracker).num_visited - old(tracker).num_visited,
        forall|i: int|
            0 <= i < final(tracker).queue@.len() ==> {
                let q = #[trigger] final(tracker).queue@[i];
                grid.in_bounds(q.0 as int, q.1 as int)
            },
{
    proof {
        grid.lemma_dims();
    }
    let _ = tracker.visit(grid, visited, (x - 1, y - 1), Ghost(n));
    let _ = tracker.visit(grid, visited, (x, y - 1), Ghost(n));
    let _ = tracker.visit(grid, visited, (x + 1, y - 1), Ghost(n));
    let _ = tracker.visit(grid, visited, (x - 1, y), Ghost(n));
    let _ = tracker.visit(grid, visited, (x + 1, y), Ghost(n));
    let _ = tracker.visit(grid, visited, (x - 1, y + 1), Ghost(n));
    let _ = tracker.visit(grid, visited, (x, y + 1), Ghost(n));
    let _ = tracker.visit(grid, visited, (x + 1, y + 1), Ghost(n));
    proof {
        assert(n >= 0) by (nonlinear_arith)
            requires
                grid.spec_width() >= 0,
                grid.spec_height() >= 0,
                n == grid.spec_width() * grid.spec_height(),
        ;
        lemma_count_marked_bound(*visited, n);
    }
}

/// Returns the sizes of the islands in the given grid (in no particular order).
///
/// Each size is at least one, and together the sizes account for every land
/// square exactly once.
pub fn island_sizes(grid: &Grid<Square>) -> (r: Vec<usize>)
    requires
        grid.wf(),
        grid.spec_width() <= i32::MAX,
        grid.spec_height() <= i32::MAX,
    ensures
        sum_sizes(r@) == count_land(*grid, grid.spec_width() * grid.spec_height()),
        forall|i: int| 0 <= i < r@.len() ==> 1 <= #[trigger] r@[i],
{
    let ghost n = grid.spec_width() * grid.spec_height();
    let width = grid.width();
    let height = grid.height();
    proof {
        grid.lemma_dims();
    }
    let mut visited: Grid<bool> = Grid::filled(false, grid.dimensions());
    proof {
        assert(count_marked(visited, 0) == 0);
        lemma_count_all_unmarked(visited, n);
    }
    let mut result: Vec<usize> = Vec::new();
    let mut y: usize = 0;
    while y < height
        invariant
            grid.wf(),
            grid.spec_width() == width,
            grid.spec_height() == height,
            width <= i32::MAX,
            height <= i32::MAX,
            n == width * height,
            y <= height,
            marks_land_only(*grid, visited),
            sum_sizes(result@) == count_marked(visited, n),
            forall|i: int| 0 <= i < result@.len() ==> 1 <= #[trigger] result@[i],
            forall|a: int, b: int|
                #![trigger visited.cell(a, b)]
                visited.in_bounds(a, b) && b < y && grid.cell(a, b) == Square::Land
                    ==> visited.cell(a, b),
        decreases height - y,
    {
        let mut x: usize = 0;
        while x < width
            invariant
                grid.wf(),
                grid.spec_width() == width,
                grid.spec_height() == height,
                width <= i32::MAX,
                height <= i32::MAX,
                n == width * height,
                y < height,
                x <= width,
                marks_land_only(*grid, visited),
                sum_sizes(result@) == count_marked(visited, n),
                forall|i: int| 0 <= i < result@.len() ==> 1 <= #[trigger] result@[i],
                forall|a: int, b: int|
                    #![trigger visited.cell(a, b)]
                    visited.in_bounds(a, b) && (b < y || (b == y && a < x)) && grid.cell(a, b)
                        == Square::Land ==> visited.cell(a, b),
            decreases width - x,
        {
            let ghost prev_sum = sum_sizes(result@);
            let ghost prev = visited;
            match visit_island(grid, (x as i32, y as i32), &mut visited) {
                Some(k) => {
                    proof {
                        assert(sum_sizes(result@.push(k)) == prev_sum + k) by {
                            assert(result@.push(k).drop_last() =~= result@);
                        }
                    }
                    result.push(k);
                },
                None => {},
            }
            proof {
                assert forall|a: int, b: int|
                    #![trigger visited.cell(a, b)]
                    visited.in_bounds(a, b) && (b < y || (b == y && a < x + 1)) && grid.cell(a, b)
                        == Square::Land implies visited.cell(a, b) by {
                    if !(a == x && b == y) {
                        assert(prev.cell(a, b));
                    }
                }
            }
            x = x + 1;
        }
        y = y + 1;
    }
    proof {
        lemma_counts_agree(*grid, visited, n);
    }
    result
}

/// A freshly created marker grid has no marks anywhere, so its marked count is zero.
proof fn lemma_count_all_unmarked(visited: Grid<bool>, j: int)
    requires
        0 <= j,
        visited.wf(),
        forall|x: int, y: int| visited.in_bounds(x, y) ==> !(#[trigger] visited.cell(x, y)),
        j <= visited.spec_width() * visited.spec_height(),
    ensures
        count_marked(visited, j) == 0,
    decreases j,
{
    let w = visited.spec_width();
    let h = visited.spec_height();
    if j > 0 {
        lemma_count_all_unmarked(visited, j - 1);
        let cx = (j - 1) % w;
        let cy = (j - 1) / w;
        assert(w > 0) by {
            visited.lemma_dims();
            if w <= 0 {
                assert(w * h <= 0) by (nonlinear_arith)
                    requires
                        w <= 0,
                        h >= 0,
                ;
            }
        }
        vstd::arithmetic::div_mod::lemma_fundamental_div_mod(j - 1, w);
        vstd::arithmetic::div_mod::lemma_mod_bound(j - 1, w);
        vstd::arithmetic::div_mod::lemma_div_pos_is_pos(j - 1, w);
        assert(cy < h) by (nonlinear_arith)
            requires
                w * cy + cx == j - 1,
                0 <= cx,
                j - 1 < w * h,
                w > 0,
                0 <= cy,
        ;
        assert(visited.in_bounds(cx, cy));
    }
}

} // verus!
