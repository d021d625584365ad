//! Problem: consider a rectangular region of land consisting of square cells at
//! different altitudes, represented by a grid of numbers.
//!
//! Rain that falls on a cell flows to the unique lowest cell among the cell and
//! its orthogonal neighbors (regions where that cell is not unique are invalid),
//! and eventually collects in a sink: a cell lower than all of its neighbors.
//! Every sink is associated with a _basin_: the set of cells that drain into it.
//!
//! Task: identify the basins in a given region.

use crate::grid::Grid;
use vstd::prelude::*;

verus! {

pub type CellCoordinates = (i32, i32);

/// A basin, identified by the sink that the basin is associated with.
#[derive(Clone, Copy, PartialEq, Eq, Debug)]
pub struct Basin {
    /// The coordinates of the sink that all cells in the basin drain into.
    sink: CellCoordinates,
}

impl Basin {
    /// The coordinates of the sink that all cells in the basin drain into.
    pub closed spec fn spec_sink(self) -> CellCoordinates {
        self.sink
    }

    /// Creates the basin associated with the sink at the given coordinates.
    pub fn new(sink: CellCoordinates) -> (b: Basin)
        ensures
            b.spec_sink() == sink,
    {
        Basin { sink }
    }

    /// The coordinates of the sink that all cells in the basin drain into.
    pub fn sink(self) -> (s: CellCoordinates)
        ensures
            s == self.spec_sink(),
    {
        self.sink
    }
}

pub type Altitude = i32;

pub type Region = Grid<Altitude>;

/// The cell itself and its four orthogonal neighbors.
pub open spec fn neighborhood_of(cell: (int, int)) -> Seq<(int, int)> {
    seq![
        cell,
        (cell.0 - 1, cell.1),
        (cell.0 + 1, cell.1),
        (cell.0, cell.1 - 1),
        (cell.0, cell.1 + 1),
    ]
}

/// Whether `c` is the unique cell of lowest altitude among the in-bounds cells
/// of the neighborhood of `cell`.
pub open spec fn is_unique_lowest(region: Region, cell: (int, int), c: (int, int)) -> bool {
    &&& neighborhood_of(cell).contains(c)
    &&& region.in_bounds(c.0, c.1)
    &&& forall|d: (int, int)|
        neighborhood_of(cell).contains(d) && region.in_bounds(d.0, d.1) && d != c
            ==> #[trigger] region.cell(d.0, d.1) > region.cell(c.0, c.1)
}

/// The unique locally lowest cell of the neighborhood, if there is one.
pub open spec fn unique_lowest(region: Region, cell: (int, int)) -> Option<(int, int)> {
    if exists|c: (int, int)| is_unique_lowest(region, cell, c) {
        Some(choose|c: (int, int)| is_unique_lowest(region, cell, c))
    } else {
        None
    }
}

/// At most one cell can be the unique lowest of a neighborhood.
proof fn lemma_unique_lowest_is(region: Region, cell: (int, int), c: (int, int))
    requires
        is_unique_lowest(region, cell, c),
    ensures
        unique_lowest(region, cell) == Some(c),
{
    let c2 = choose|c2: (int, int)| is_unique_lowest(region, cell, c2);
    if c2 != c {
        assert(region.cell(c.0, c.1) > region.cell(c2.0, c2.1));
        assert(region.cell(c2.0, c2.1) > region.cell(c.0, c.1));
    }
}

/// The sink that the given cell drains into, when every step of the drainage
/// path has a unique locally lowest cell; None as soon as a step does not.
pub open spec fn drain_to(region: Region, cell: (int, int)) -> Option<(int, int)>
    decreases
            (if region.in_bounds(cell.0, cell.1) {
                region.cell(cell.0, cell.1) as int
            } else {
                0
            }) - i32::MIN,
    via drain_to_decreases
{
    if !region.in_bounds(cell.0, cell.1) {
        None
    } else {
        match unique_lowest(region, cell) {
            None => None,
            Some(c) => if c == cell {
                Some(cell)
            } else {
                drain_to(region, c)
            },
        }
    }
}

#[via_fn]
proof fn drain_to_decreases(region: Region, cell: (int, int)) {
    if region.in_bounds(cell.0, cell.1) {
        if unique_lowest(region, cell) is Some {
            let c = unique_lowest(region, cell)->Some_0;
            assert(is_unique_lowest(region, cell, c));
            if c != cell {
                assert(neighborhood_of(cell)[0] == cell);
                assert(neighborhood_of(cell).contains(cell));
                assert(region.cell(cell.0, cell.1) > region.cell(c.0, c.1));
            }
        }
    }
}

/// The lowest altitude among the given `(coordinates, altitude)` pairs.
pub open spec fn min_altitude(pairs: Seq<(CellCoordinates, Altitude)>) -> int
    decreases pairs.len(),
{
    if pairs.len() <= 1 {
        if pairs.len() == 1 {
            pairs[0].1 as int
        } else {
            0
        }
    } else {
        let m = min_altitude(pairs.drop_last());
        if pairs.last().1 < m {
            pairs.last().1 as int
        } else {
            m
        }
    }
}

/// The pairs of lowest altitude, in their original order.
pub open spec fn min_pairs(pairs: Seq<(CellCoordinates, Altitude)>) -> Seq<
    (CellCoordinates, Altitude),
> {
    pairs.filter(|p: (CellCoordinates, Altitude)| p.1 == min_altitude(pairs))
}

/// The minimum is a lower bound and, for a nonempty list, is attained.
proof fn lemma_min_altitude(pairs: Seq<(CellCoordinates, Altitude)>)
    ensures
        forall|j: int| 0 <= j < pairs.len() ==> (#[trigger] pairs[j]).1 >= min_altitude(pairs),
        pairs.len() > 0 ==> exists|j: int|
            0 <= j < pairs.len() && (#[trigger] pairs[j]).1 == min_altitude(pairs),
    decreases pairs.len(),
{
    if pairs.len() == 1 {
        assert((pairs[0]).1 == min_altitude(pairs));
    } else if pairs.len() > 1 {
        lemma_min_altitude(pairs.drop_last());
        assert forall|j: int| 0 <= j < pairs.len() implies (#[trigger] pairs[j]).1 >= min_altitude(
            pairs,
        ) by {
            if j < pairs.len() - 1 {
                assert(pairs.drop_last()[j] == pairs[j]);
            }
        }
        if pairs.last().1 < min_altitude(pairs.drop_last()) {
            assert((pairs[pairs.len() - 1]).1 == min_altitude(pairs));
        } else {
            let j = choose|j: int|
                0 <= j < pairs.drop_last().len() && (#[trigger] pairs.drop_last()[j]).1
                    == min_altitude(pairs.drop_last());
            assert(pairs[j] == pairs.drop_last()[j]);
            assert((pairs[j]).1 == min_altitude(pairs));
        }
    }
}

/// Every element of a filtered sequence is an element of the original.
proof fn lemma_filter_subset<A>(s: Seq<A>, pred: spec_fn(A) -> bool)
    ensures
        forall|i: int| 0 <= i < s.filter(pred).len() ==> s.contains(#[trigger] s.filter(pred)[i]),
    decreases s.len(),
{
    reveal(Seq::filter);
    if s.len() > 0 {
        lemma_filter_subset(s.drop_last(), pred);
        assert forall|i: int| 0 <= i < s.filter(pred).len() implies s.contains(
            #[trigger] s.filter(pred)[i],
        ) by {
            let sub = s.drop_last().filter(pred);
            if i < sub.len() {
                assert(s.filter(pred)[i] == sub[i]);
                let j = choose|j: int|
                    0 <= j < s.drop_last().len() && s.drop_last()[j] == sub[i];
                assert(s[j] == sub[i]);
            } else {
                assert(s.filter(pred)[i] == s.last());
                assert(s[s.len() - 1] == s.last());
            }
        }
    }
}

/// Filtering a sequence of pairwise-distinct elements yields pairwise-distinct elements.
proof fn lemma_filter_distinct<A>(s: Seq<A>, pred: spec_fn(A) -> bool)
    requires
        forall|i: int, j: int| 0 <= i < j < s.len() ==> s[i] != s[j],
    ensures
        forall|i: int, j: int|
            0 <= i < j < s.filter(pred).len() ==> s.filter(pred)[i] != s.filter(pred)[j],
    decreases s.len(),
{
    reveal(Seq::filter);
    if s.len() > 0 {
        assert forall|i: int, j: int| 0 <= i < j < s.drop_last().len() implies s.drop_last()[i]
            != s.drop_last()[j] by {
            assert(s.drop_last()[i] == s[i] && s.drop_last()[j] == s[j]);
        }
        lemma_filter_distinct(s.drop_last(), pred);
        lemma_filter_subset(s.drop_last(), pred);
        let sub = s.drop_last().filter(pred);
        assert forall|i: int, j: int|
            0 <= i < j < s.filter(pred).len() implies s.filter(pred)[i] != s.filter(pred)[j] by {
            if j < sub.len() {
            } else {
                // The last element of the filtered list is s.last(), which differs
                // from every element of the shorter prefix.
                assert(s.filter(pred)[j] == s.last());
                assert(s.filter(pred)[i] == sub[i]);
                assert(s.drop_last().contains(sub[i]));
                let t = choose|t: int| 0 <= t < s.drop_last().len() && s.drop_last()[t] == sub[i];
                assert(s[t] == sub[i]);
                assert(s[t] != s[s.len() - 1]);
            }
        }
    }
}

/// Relies on itertools' `Itertools::min_set_by_key`: given a key function, it
/// returns exactly the elements whose key is minimal, in their original order
/// (an empty input yields an empty result).
#[verifier::external_body]
fn min_set_by_altitude(pairs: Vec<(CellCoordinates, Altitude)>) -> (r: Vec<
    (CellCoordinates, Altitude),
>)
    ensures
        r@ == min_pairs(pairs@),
{
    itertools::Itertools::min_set_by_key(pairs.into_iter(), |&(_, altitude)| altitude)
}

/// Returns the coordinates of the cell of lowest altitude
/// based on the given `(coordinates, altitude)` pairs,
/// or None if there are multiple cells of lowest altitude.
fn unique_lowest_altitude_cell(pairs: Vec<(CellCoordinates, Altitude)>) -> (r: Option<
    CellCoordinates,
>)
    ensures
        match r {
            Some(c) => min_pairs(pairs@).len() == 1 && c == min_pairs(pairs@)[0].0,
            None => min_pairs(pairs@).len() != 1,
        },
{
    let lowest = min_set_by_altitude(pairs);
    if lowest.len() == 1 {
        Some(lowest[0].0)
    } else {
        None
    }
}

/// Given the coordinates of a cell, returns the possible coordinates of the cell and its neighbors.
/// Will return out-of-bounds coordinates for cells on the edge of the region.
fn neighborhood_coordinates(cell: CellCoordinates) -> (r: [CellCoordinates; 5])
    requires
        i32::MIN < cell.0 < i32::MAX,
        i32::MIN < cell.1 < i32::MAX,
    ensures
        forall|t: int|
            0 <= t < 5 ==> ((#[trigger] r@[t]).0 as int, r@[t].1 as int) == neighborhood_of(
                (cell.0 as int, cell.1 as int),
            )[t],
        r@[0] == cell,
{
    let (x, y) = cell;
    [(x, y), (x - 1, y), (x + 1, y), (x, y - 1), (x, y + 1)]
}

/// Returns the coordinates of the cell of lowest altitude
/// between the cell at the given coordinates and its neighbors.
///
/// Fails if there is more than one cell of lowest altitude,
/// returning the input coordinates to indicate
/// a violation of the unique lowest altitude requirement (and thus, an invalid region).
#[verifier::rlimit(100)]
fn locally_lowest_cell(region: &Region, cell: CellCoordinates) -> (r: Result<
    CellCoordinates,
    CellCoordinates,
>)
    requires
        region.wf(),
        region.spec_width() <= i32::MAX,
        region.spec_height() <= i32::MAX,
        region.in_bounds(cell.0 as int, cell.1 as int),
    ensures
        match r {
            Ok(c) => is_unique_lowest(
                *region,
                (cell.0 as int, cell.1 as int),
                (c.0 as int, c.1 as int),
            ),
            Err(e) => e == cell && unique_lowest(*region, (cell.0 as int, cell.1 as int)) is None,
        },
{
    let ghost cell_int = (cell.0 as int, cell.1 as int);
    let ghost nb = neighborhood_of(cell_int);
    proof {
        region.lemma_dims();
    }
    let coords = neighborhood_coordinates(cell);
    let mut pairs: Vec<(CellCoordinates, Altitude)> = Vec::new();
    let mut t: usize = 0;
    while t < 5
        invariant
            region.wf(),
            t <= 5,
            region.in_bounds(cell_int.0, cell_int.1),
            cell_int == (cell.0 as int, cell.1 as int),
            nb == neighborhood_of(cell_int),
            forall|u: int|
                0 <= u < 5 ==> ((#[trigger] coords@[u]).0 as int, coords@[u].1 as int) == nb[u],
            coords@[0] == cell,
            // Soundness: every collected pair is an in-bounds neighborhood cell
            // with its altitude.
            forall|j: int|
                0 <= j < pairs@.len() ==> exists|u: int|
                    0 <= u < t && (#[trigger] pairs@[j]).0 == coords@[u],
            forall|j: int|
                #![trigger pairs@[j]]
                0 <= j < pairs@.len() ==> {
                    let p = ((pairs@[j].0).0 as int, (pairs@[j].0).1 as int);
                    &&& region.in_bounds(p.0, p.1)
                    &&& pairs@[j].1 == region.cell(p.0, p.1)
                },
            // Completeness: every in-bounds neighborhood cell seen so far was
            // collected.
            forall|u: int|
                0 <= u < t && region.in_bounds(nb[u].0, nb[u].1) ==> exists|j: int|
                    0 <= j < pairs@.len() && (#[trigger] pairs@[j]).0 == coords@[u],
            // Distinctness: pairs hold pairwise-distinct coordinates.
            forall|j1: int, j2: int|
                0 <= j1 < j2 < pairs@.len() ==> (#[trigger] pairs@[j1]).0 != (
                #[trigger] pairs@[j2]).0,
        decreases 5 - t,
    {
        let c = coords[t];
        proof {
            // The five neighborhood coordinates are pairwise distinct, so the
            // new pair's coordinates differ from all collected ones.
            assert forall|u1: int, u2: int| 0 <= u1 < u2 < 5 implies nb[u1] != nb[u2] by {}
            assert forall|u1: int, u2: int| 0 <= u1 < u2 < 5 implies coords@[u1] != coords@[u2] by {
                if coords@[u1] == coords@[u2] {
                    assert(nb[u1] == nb[u2]);
                }
            }
        }
        let ghost old_pairs = pairs@;
        match region.get(c) {
            Some(altitude) => {
                let a = *altitude;
                pairs.push((c, a));
            },
            None => {},
        }
        proof {
            assert forall|u: int|
                0 <= u < t + 1 && region.in_bounds(nb[u].0, nb[u].1) implies exists|j: int|
                0 <= j < pairs@.len() && (#[trigger] pairs@[j]).0 == coords@[u] by {
                if u < t {
                    let j = choose|j: int|
                        0 <= j < old_pairs.len() && (#[trigger] old_pairs[j]).0 == coords@[u];
                    assert(pairs@[j].0 == coords@[u]);
                } else {
                    assert(pairs@[pairs@.len() - 1].0 == coords@[u]);
                }
            }
        }
        t = t + 1;
    }
    let ghost ps = pairs@;
    let result = unique_lowest_altitude_cell(pairs);
    proof {
        broadcast use vstd::seq_lib::group_filter_ensures;

        let pred = |p: (CellCoordinates, Altitude)| p.1 == min_altitude(ps);
        let m = min_pairs(ps);
        lemma_min_altitude(ps);
        lemma_filter_subset(ps, pred);
        // The cell itself is always collected: it is in bounds.
        assert(region.in_bounds(nb[0].0, nb[0].1));
        assert(ps.len() > 0);
        match result {
            Some(c) => {
                let c_int = (c.0 as int, c.1 as int);
                assert(m.len() == 1 && c == m[0].0);
                assert(pred(m[0]));
                assert(ps.contains(m[0]));
                let j0 = choose|j0: int| 0 <= j0 < ps.len() && ps[j0] == m[0];
                let u0 = choose|u0: int| 0 <= u0 < 5 && ps[j0].0 == coords@[u0];
                assert(nb.contains(nb[u0]));
                assert(nb[u0] == c_int);
                assert(region.cell(c_int.0, c_int.1) == min_altitude(ps));
                assert forall|d: (int, int)|
                    nb.contains(d) && region.in_bounds(d.0, d.1) && d != c_int implies region.cell(
                    d.0,
                    d.1,
                ) > region.cell(c_int.0, c_int.1) by {
                    let u = choose|u: int| 0 <= u < 5 && nb[u] == d;
                    let j = choose|j: int| 0 <= j < ps.len() && (#[trigger] ps[j]).0 == coords@[u];
                    assert(ps[j].1 == region.cell(d.0, d.1));
                    assert(ps[j].1 >= min_altitude(ps));
                    if ps[j].1 == min_altitude(ps) {
                        assert(pred(ps[j]));
                        assert(m.contains(ps[j]));
                        assert(m[0] == ps[j]);
                        assert(d == c_int);
                    }
                }
                assert(is_unique_lowest(*region, cell_int, c_int));
            },
            None => {
                assert(m.len() != 1);
                // The list is nonempty, so the minimum is attained and the
                // filtered list cannot be empty.
                let j = choose|j: int|
                    0 <= j < ps.len() && (#[trigger] ps[j]).1 == min_altitude(ps);
                assert(pred(ps[j]));
                assert(m.contains(ps[j]));
                assert(m.len() >= 2);
                lemma_filter_distinct(ps, pred);
                // Two distinct minimal cells rule out any unique lowest cell.
                assert forall|c: (int, int)| !is_unique_lowest(*region, cell_int, c) by {
                    lemma_two_minima_contradict(*region, cell_int, c, ps, coords@, m);
                }
            },
        }
    }
    match result {
        Some(c) => Ok(c),
        None => Err(cell),
    }
}

/// If some cell were the unique lowest of the neighborhood, the filtered list
/// of minimal pairs (built from pairwise-distinct in-bounds neighborhood cells)
/// could not hold two entries.
#[verifier::rlimit(100)]
proof fn lemma_two_minima_contradict(
    region: Region,
    cell_int: (int, int),
    c: (int, int),
    ps: Seq<(CellCoordinates, Altitude)>,
    coords: Seq<CellCoordinates>,
    m: Seq<(CellCoordinates, Altitude)>,
)
    requires
        m == min_pairs(ps),
        m.len() >= 2,
        coords.len() == 5,
        forall|u: int|
            0 <= u < 5 ==> ((#[trigger] coords[u]).0 as int, coords[u].1 as int) == neighborhood_of(
                cell_int,
            )[u],
        forall|j: int|
            0 <= j < ps.len() ==> exists|u: int| 0 <= u < 5 && (#[trigger] ps[j]).0 == coords[u],
        forall|u: int|
            0 <= u < 5 && region.in_bounds(
                neighborhood_of(cell_int)[u].0,
                neighborhood_of(cell_int)[u].1,
            ) ==> exists|j: int| 0 <= j < ps.len() && (#[trigger] ps[j]).0 == coords[u],
        forall|j: int|
            #![trigger ps[j]]
            0 <= j < ps.len() ==> {
                let p = ((ps[j].0).0 as int, (ps[j].0).1 as int);
                &&& region.in_bounds(p.0, p.1)
                &&& ps[j].1 == region.cell(p.0, p.1)
            },
        forall|j1: int, j2: int|
            0 <= j1 < j2 < m.len() ==> (#[trigger] m[j1]).0 != (#[trigger] m[j2]).0,
        forall|j: int| 0 <= j < m.len() ==> ps.contains(#[trigger] m[j]),
        forall|j: int| 0 <= j < m.len() ==> (#[trigger] m[j]).1 == min_altitude(ps),
        forall|j: int| 0 <= j < ps.len() ==> (#[trigger] ps[j]).1 >= min_altitude(ps),
    ensures
        !is_unique_lowest(region, cell_int, c),
{
    if !is_unique_lowest(region, cell_int, c) {
        return ;
    }
    let nb = neighborhood_of(cell_int);
    // Each of the two minimal entries denotes an in-bounds neighborhood cell of
    // minimal altitude; by uniqueness both must be `c`, yet their coordinates differ.
    let j0 = choose|j0: int| 0 <= j0 < ps.len() && ps[j0] == m[0];
    let j1 = choose|j1: int| 0 <= j1 < ps.len() && ps[j1] == m[1];
    let u0 = choose|u0: int| 0 <= u0 < 5 && (ps[j0]).0 == coords[u0];
    let u1 = choose|u1: int| 0 <= u1 < 5 && (ps[j1]).0 == coords[u1];
    let d0 = ((m[0].0).0 as int, (m[0].0).1 as int);
    let d1 = ((m[1].0).0 as int, (m[1].0).1 as int);
    assert(nb.contains(nb[u0]) && nb[u0] == d0);
    assert(nb.contains(nb[u1]) && nb[u1] == d1);
    assert(region.in_bounds(d0.0, d0.1) && region.cell(d0.0, d0.1) == min_altitude(ps));
    assert(region.in_bounds(d1.0, d1.1) && region.cell(d1.0, d1.1) == min_altitude(ps));
    assert(d0 != d1);
    // The altitude of c is at least the minimum, so neither d0 nor d1 can be
    // strictly above it on both sides.
    if d0 != c {
        assert(region.cell(d0.0, d0.1) > region.cell(c.0, c.1));
    }
    if d1 != c {
        assert(region.cell(d1.0, d1.1) > region.cell(c.0, c.1));
    }
    // c itself is an in-bounds neighborhood cell, so its altitude is in the list.
    let uc = choose|uc: int| 0 <= uc < 5 && nb[uc] == c;
    assert(exists|j: int| 0 <= j < ps.len() && (#[trigger] ps[j]).0 == coords[uc]);
    let jc = choose|jc: int| 0 <= jc < ps.len() && (#[trigger] ps[jc]).0 == coords[uc];
    assert(region.cell(c.0, c.1) == ps[jc].1);
    assert(region.cell(c.0, c.1) >= min_altitude(ps));
}

/// The memoization grid is consistent: it has the region's dimensions, and every
/// recorded basin names the sink that its cell in fact drains into.
pub open spec fn basins_consistent(region: Region, basins: Grid<Option<Basin>>) -> bool {
    &&& basins.wf()
    &&& basins.spec_width() == region.spec_width()
    &&& basins.spec_height() == region.spec_height()
    &&& forall|x: int, y: int|
        basins.in_bounds(x, y) ==> match #[trigger] basins.cell(x, y) {
            Some(b) => drain_to(region, (x, y)) == Some(
                (b.spec_sink().0 as int, b.spec_sink().1 as int),
            ),
            None => true,
        }
}

/// Identifies the basin for the cell at the given coordinates in the given region,
/// recording the basin in `basins` if not already recorded.
///
/// Fails if the region is discovered to be invalid, returning the coordinates of the cell
/// where the unique lowest altitude requirement is found to be violated.
fn identify_basin_at(
    region: &Region,
    cell: CellCoordinates,
    basins: &mut Grid<Option<Basin>>,
) -> (r: Result<(), CellCoordinates>)
    requires
        region.wf(),
        region.spec_width() <= i32::MAX,
        region.spec_height() <= i32::MAX,
        region.in_bounds(cell.0 as int, cell.1 as int),
        basins_consistent(*region, *old(basins)),
    ensures
        basins_consistent(*region, *final(basins)),
        forall|x: int, y: int|
            old(basins).in_bounds(x, y) && (#[trigger] old(basins).cell(x, y)) is Some
                ==> final(basins).cell(x, y) == old(basins).cell(x, y),
        match r {
            Ok(_) => (final(basins).cell(cell.0 as int, cell.1 as int)) is Some,
            Err(v) => {
                &&& region.in_bounds(v.0 as int, v.1 as int)
                &&& unique_lowest(*region, (v.0 as int, v.1 as int)) is None
            },
        },
    decreases region.cell(cell.0 as int, cell.1 as int) - i32::MIN,
{
    let ghost cell_int = (cell.0 as int, cell.1 as int);
    let current = match basins.get(cell) {
        Some(b) => *b,
        None => {
            proof {
                assert(false);
            }
            None
        },
    };
    if current.is_some() {
        return Ok(());
    }
    let lowest = match locally_lowest_cell(region, cell) {
        Ok(lowest) => lowest,
        Err(v) => {
            return Err(v);
        },
    };
    let ghost lowest_int = (lowest.0 as int, lowest.1 as int);
    proof {
        lemma_unique_lowest_is(*region, cell_int, lowest_int);
    }
    let cell_is_sink = cell.0 == lowest.0 && cell.1 == lowest.1;
    if cell_is_sink {
        match basins.get_mut(cell) {
            Some(entry) => {
                *entry = Some(Basin { sink: cell });
            },
            None => {
                proof {
                    assert(false);
                }
            },
        }
        proof {
            assert(drain_to(*region, cell_int) == Some(cell_int));
        }
        Ok(())
    } else {
        proof {
            // The unique lowest cell differs from this cell, so it is strictly
            // lower, which bounds the recursion.
            assert(neighborhood_of(cell_int)[0] == cell_int);
            assert(neighborhood_of(cell_int).contains(cell_int));
            assert(region.cell(cell_int.0, cell_int.1) > region.cell(
                lowest_int.0,
                lowest_int.1,
            ));
        }
        match identify_basin_at(region, lowest, basins) {
            Ok(_) => {},
            Err(v) => {
                return Err(v);
            },
        }
        let recorded = match basins.get(lowest) {
            Some(b) => *b,
            None => {
                proof {
                    assert(false);
                }
                None
            },
        };
        match basins.get_mut(cell) {
            Some(entry) => {
                *entry = recorded;
            },
            None => {
                proof {
                    assert(false);
                }
            },
        }
        proof {
            assert(drain_to(*region, cell_int) == drain_to(*region, lowest_int));
        }
        Ok(())
    }
}

/// Identifies the basins in the given region.
///
/// On success, returns a grid that maps the coordinates of a cell
/// to the basin that the cell belongs to.
///
/// Fails for invalid regions, returning the coordinates of the cell
/// where the unique lowest altitude requirement is found to be violated.
pub fn identify_basins(region: &Region) -> (r: Result<Grid<Basin>, CellCoordinates>)
    requires
        region.wf(),
        region.spec_width() <= i32::MAX,
        region.spec_height() <= i32::MAX,
    ensures
        match r {
            Ok(g) => {
                &&& g.wf()
                &&& g.spec_width() == region.spec_width()
                &&& g.spec_height() == region.spec_height()
                &&& forall|x: int, y: int|
                    g.in_bounds(x, y) ==> drain_to(*region, (x, y)) == Some(
                        (
                            ((#[trigger] g.cell(x, y)).spec_sink().0 as int),
                            (g.cell(x, y).spec_sink().1 as int),
                        ),
                    )
            },
            Err(v) => {
                &&& region.in_bounds(v.0 as int, v.1 as int)
                &&& unique_lowest(*region, (v.0 as int, v.1 as int)) is None
            },
        },
{
    let width = region.width();
    let height = region.height();
    proof {
        region.lemma_dims();
    }
    let mut basins: Grid<Option<Basin>> = Grid::filled(None, region.dimensions());
    let mut y: usize = 0;
    while y < height
        invariant
            region.wf(),
            region.spec_width() == width,
            region.spec_height() == height,
            width <= i32::MAX,
            height <= i32::MAX,
            y <= height,
            basins_consistent(*region, basins),
            forall|a: int, b: int|
                basins.in_bounds(a, b) && b < y ==> (#[trigger] basins.cell(a, b)) is Some,
        decreases height - y,
    {
        let mut x: usize = 0;
        while x < width
            invariant
                region.wf(),
                region.spec_width() == width,
                region.spec_height() == height,
                width <= i32::MAX,
                height <= i32::MAX,
                y < height,
                x <= width,
                basins_consistent(*region, basins),
                forall|a: int, b: int|
                    basins.in_bounds(a, b) && (b < y || (b == y && a < x)) ==> (
                    #[trigger] basins.cell(a, b)) is Some,
            decreases width - x,
        {
            let ghost prev = basins;
            match identify_basin_at(region, (x as i32, y as i32), &mut basins) {
                Ok(_) => {},
                Err(v) => {
                    return Err(v);
                },
            }
            proof {
                assert forall|a: int, b: int|
                    basins.in_bounds(a, b) && (b < y || (b == y && a < x + 1)) implies (
                #[trigger] basins.cell(a, b)) is Some by {
                    if !(a == x && b == y) {
                        assert(prev.cell(a, b) is Some);
                    }
                }
            }
            x = x + 1;
        }
        y = y + 1;
    }
    let complete = |entry: Option<Basin>| -> (b: Basin)
        requires
            entry is Some,
        ensures
            b == entry->Some_0,
        { entry.unwrap() };
    let result = basins.map(complete);
    proof {
        assert forall|x: int, y: int| result.in_bounds(x, y) implies drain_to(
            *region,
            (x, y),
        ) == Some(
            (
                ((#[trigger] result.cell(x, y)).spec_sink().0 as int),
                (result.cell(x, y).spec_sink().1 as int),
            ),
        ) by {
            assert(basins.cell(x, y) is Some);
            assert(call_ensures(complete, (basins.cell(x, y),), result.cell(x, y)));
        }
    }
    Ok(result)
}

} // verus!
