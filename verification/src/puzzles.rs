//! The two engine instantiations: knight-move reachability intersected with
//! marker cells, and monotone-height flood fill from one or two sources.

use crate::engine::{
    moves_bounded, reachable, traverse, traverse_spec, AdmissionRule, TerminationPolicy,
};
use crate::grid::{Coord, Grid};
use vstd::prelude::*;

verus! {

/// Layer cap of the knight-reachability run.
pub const KNIGHT_LAYER_CAP: usize = 5;

/// The eight knight-move offsets.
pub open spec fn knight_offsets() -> Seq<Coord> {
    seq![
        Coord { row: -2i64, col: -1i64 },
        Coord { row: -2i64, col: 1i64 },
        Coord { row: -1i64, col: -2i64 },
        Coord { row: -1i64, col: 2i64 },
        Coord { row: 1i64, col: -2i64 },
        Coord { row: 1i64, col: 2i64 },
        Coord { row: 2i64, col: -1i64 },
        Coord { row: 2i64, col: 1i64 },
    ]
}

/// The four axis-aligned orthogonal offsets.
pub open spec fn orthogonal_offsets() -> Seq<Coord> {
    seq![
        Coord { row: -1i64, col: 0i64 },
        Coord { row: 1i64, col: 0i64 },
        Coord { row: 0i64, col: -1i64 },
        Coord { row: 0i64, col: 1i64 },
    ]
}

/// The grid's centre cell, by integer division of the extents.
pub open spec fn grid_center(g: Grid) -> Coord {
    Coord { row: (g.rows() / 2) as i64, col: (g.cols() / 2) as i64 }
}

/// The top-left cell.
pub open spec fn origin() -> Coord {
    Coord { row: 0i64, col: 0i64 }
}

/// The bottom-right cell.
pub open spec fn far_corner(g: Grid) -> Coord {
    Coord { row: (g.rows() - 1) as i64, col: (g.cols() - 1) as i64 }
}

pub fn knight_moves() -> (v: Vec<Coord>)
    ensures
        v@ == knight_offsets(),
        moves_bounded(v@),
{
    let mut v: Vec<Coord> = Vec::new();
    v.push(Coord { row: -2, col: -1 });
    v.push(Coord { row: -2, col: 1 });
    v.push(Coord { row: -1, col: -2 });
    v.push(Coord { row: -1, col: 2 });
    v.push(Coord { row: 1, col: -2 });
    v.push(Coord { row: 1, col: 2 });
    v.push(Coord { row: 2, col: -1 });
    v.push(Coord { row: 2, col: 1 });
    proof {
        assert(v@ =~= knight_offsets());
    }
    v
}

pub fn orthogonal_moves() -> (v: Vec<Coord>)
    ensures
        v@ == orthogonal_offsets(),
        moves_bounded(v@),
{
    let mut v: Vec<Coord> = Vec::new();
    v.push(Coord { row: -1, col: 0 });
    v.push(Coord { row: 1, col: 0 });
    v.push(Coord { row: 0, col: -1 });
    v.push(Coord { row: 0, col: 1 });
    proof {
        assert(v@ =~= orthogonal_offsets());
    }
    v
}

pub fn center(grid: &Grid) -> (c: Coord)
    requires
        grid.wf(),
    ensures
        c == grid_center(*grid),
{
    Coord { row: (grid.row_count() / 2) as i64, col: (grid.col_count() / 2) as i64 }
}

/// How many members of `items` also occur in `within`.
pub fn count_in(items: &Vec<Coord>, within: &Vec<Coord>) -> (n: usize)
    requires
        items@.no_duplicates(),
    ensures
        n == items@.to_set().intersect(within@.to_set()).len(),
{
    let ghost w = within@.to_set();
    let mut n: usize = 0;
    let mut i: usize = 0;
    proof {
        assert(items@.subrange(0, 0).to_set() =~= Set::<Coord>::empty());
        assert(items@.subrange(0, 0).to_set().intersect(w) =~= Set::<Coord>::empty());
    }
    while i < items.len()
        invariant
            i <= items@.len(),
            n <= i,
            items@.no_duplicates(),
            w == within@.to_set(),
            items@.subrange(0, i as int).to_set().intersect(w).finite(),
            n == items@.subrange(0, i as int).to_set().intersect(w).len(),
        decreases items@.len() - i,
    {
        let c = items[i];
        let ghost pre = items@.subrange(0, i as int);
        let ghost cur = pre.to_set().intersect(w);
        proof {
            assert(items@.subrange(0, i + 1) =~= pre.push(c));
            assert forall|x: Coord| pre.push(c).to_set().contains(x) implies pre.to_set().insert(
                c,
            ).contains(x) by {
                let j = choose|j: int| 0 <= j < pre.push(c).len() && pre.push(c)[j] == x;
                if j < pre.len() {
                    assert(pre[j] == x);
                }
            }
            assert forall|x: Coord| pre.to_set().insert(c).contains(x) implies pre.push(
                c,
            ).to_set().contains(x) by {
                if x == c {
                    assert(pre.push(c)[pre.len() as int] == x);
                } else {
                    let j = choose|j: int| 0 <= j < pre.len() && pre[j] == x;
                    assert(pre.push(c)[j] == x);
                }
            }
            assert(items@.subrange(0, i + 1).to_set() =~= pre.to_set().insert(c));
            assert(!pre.to_set().contains(c)) by {
                if pre.to_set().contains(c) {
                    let j = choose|j: int| 0 <= j < pre.len() && pre[j] == c;
                    assert(items@[j] == items@[i as int]);
                }
            }
        }
        let hit = crate::engine::coord_list_member(within, c);
        if hit {
            proof {
                assert(items@.subrange(0, i + 1).to_set().intersect(w) =~= cur.insert(c));
            }
            n = n + 1;
        } else {
            proof {
                assert(items@.subrange(0, i + 1).to_set().intersect(w) =~= cur);
            }
        }
        i += 1;
    }
    proof {
        assert(items@.subrange(0, items@.len() as int) =~= items@);
    }
    n
}

/// Knight reachability: run a layer-capped knight-move traversal from the
/// grid centre and count how many marker cells the visited set touches.
pub fn knight_marker_count(grid: &Grid, markers: &Vec<Coord>) -> (n: usize)
    requires
        grid.wf(),
        markers@.no_duplicates(),
    ensures
        n == traverse_spec(
            *grid,
            knight_offsets(),
            AdmissionRule::Unrestricted,
            seq![grid_center(*grid)],
            TerminationPolicy::MaxLayers(KNIGHT_LAYER_CAP),
        ).intersect(markers@.to_set()).len(),
{
    let moves = knight_moves();
    let mut starts: Vec<Coord> = Vec::new();
    starts.push(center(grid));
    proof {
        assert(starts@ =~= seq![grid_center(*grid)]);
    }
    let visited = traverse(
        grid,
        &starts,
        &moves,
        TerminationPolicy::MaxLayers(KNIGHT_LAYER_CAP),
        AdmissionRule::Unrestricted,
    );
    let n = count_in(markers, &visited);
    proof {
        assert(markers@.to_set().intersect(visited@.to_set()) =~= visited@.to_set().intersect(
            markers@.to_set(),
        ));
    }
    n
}

/// Monotone flood fill: unbounded traversal over the orthogonal offsets,
/// admitting only steps onto cells of equal or lower elevation; returns the
/// visited area.
pub fn flood_fill_area(grid: &Grid, starts: &Vec<Coord>) -> (n: usize)
    requires
        grid.wf(),
    ensures
        n == reachable(*grid, orthogonal_offsets(), AdmissionRule::NonIncreasing, starts@).len(),
{
    let moves = orthogonal_moves();
    let visited = traverse(
        grid,
        starts,
        &moves,
        TerminationPolicy::Unbounded,
        AdmissionRule::NonIncreasing,
    );
    proof {
        visited@.unique_seq_to_set();
    }
    visited.len()
}

/// Flood fill from the single source `(0, 0)`.
pub fn flood_fill_single(grid: &Grid) -> (n: usize)
    requires
        grid.wf(),
    ensures
        n == reachable(
            *grid,
            orthogonal_offsets(),
            AdmissionRule::NonIncreasing,
            seq![origin()],
        ).len(),
{
    let mut starts: Vec<Coord> = Vec::new();
    starts.push(Coord { row: 0, col: 0 });
    proof {
        assert(starts@ =~= seq![origin()]);
    }
    flood_fill_area(grid, &starts)
}

/// Flood fill from the two simultaneous sources `(0, 0)` and
/// `(rows - 1, cols - 1)`.
pub fn flood_fill_dual(grid: &Grid) -> (n: usize)
    requires
        grid.wf(),
    ensures
        n == reachable(
            *grid,
            orthogonal_offsets(),
            AdmissionRule::NonIncreasing,
            seq![origin(), far_corner(*grid)],
        ).len(),
{
    let rows = grid.row_count();
    let cols = grid.col_count();
    let mut starts: Vec<Coord> = Vec::new();
    starts.push(Coord { row: 0, col: 0 });
    starts.push(Coord { row: (rows - 1) as i64, col: (cols - 1) as i64 });
    proof {
        assert(starts@ =~= seq![origin(), far_corner(*grid)]);
    }
    flood_fill_area(grid, &starts)
}

} // verus!
