//! The bounded grid BFS engine.
//!
//! [`traverse`] explores a grid from a set of seed coordinates, layer by
//! layer, following a movement-offset table. Candidates outside the grid are
//! discarded, an admission rule can forbid steps to higher elevations, and a
//! termination policy caps the number of layers or lets the run exhaust the
//! frontier. The result is pinned to [`traverse_spec`]: the set of
//! coordinates reachable under the policy.

use crate::grid::{Coord, Grid, MAX_DIM, MAX_OFFSET};
use vstd::prelude::*;
use vstd::set_lib::{lemma_int_range, lemma_len_subset, lemma_map_size_bound, set_int_range};

verus! {

/// How a traversal run ends: after at most a fixed number of layers, or only
/// once the frontier is exhausted.
#[derive(Clone, Copy, PartialEq, Eq, Structural, Debug)]
pub enum TerminationPolicy {
    MaxLayers(usize),
    Unbounded,
}

/// Which in-bounds candidates may be enqueued: all of them, or only those
/// whose elevation does not exceed the current cell's.
#[derive(Clone, Copy, PartialEq, Eq, Structural, Debug)]
pub enum AdmissionRule {
    Unrestricted,
    NonIncreasing,
}

pub open spec fn admits(g: Grid, rule: AdmissionRule, from: Coord, to: Coord) -> bool {
    match rule {
        AdmissionRule::Unrestricted => true,
        AdmissionRule::NonIncreasing => g.elev(to) <= g.elev(from),
    }
}

/// `to` is reached from `from` by one of the first `n` offsets of `moves`,
/// lands inside the grid, and is admitted by `rule`.
pub open spec fn edge_upto(
    g: Grid,
    moves: Seq<Coord>,
    rule: AdmissionRule,
    from: Coord,
    to: Coord,
    n: int,
) -> bool {
    exists|i: int|
        0 <= i < n && i < moves.len() && to.row == from.row + (#[trigger] moves[i]).row
            && to.col == from.col + moves[i].col && g.in_bounds(to) && admits(g, rule, from, to)
}

/// `to` is one admitted single step away from `from`.
pub open spec fn edge(g: Grid, moves: Seq<Coord>, rule: AdmissionRule, from: Coord, to: Coord) -> bool {
    edge_upto(g, moves, rule, from, to, moves.len() as int)
}

/// All coordinates one admitted step away from some member of `s`.
pub open spec fn expand(g: Grid, moves: Seq<Coord>, rule: AdmissionRule, s: Set<Coord>) -> Set<Coord> {
    Set::new(|c: Coord| exists|p: Coord| s.contains(p) && edge(g, moves, rule, p, c))
}

/// The seeds actually planted: the given starts, deduplicated and clipped to
/// the grid; an out-of-bounds start never enters the visited set.
pub open spec fn seed(g: Grid, starts: Seq<Coord>) -> Set<Coord> {
    Set::new(|c: Coord| starts.contains(c) && g.in_bounds(c))
}

/// Everything reached within `k` BFS layers of the seeds.
pub open spec fn layer_set(
    g: Grid,
    moves: Seq<Coord>,
    rule: AdmissionRule,
    starts: Seq<Coord>,
    k: nat,
) -> Set<Coord>
    decreases k,
{
    if k == 0 {
        seed(g, starts)
    } else {
        let prev = layer_set(g, moves, rule, starts, (k - 1) as nat);
        prev.union(expand(g, moves, rule, prev))
    }
}

/// Everything reached in any number of layers.
pub open spec fn reachable(g: Grid, moves: Seq<Coord>, rule: AdmissionRule, starts: Seq<Coord>) -> Set<Coord> {
    Set::new(|c: Coord| exists|k: nat| layer_set(g, moves, rule, starts, k).contains(c))
}

/// What a traversal returns: the layer-capped or the exhaustive reachable set.
pub open spec fn traverse_spec(
    g: Grid,
    moves: Seq<Coord>,
    rule: AdmissionRule,
    starts: Seq<Coord>,
    policy: TerminationPolicy,
) -> Set<Coord> {
    match policy {
        TerminationPolicy::MaxLayers(n) => layer_set(g, moves, rule, starts, n as nat),
        TerminationPolicy::Unbounded => reachable(g, moves, rule, starts),
    }
}

/// Offsets small enough that adding one to an in-bounds coordinate stays
/// inside `i64`.
pub open spec fn moves_bounded(moves: Seq<Coord>) -> bool {
    forall|i: int|
        0 <= i < moves.len() ==> -MAX_OFFSET <= (#[trigger] moves[i]).row <= MAX_OFFSET
            && -MAX_OFFSET <= moves[i].col <= MAX_OFFSET
}

/// The set of all in-bounds coordinates of a `rows x cols` grid.
pub open spec fn bounds_set(rows: int, cols: int) -> Set<Coord> {
    Set::new(|c: Coord| 0 <= c.row < rows && 0 <= c.col < cols)
}

/// Admitted neighbours of `p` via the first `n` offsets.
spec fn expand_from_upto(g: Grid, moves: Seq<Coord>, rule: AdmissionRule, p: Coord, n: int) -> Set<Coord> {
    Set::new(|c: Coord| edge_upto(g, moves, rule, p, c, n))
}

/// Admitted neighbours of the first `n` coordinates of `f`.
spec fn expand_seq_upto(g: Grid, moves: Seq<Coord>, rule: AdmissionRule, f: Seq<Coord>, n: int) -> Set<Coord> {
    Set::new(|c: Coord| exists|j: int| 0 <= j < n && j < f.len() && edge(g, moves, rule, #[trigger] f[j], c))
}

/// The prefix of the seeds already planted.
spec fn seed_upto(g: Grid, starts: Seq<Coord>, n: int) -> Set<Coord> {
    Set::new(
        |c: Coord|
            (exists|j: int| 0 <= j < n && j < starts.len() && #[trigger] starts[j] == c)
                && g.in_bounds(c),
    )
}

proof fn lemma_push_to_set(s: Seq<Coord>, c: Coord)
    ensures
        s.push(c).to_set() == s.to_set().insert(c),
{
    assert forall|x: Coord| s.push(c).to_set().contains(x) implies s.to_set().insert(c).contains(
        x,
    ) by {
        let i = choose|i: int| 0 <= i < s.push(c).len() && s.push(c)[i] == x;
        if i < s.len() {
            assert(s[i] == x);
        }
    }
    assert forall|x: Coord| s.to_set().insert(c).contains(x) implies s.push(c).to_set().contains(
        x,
    ) by {
        if x == c {
            assert(s.push(c)[s.len() as int] == x);
        } else {
            let i = choose|i: int| 0 <= i < s.len() && s[i] == x;
            assert(s.push(c)[i] == x);
        }
    }
    assert(s.push(c).to_set() =~= s.to_set().insert(c));
}

proof fn lemma_push_no_dup(s: Seq<Coord>, c: Coord)
    requires
        s.no_duplicates(),
        !s.contains(c),
    ensures
        s.push(c).no_duplicates(),
{
    assert forall|i: int, j: int|
        0 <= i < s.push(c).len() && 0 <= j < s.push(c).len() && i != j implies s.push(c)[i]
        != s.push(c)[j] by {
        if i < s.len() && j < s.len() {
        } else if j == s.len() && i < s.len() {
            if s[i] == c {
                assert(s.contains(c));
            }
        } else if i == s.len() && j < s.len() {
            if s[j] == c {
                assert(s.contains(c));
            }
        }
    }
}

/// Every in-bounds region of a finite grid is a finite set of coordinates.
proof fn lemma_bounds_set_finite(rows: int, cols: int)
    requires
        0 <= rows <= MAX_DIM,
        0 <= cols <= MAX_DIM,
    ensures
        bounds_set(rows, cols).finite(),
    decreases rows,
{
    if rows == 0 {
        assert(bounds_set(0, cols) =~= Set::<Coord>::empty());
    } else {
        lemma_bounds_set_finite(rows - 1, cols);
        let f = (|i: int| Coord { row: (rows - 1) as i64, col: i as i64 });
        let row_set = Set::new(|c: Coord| c.row == rows - 1 && 0 <= c.col < cols);
        lemma_int_range(0, cols);
        assert forall|c: Coord| row_set.contains(c) implies set_int_range(0, cols).map(
            f,
        ).contains(c) by {
            assert(set_int_range(0, cols).contains(c.col as int));
            assert(f(c.col as int) == c);
        }
        assert(set_int_range(0, cols).map(f) =~= row_set);
        lemma_map_size_bound(set_int_range(0, cols), row_set, f);
        assert(bounds_set(rows, cols) =~= bounds_set(rows - 1, cols).union(row_set));
    }
}

/// Every coordinate a traversal can reach lies inside the grid.
pub proof fn lemma_layer_in_bounds(
    g: Grid,
    moves: Seq<Coord>,
    rule: AdmissionRule,
    starts: Seq<Coord>,
    k: nat,
)
    ensures
        forall|c: Coord| #[trigger] layer_set(g, moves, rule, starts, k).contains(c) ==> g.in_bounds(c),
    decreases k,
{
    if k > 0 {
        lemma_layer_in_bounds(g, moves, rule, starts, (k - 1) as nat);
        let prev = layer_set(g, moves, rule, starts, (k - 1) as nat);
        assert forall|c: Coord| #[trigger] layer_set(g, moves, rule, starts, k).contains(c) implies g.in_bounds(
            c,
        ) by {
            if !prev.contains(c) {
                assert(expand(g, moves, rule, prev).contains(c));
            }
        }
    }
}

proof fn lemma_expand_monotone(
    g: Grid,
    moves: Seq<Coord>,
    rule: AdmissionRule,
    s1: Set<Coord>,
    s2: Set<Coord>,
)
    requires
        s1.subset_of(s2),
    ensures
        expand(g, moves, rule, s1).subset_of(expand(g, moves, rule, s2)),
{
    assert forall|c: Coord| expand(g, moves, rule, s1).contains(c) implies expand(
        g,
        moves,
        rule,
        s2,
    ).contains(c) by {
        let p = choose|p: Coord| s1.contains(p) && edge(g, moves, rule, p, c);
        assert(s2.contains(p) && edge(g, moves, rule, p, c));
    }
}

/// Layers only grow.
pub proof fn lemma_layer_monotone(
    g: Grid,
    moves: Seq<Coord>,
    rule: AdmissionRule,
    starts: Seq<Coord>,
    j: nat,
    k: nat,
)
    requires
        j <= k,
    ensures
        layer_set(g, moves, rule, starts, j).subset_of(layer_set(g, moves, rule, starts, k)),
    decreases k,
{
    if j < k {
        lemma_layer_monotone(g, moves, rule, starts, j, (k - 1) as nat);
    }
}

/// Once a layer absorbs its own expansion, every later layer equals it.
proof fn lemma_layer_stable(
    g: Grid,
    moves: Seq<Coord>,
    rule: AdmissionRule,
    starts: Seq<Coord>,
    k: nat,
    j: nat,
)
    requires
        expand(g, moves, rule, layer_set(g, moves, rule, starts, k)).subset_of(
            layer_set(g, moves, rule, starts, k),
        ),
        k <= j,
    ensures
        layer_set(g, moves, rule, starts, j) == layer_set(g, moves, rule, starts, k),
    decreases j,
{
    if k < j {
        lemma_layer_stable(g, moves, rule, starts, k, (j - 1) as nat);
        assert(layer_set(g, moves, rule, starts, j) =~= layer_set(g, moves, rule, starts, k));
    }
}

/// Once a layer absorbs its own expansion, it already holds everything
/// reachable.
proof fn lemma_reachable_of_stable(
    g: Grid,
    moves: Seq<Coord>,
    rule: AdmissionRule,
    starts: Seq<Coord>,
    k: nat,
)
    requires
        expand(g, moves, rule, layer_set(g, moves, rule, starts, k)).subset_of(
            layer_set(g, moves, rule, starts, k),
        ),
    ensures
        reachable(g, moves, rule, starts) == layer_set(g, moves, rule, starts, k),
{
    assert forall|c: Coord| reachable(g, moves, rule, starts).contains(c) implies layer_set(
        g,
        moves,
        rule,
        starts,
        k,
    ).contains(c) by {
        let j = choose|j: nat| layer_set(g, moves, rule, starts, j).contains(c);
        if j <= k {
            lemma_layer_monotone(g, moves, rule, starts, j, k);
        } else {
            lemma_layer_stable(g, moves, rule, starts, k, j);
        }
    }
    assert forall|c: Coord| layer_set(g, moves, rule, starts, k).contains(c) implies reachable(
        g,
        moves,
        rule,
        starts,
    ).contains(c) by {
        assert(layer_set(g, moves, rule, starts, k).contains(c));
    }
    assert(reachable(g, moves, rule, starts) =~= layer_set(g, moves, rule, starts, k));
}

/// Whatever the policy, a traversal result never holds a coordinate outside
/// the grid boundaries.
pub proof fn lemma_traverse_in_bounds(
    g: Grid,
    moves: Seq<Coord>,
    rule: AdmissionRule,
    starts: Seq<Coord>,
    policy: TerminationPolicy,
)
    ensures
        forall|c: Coord|
            #[trigger] traverse_spec(g, moves, rule, starts, policy).contains(c) ==> g.in_bounds(c),
{
    assert forall|c: Coord|
        #[trigger] traverse_spec(g, moves, rule, starts, policy).contains(c) implies g.in_bounds(
        c,
    ) by {
        match policy {
            TerminationPolicy::MaxLayers(n) => {
                lemma_layer_in_bounds(g, moves, rule, starts, n as nat);
            },
            TerminationPolicy::Unbounded => {
                let j = choose|j: nat| layer_set(g, moves, rule, starts, j).contains(c);
                lemma_layer_in_bounds(g, moves, rule, starts, j);
            },
        }
    }
}

/// An unbounded run under the non-increasing rule is monotone under
/// elevation: every visited cell is either a seed, or is reached from some
/// visited cell by one movement offset without stepping to a strictly higher
/// elevation.
pub proof fn lemma_nonincreasing_descent(g: Grid, moves: Seq<Coord>, starts: Seq<Coord>)
    ensures
        forall|c: Coord|
            #[trigger] reachable(g, moves, AdmissionRule::NonIncreasing, starts).contains(c) && !seed(
                g,
                starts,
            ).contains(c) ==> exists|p: Coord|
                reachable(g, moves, AdmissionRule::NonIncreasing, starts).contains(p) && edge(
                    g,
                    moves,
                    AdmissionRule::NonIncreasing,
                    p,
                    c,
                ) && g.elev(c) <= g.elev(p),
{
    let rule = AdmissionRule::NonIncreasing;
    assert forall|c: Coord|
        #[trigger] reachable(g, moves, rule, starts).contains(c) && !seed(g, starts).contains(
            c,
        ) implies exists|p: Coord|
        reachable(g, moves, rule, starts).contains(p) && edge(g, moves, rule, p, c) && g.elev(c)
            <= g.elev(p) by {
        let j = choose|j: nat| layer_set(g, moves, rule, starts, j).contains(c);
        lemma_descent_step(g, moves, rule, starts, j, c);
        let p = choose|p: Coord|
            layer_set(g, moves, rule, starts, j).contains(p) && edge(g, moves, rule, p, c);
        assert(reachable(g, moves, rule, starts).contains(p));
    }
}

/// A visited cell that is no seed has an admitted-edge predecessor in its own
/// layer.
proof fn lemma_descent_step(
    g: Grid,
    moves: Seq<Coord>,
    rule: AdmissionRule,
    starts: Seq<Coord>,
    j: nat,
    c: Coord,
)
    requires
        layer_set(g, moves, rule, starts, j).contains(c),
        !seed(g, starts).contains(c),
    ensures
        exists|p: Coord|
            layer_set(g, moves, rule, starts, j).contains(p) && edge(g, moves, rule, p, c),
    decreases j,
{
    if j == 0 {
    } else {
        let prev = layer_set(g, moves, rule, starts, (j - 1) as nat);
        if prev.contains(c) {
            lemma_descent_step(g, moves, rule, starts, (j - 1) as nat, c);
            let p = choose|p: Coord| prev.contains(p) && edge(g, moves, rule, p, c);
            lemma_layer_monotone(g, moves, rule, starts, (j - 1) as nat, j);
            assert(layer_set(g, moves, rule, starts, j).contains(p));
        } else {
            assert(expand(g, moves, rule, prev).contains(c));
            let p = choose|p: Coord| prev.contains(p) && edge(g, moves, rule, p, c);
            lemma_layer_monotone(g, moves, rule, starts, (j - 1) as nat, j);
            assert(layer_set(g, moves, rule, starts, j).contains(p));
        }
    }
}

/// A zero-layer cap returns exactly the deduplicated, clipped starts.
pub proof fn lemma_zero_layers(g: Grid, moves: Seq<Coord>, rule: AdmissionRule, starts: Seq<Coord>)
    ensures
        traverse_spec(g, moves, rule, starts, TerminationPolicy::MaxLayers(0)) == seed(g, starts),
{
}

/// The traversal contract pins its result: two runs over the same inputs
/// return the same set of coordinates.
pub proof fn lemma_traverse_deterministic(
    g: Grid,
    moves: Seq<Coord>,
    rule: AdmissionRule,
    starts: Seq<Coord>,
    policy: TerminationPolicy,
    r1: Seq<Coord>,
    r2: Seq<Coord>,
)
    requires
        r1.to_set() == traverse_spec(g, moves, rule, starts, policy),
        r2.to_set() == traverse_spec(g, moves, rule, starts, policy),
    ensures
        r1.to_set() == r2.to_set(),
{
}

/// Each layer from a combined start list is the union of the layers from its
/// two parts.
proof fn lemma_layer_union(
    g: Grid,
    moves: Seq<Coord>,
    rule: AdmissionRule,
    s1: Seq<Coord>,
    s2: Seq<Coord>,
    k: nat,
)
    ensures
        layer_set(g, moves, rule, s1 + s2, k) == layer_set(g, moves, rule, s1, k).union(
            layer_set(g, moves, rule, s2, k),
        ),
    decreases k,
{
    if k == 0 {
        assert forall|c: Coord| seed(g, s1 + s2).contains(c) implies seed(g, s1).union(
            seed(g, s2),
        ).contains(c) by {
            let j = choose|j: int| 0 <= j < (s1 + s2).len() && (s1 + s2)[j] == c;
            if j < s1.len() {
                assert(s1[j] == c);
                assert(s1.contains(c));
            } else {
                assert(s2[j - s1.len()] == c);
                assert(s2.contains(c));
            }
        }
        assert forall|c: Coord| seed(g, s1).union(seed(g, s2)).contains(c) implies seed(
            g,
            s1 + s2,
        ).contains(c) by {
            if seed(g, s1).contains(c) {
                let j = choose|j: int| 0 <= j < s1.len() && s1[j] == c;
                assert((s1 + s2)[j] == c);
            } else {
                let j = choose|j: int| 0 <= j < s2.len() && s2[j] == c;
                assert((s1 + s2)[j + s1.len()] == c);
            }
        }
        assert(seed(g, s1 + s2) =~= seed(g, s1).union(seed(g, s2)));
    } else {
        lemma_layer_union(g, moves, rule, s1, s2, (k - 1) as nat);
        let p12 = layer_set(g, moves, rule, s1 + s2, (k - 1) as nat);
        let p1 = layer_set(g, moves, rule, s1, (k - 1) as nat);
        let p2 = layer_set(g, moves, rule, s2, (k - 1) as nat);
        assert forall|c: Coord| layer_set(g, moves, rule, s1 + s2, k).contains(c) implies layer_set(
            g,
            moves,
            rule,
            s1,
            k,
        ).union(layer_set(g, moves, rule, s2, k)).contains(c) by {
            if !p12.contains(c) {
                let q = choose|q: Coord| p12.contains(q) && edge(g, moves, rule, q, c);
                if p1.contains(q) {
                    assert(expand(g, moves, rule, p1).contains(c));
                } else {
                    assert(p2.contains(q));
                    assert(expand(g, moves, rule, p2).contains(c));
                }
            }
        }
        assert forall|c: Coord| layer_set(g, moves, rule, s1, k).union(
            layer_set(g, moves, rule, s2, k),
        ).contains(c) implies layer_set(g, moves, rule, s1 + s2, k).contains(c) by {
            if layer_set(g, moves, rule, s1, k).contains(c) && !p1.contains(c) {
                let q = choose|q: Coord| p1.contains(q) && edge(g, moves, rule, q, c);
                assert(p12.contains(q));
                assert(expand(g, moves, rule, p12).contains(c));
            }
            if layer_set(g, moves, rule, s2, k).contains(c) && !p2.contains(c) {
                let q = choose|q: Coord| p2.contains(q) && edge(g, moves, rule, q, c);
                assert(p12.contains(q));
                assert(expand(g, moves, rule, p12).contains(c));
            }
        }
        assert(layer_set(g, moves, rule, s1 + s2, k) =~= layer_set(g, moves, rule, s1, k).union(
            layer_set(g, moves, rule, s2, k),
        ));
    }
}

/// Running from two start lists at once reaches exactly the union of what
/// each start list reaches on its own.
pub proof fn lemma_dual_source_union(
    g: Grid,
    moves: Seq<Coord>,
    rule: AdmissionRule,
    s1: Seq<Coord>,
    s2: Seq<Coord>,
)
    ensures
        reachable(g, moves, rule, s1 + s2) == reachable(g, moves, rule, s1).union(
            reachable(g, moves, rule, s2),
        ),
{
    assert forall|c: Coord| reachable(g, moves, rule, s1 + s2).contains(c) implies reachable(
        g,
        moves,
        rule,
        s1,
    ).union(reachable(g, moves, rule, s2)).contains(c) by {
        let j = choose|j: nat| layer_set(g, moves, rule, s1 + s2, j).contains(c);
        lemma_layer_union(g, moves, rule, s1, s2, j);
        if layer_set(g, moves, rule, s1, j).contains(c) {
            assert(reachable(g, moves, rule, s1).contains(c));
        } else {
            assert(layer_set(g, moves, rule, s2, j).contains(c));
            assert(reachable(g, moves, rule, s2).contains(c));
        }
    }
    assert forall|c: Coord| reachable(g, moves, rule, s1).union(
        reachable(g, moves, rule, s2),
    ).contains(c) implies reachable(g, moves, rule, s1 + s2).contains(c) by {
        if reachable(g, moves, rule, s1).contains(c) {
            let j = choose|j: nat| layer_set(g, moves, rule, s1, j).contains(c);
            lemma_layer_union(g, moves, rule, s1, s2, j);
            assert(layer_set(g, moves, rule, s1 + s2, j).contains(c));
        } else {
            let j = choose|j: nat| layer_set(g, moves, rule, s2, j).contains(c);
            lemma_layer_union(g, moves, rule, s1, s2, j);
            assert(layer_set(g, moves, rule, s1 + s2, j).contains(c));
        }
    }
    assert(reachable(g, moves, rule, s1 + s2) =~= reachable(g, moves, rule, s1).union(
        reachable(g, moves, rule, s2),
    ));
}

/// A run from two start lists at once reaches at least as many cells as
/// either start list reaches on its own.
pub proof fn lemma_dual_source_at_least(
    g: Grid,
    moves: Seq<Coord>,
    rule: AdmissionRule,
    s1: Seq<Coord>,
    s2: Seq<Coord>,
)
    requires
        g.wf(),
    ensures
        reachable(g, moves, rule, s1).len() <= reachable(g, moves, rule, s1 + s2).len(),
        reachable(g, moves, rule, s2).len() <= reachable(g, moves, rule, s1 + s2).len(),
{
    lemma_dual_source_union(g, moves, rule, s1, s2);
    lemma_bounds_set_finite(g.rows(), g.cols());
    let both = reachable(g, moves, rule, s1 + s2);
    assert forall|c: Coord| both.contains(c) implies bounds_set(g.rows(), g.cols()).contains(
        c,
    ) by {
        let k = choose|k: nat| layer_set(g, moves, rule, s1 + s2, k).contains(c);
        lemma_layer_in_bounds(g, moves, rule, s1 + s2, k);
    }
    lemma_len_subset(both, bounds_set(g.rows(), g.cols()));
    lemma_len_subset(reachable(g, moves, rule, s1), both);
    lemma_len_subset(reachable(g, moves, rule, s2), both);
}

/// Linear membership scan; the visited list doubles as the working set.
pub fn coord_list_member(v: &Vec<Coord>, c: Coord) -> (r: bool)
    ensures
        r == v@.to_set().contains(c),
{
    let mut i: usize = 0;
    while i < v.len()
        invariant
            i <= v@.len(),
            forall|j: int| 0 <= j < i ==> v@[j] != c,
        decreases v@.len() - i,
    {
        if v[i] == c {
            assert(v@.contains(c));
            return true;
        }
        i += 1;
    }
    assert(!v@.contains(c));
    false
}

/// Layered breadth-first traversal.
///
/// Starting from the in-bounds members of `starts`, repeatedly expands the
/// current frontier through the offsets of `moves`, discarding out-of-bounds
/// candidates, already-visited cells, and steps that `rule` refuses; stops
/// after `n` layers under `MaxLayers(n)`, or when the frontier empties. The
/// returned list is duplicate-free and its set of members is exactly
/// `traverse_spec`.
pub fn traverse(
    grid: &Grid,
    starts: &Vec<Coord>,
    moves: &Vec<Coord>,
    policy: TerminationPolicy,
    rule: AdmissionRule,
) -> (r: Vec<Coord>)
    requires
        grid.wf(),
        moves_bounded(moves@),
    ensures
        r@.no_duplicates(),
        r@.to_set() == traverse_spec(*grid, moves@, rule, starts@, policy),
{
    let ghost g = *grid;
    let mut visited: Vec<Coord> = Vec::new();
    let mut frontier: Vec<Coord> = Vec::new();

    let mut si: usize = 0;
    while si < starts.len()
        invariant
            grid.wf(),
            g == *grid,
            si <= starts@.len(),
            visited@.no_duplicates(),
            frontier@ == visited@,
            visited@.to_set() == seed_upto(g, starts@, si as int),
        decreases starts@.len() - si,
    {
        let c = starts[si];
        let ghost old_vis = visited@;
        if grid.contains_coord(c) && !coord_list_member(&visited, c) {
            proof {
                lemma_push_to_set(visited@, c);
                lemma_push_no_dup(visited@, c);
            }
            visited.push(c);
            frontier.push(c);
        }
        proof {
            let nsi = si + 1;
            assert forall|x: Coord| seed_upto(g, starts@, nsi).contains(x) implies visited@.to_set().contains(
                x,
            ) by {
                let j = choose|j: int|
                    0 <= j < nsi && j < starts@.len() && #[trigger] starts@[j] == x;
                if j < si {
                    assert(seed_upto(g, starts@, si as int).contains(x));
                    assert(old_vis.to_set().contains(x));
                }
            }
            assert forall|x: Coord| visited@.to_set().contains(x) implies seed_upto(
                g,
                starts@,
                nsi,
            ).contains(x) by {
                if old_vis.to_set().contains(x) {
                    let j = choose|j: int|
                        0 <= j < si && j < starts@.len() && #[trigger] starts@[j] == x;
                    assert(0 <= j < nsi && starts@[j] == x);
                } else {
                    assert(starts@[si as int] == x);
                }
            }
            assert(visited@.to_set() =~= seed_upto(g, starts@, nsi));
        }
        si += 1;
    }
    proof {
        assert forall|x: Coord| seed(g, starts@).contains(x) implies visited@.to_set().contains(
            x,
        ) by {
            let j = choose|j: int| 0 <= j < starts@.len() && starts@[j] == x;
            assert(0 <= j < starts@.len() as int && starts@[j] == x);
        }
        assert forall|x: Coord| visited@.to_set().contains(x) implies seed(g, starts@).contains(
            x,
        ) by {
            let j = choose|j: int|
                0 <= j < starts@.len() as int && j < starts@.len() && #[trigger] starts@[j] == x;
            assert(starts@.contains(x));
        }
        assert(visited@.to_set() =~= seed(g, starts@));
        assert(visited@.to_set() == layer_set(g, moves@, rule, starts@, 0nat));
    }

    let ghost bset = bounds_set(g.rows(), g.cols());
    proof {
        lemma_bounds_set_finite(g.rows(), g.cols());
        lemma_layer_in_bounds(g, moves@, rule, starts@, 0nat);
        assert forall|x: Coord| visited@.to_set().contains(x) implies bset.contains(x) by {}
        assert(visited@.to_set().subset_of(bset));
        visited@.unique_seq_to_set();
        lemma_len_subset(visited@.to_set(), bset);
    }

    let mut layers_done: usize = 0;
    let ghost mut k: nat = 0;
    loop
        invariant
            grid.wf(),
            g == *grid,
            moves_bounded(moves@),
            bset == bounds_set(g.rows(), g.cols()),
            bset.finite(),
            visited@.no_duplicates(),
            visited@.to_set() == layer_set(g, moves@, rule, starts@, k),
            frontier@.to_set().subset_of(visited@.to_set()),
            expand(g, moves@, rule, visited@.to_set()).subset_of(
                visited@.to_set().union(expand(g, moves@, rule, frontier@.to_set())),
            ),
            visited@.to_set().subset_of(bset),
            visited@.len() == visited@.to_set().len(),
            visited@.len() <= bset.len(),
            policy matches TerminationPolicy::MaxLayers(n) ==> k == layers_done as nat
                && layers_done <= n,
        ensures
            frontier@.len() == 0 || (policy matches TerminationPolicy::MaxLayers(n)
                && layers_done == n),
        decreases bset.len() - visited@.len(), frontier@.len(),
    {
        if frontier.len() == 0 {
            break;
        }
        if let TerminationPolicy::MaxLayers(n) = policy {
            if layers_done >= n {
                break;
            }
        }
        let ghost layer_k = visited@.to_set();
        let ghost old_frontier = frontier@;
        let vis_len_start = visited.len();
        let mut next: Vec<Coord> = Vec::new();
        proof {
            assert(expand_seq_upto(g, moves@, rule, frontier@, 0) =~= Set::<Coord>::empty());
            assert(visited@.to_set() =~= layer_k.union(
                expand_seq_upto(g, moves@, rule, frontier@, 0),
            ));
            assert(next@.to_set() =~= visited@.to_set().difference(layer_k));
        }
        let mut fi: usize = 0;
        while fi < frontier.len()
            invariant
                grid.wf(),
                g == *grid,
                moves_bounded(moves@),
                bset == bounds_set(g.rows(), g.cols()),
                bset.finite(),
                fi <= frontier@.len(),
                frontier@ == old_frontier,
                visited@.no_duplicates(),
                layer_k == layer_set(g, moves@, rule, starts@, k),
                frontier@.to_set().subset_of(layer_k),
                visited@.to_set() == layer_k.union(
                    expand_seq_upto(g, moves@, rule, frontier@, fi as int),
                ),
                next@.to_set() == visited@.to_set().difference(layer_k),
                visited@.len() == vis_len_start + next@.len(),
                visited@.to_set().subset_of(bset),
                visited@.len() == visited@.to_set().len(),
                visited@.len() <= bset.len(),
            decreases frontier@.len() - fi,
        {
            let p = frontier[fi];
            proof {
                assert(frontier@.contains(p));
                assert(frontier@.to_set().contains(p));
                lemma_layer_in_bounds(g, moves@, rule, starts@, k);
                assert(g.in_bounds(p));
            }
            let mut mi: usize = 0;
            while mi < moves.len()
                invariant
                    grid.wf(),
                    g == *grid,
                    moves_bounded(moves@),
                    bset == bounds_set(g.rows(), g.cols()),
                    bset.finite(),
                    mi <= moves@.len(),
                    fi < frontier@.len(),
                    frontier@ == old_frontier,
                    p == frontier@[fi as int],
                    g.in_bounds(p),
                    visited@.no_duplicates(),
                    layer_k == layer_set(g, moves@, rule, starts@, k),
                    frontier@.to_set().subset_of(layer_k),
                    visited@.to_set() == layer_k.union(
                        expand_seq_upto(g, moves@, rule, frontier@, fi as int),
                    ).union(expand_from_upto(g, moves@, rule, p, mi as int)),
                    next@.to_set() == visited@.to_set().difference(layer_k),
                    visited@.len() == vis_len_start + next@.len(),
                    visited@.to_set().subset_of(bset),
                    visited@.len() == visited@.to_set().len(),
                    visited@.len() <= bset.len(),
                decreases moves@.len() - mi,
            {
                let m = moves[mi];
                let cand = Coord { row: p.row + m.row, col: p.col + m.col };
                let ghost old_vis_set = visited@.to_set();
                let ghost old_next_set = next@.to_set();
                if grid.contains_coord(cand) {
                    let adm = match rule {
                        AdmissionRule::Unrestricted => true,
                        AdmissionRule::NonIncreasing => grid.elevation(cand) <= grid.elevation(p),
                    };
                    if adm && !coord_list_member(&visited, cand) {
                        proof {
                            lemma_push_to_set(visited@, cand);
                            lemma_push_no_dup(visited@, cand);
                            lemma_push_to_set(next@, cand);
                        }
                        visited.push(cand);
                        next.push(cand);
                    }
                }
                proof {
                    let nmi = mi + 1;
                    let before = layer_k.union(
                        expand_seq_upto(g, moves@, rule, frontier@, fi as int),
                    ).union(expand_from_upto(g, moves@, rule, p, mi as int));
                    let after = layer_k.union(
                        expand_seq_upto(g, moves@, rule, frontier@, fi as int),
                    ).union(expand_from_upto(g, moves@, rule, p, nmi));
                    assert forall|x: Coord| after.contains(x) implies visited@.to_set().contains(
                        x,
                    ) by {
                        if expand_from_upto(g, moves@, rule, p, nmi).contains(x) {
                            let i = choose|i: int|
                                0 <= i < nmi && i < moves@.len() && x.row == p.row
                                    + (#[trigger] moves@[i]).row && x.col == p.col + moves@[i].col
                                    && g.in_bounds(x) && admits(g, rule, p, x);
                            if i < mi {
                                assert(edge_upto(g, moves@, rule, p, x, mi as int));
                                assert(before.contains(x));
                                assert(old_vis_set.contains(x));
                            } else {
                                assert(x == cand);
                            }
                        } else {
                            assert(before.contains(x));
                            assert(old_vis_set.contains(x));
                        }
                    }
                    assert forall|x: Coord| visited@.to_set().contains(x) implies after.contains(
                        x,
                    ) by {
                        if old_vis_set.contains(x) {
                            assert(before.contains(x));
                            if expand_from_upto(g, moves@, rule, p, mi as int).contains(x) {
                                assert(edge_upto(g, moves@, rule, p, x, nmi));
                            }
                        } else {
                            assert(x == cand);
                            assert(edge_upto(g, moves@, rule, p, x, nmi)) by {
                                assert(cand.row == p.row + moves@[mi as int].row && cand.col
                                    == p.col + moves@[mi as int].col && g.in_bounds(cand)
                                    && admits(g, rule, p, cand));
                            }
                        }
                    }
                    assert(visited@.to_set() =~= after);
                    assert(next@.to_set() =~= visited@.to_set().difference(layer_k));
                    assert forall|x: Coord| visited@.to_set().contains(x) implies bset.contains(
                        x,
                    ) by {
                        lemma_layer_in_bounds(g, moves@, rule, starts@, k);
                    }
                    assert(visited@.to_set().subset_of(bset));
                    visited@.unique_seq_to_set();
                    lemma_len_subset(visited@.to_set(), bset);
                }
                mi += 1;
            }
            proof {
                let nfi = fi + 1;
                let with_p = layer_k.union(
                    expand_seq_upto(g, moves@, rule, frontier@, fi as int),
                ).union(expand_from_upto(g, moves@, rule, p, moves@.len() as int));
                let folded = layer_k.union(expand_seq_upto(g, moves@, rule, frontier@, nfi));
                assert forall|x: Coord| with_p.contains(x) implies folded.contains(x) by {
                    if expand_from_upto(g, moves@, rule, p, moves@.len() as int).contains(x) {
                        assert(edge(g, moves@, rule, frontier@[fi as int], x));
                    } else if expand_seq_upto(g, moves@, rule, frontier@, fi as int).contains(x) {
                        let j = choose|j: int|
                            0 <= j < fi && j < frontier@.len() && edge(
                                g,
                                moves@,
                                rule,
                                #[trigger] frontier@[j],
                                x,
                            );
                        assert(0 <= j < nfi && edge(g, moves@, rule, frontier@[j], x));
                    }
                }
                assert forall|x: Coord| folded.contains(x) implies with_p.contains(x) by {
                    if expand_seq_upto(g, moves@, rule, frontier@, nfi).contains(x) {
                        let j = choose|j: int|
                            0 <= j < nfi && j < frontier@.len() && edge(
                                g,
                                moves@,
                                rule,
                                #[trigger] frontier@[j],
                                x,
                            );
                        if j < fi {
                            assert(expand_seq_upto(g, moves@, rule, frontier@, fi as int).contains(
                                x,
                            ));
                        } else {
                            assert(edge_upto(g, moves@, rule, p, x, moves@.len() as int));
                        }
                    }
                }
                assert(visited@.to_set() =~= folded);
            }
            fi += 1;
        }
        proof {
            // The processed frontier contributed exactly its expansion.
            let full = expand_seq_upto(g, moves@, rule, frontier@, frontier@.len() as int);
            let fset = frontier@.to_set();
            assert forall|x: Coord| full.contains(x) implies expand(g, moves@, rule, fset).contains(
                x,
            ) by {
                let j = choose|j: int|
                    0 <= j < frontier@.len() as int && j < frontier@.len() && edge(
                        g,
                        moves@,
                        rule,
                        #[trigger] frontier@[j],
                        x,
                    );
                assert(frontier@.contains(frontier@[j]));
                assert(fset.contains(frontier@[j]) && edge(g, moves@, rule, frontier@[j], x));
            }
            assert forall|x: Coord| expand(g, moves@, rule, fset).contains(x) implies full.contains(
                x,
            ) by {
                let q = choose|q: Coord| fset.contains(q) && edge(g, moves@, rule, q, x);
                let j = choose|j: int| 0 <= j < frontier@.len() && frontier@[j] == q;
                assert(0 <= j < frontier@.len() as int && edge(g, moves@, rule, frontier@[j], x));
            }
            assert(full =~= expand(g, moves@, rule, fset));
            // The new visited set is the next layer.
            let vis = visited@.to_set();
            assert(vis == layer_k.union(expand(g, moves@, rule, fset)));
            let nk = k + 1;
            assert(layer_set(g, moves@, rule, starts@, nk) == layer_k.union(
                expand(g, moves@, rule, layer_k),
            ));
            assert forall|x: Coord| layer_set(g, moves@, rule, starts@, nk).contains(
                x,
            ) implies vis.contains(x) by {
                if layer_k.contains(x) {
                } else {
                    assert(expand(g, moves@, rule, layer_k).contains(x));
                    assert(vis.union(expand(g, moves@, rule, fset)).contains(x));
                }
            }
            assert forall|x: Coord| vis.contains(x) implies layer_set(
                g,
                moves@,
                rule,
                starts@,
                nk,
            ).contains(x) by {
                if !layer_k.contains(x) {
                    assert(expand(g, moves@, rule, fset).contains(x));
                    lemma_expand_monotone(g, moves@, rule, fset, layer_k);
                    assert(expand(g, moves@, rule, layer_k).contains(x));
                }
            }
            assert(vis =~= layer_set(g, moves@, rule, starts@, nk));
            // Everything one step from the new visited set is covered by the
            // new frontier's expansion.
            let nset = next@.to_set();
            assert forall|x: Coord| expand(g, moves@, rule, vis).contains(x) implies vis.union(
                expand(g, moves@, rule, nset),
            ).contains(x) by {
                let q = choose|q: Coord| vis.contains(q) && edge(g, moves@, rule, q, x);
                if layer_k.contains(q) {
                    assert(expand(g, moves@, rule, layer_k).contains(x));
                    assert(layer_set(g, moves@, rule, starts@, nk).contains(x));
                } else {
                    assert(nset.contains(q));
                    assert(expand(g, moves@, rule, nset).contains(x));
                }
            }
            assert(nset.subset_of(vis));
        }
        frontier = next;
        if let TerminationPolicy::MaxLayers(_) = policy {
            layers_done = layers_done + 1;
        }
        proof {
            k = k + 1;
        }
    }
    proof {
        if frontier@.len() == 0 {
            assert(frontier@.to_set() =~= Set::<Coord>::empty());
            assert forall|x: Coord| expand(g, moves@, rule, visited@.to_set()).contains(
                x,
            ) implies visited@.to_set().contains(x) by {
                if expand(g, moves@, rule, frontier@.to_set()).contains(x) {
                    let q = choose|q: Coord|
                        frontier@.to_set().contains(q) && edge(g, moves@, rule, q, x);
                }
            }
            match policy {
                TerminationPolicy::MaxLayers(n) => {
                    lemma_layer_stable(g, moves@, rule, starts@, k, n as nat);
                },
                TerminationPolicy::Unbounded => {
                    lemma_reachable_of_stable(g, moves@, rule, starts@, k);
                },
            }
        }
    }
    visited
}

} // verus!

