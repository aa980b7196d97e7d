use vstd::prelude::*;

use crate::droplet::Droplet;
use crate::grid::{four_offsets, is_route, lemma_closed_route, lemma_route_on_cells, loc_of, reachable, step, Grid};
use crate::location::Location;

verus! {

/// Locations, one per time step.
pub type Path = Vec<Location>;

/// Cost of staying in place for one time step; far above that of a move.
pub const WAIT_COST: u64 = 100;

/// A state of the time-expanded search: a location at a time step.
#[derive(Clone, Copy, Debug, PartialEq, Eq, Hash, Structural)]
pub struct Node {
    pub location: Location,
    pub time: u32,
}

impl Node {
    /// The successors of this node with the cost of reaching each: every
    /// 4-connected neighbor at cost one, then staying put at `WAIT_COST`, all
    /// one time step later.
    pub fn expand(&self, grid: &Grid) -> (r: Vec<(u64, Node)>)
        requires
            grid.wf(),
            self.time < u32::MAX,
        ensures
            ({
                let nbrs = grid.present_shifts(self.location, four_offsets());
                &&& r@.len() == nbrs.len() + 1
                &&& forall|i: int| 0 <= i < nbrs.len() ==> #[trigger] r@[i] == (1u64, Node { location: nbrs[i], time: (self.time + 1) as u32 })
                &&& r@[nbrs.len() as int] == (WAIT_COST, Node { location: self.location, time: (self.time + 1) as u32 })
            }),
            forall|i: int| 0 <= i < r@.len() ==> {
                &&& (#[trigger] r@[i]).1.time == self.time + 1
                &&& step(*grid, self.location, r@[i].1.location)
                &&& r@[i].0 <= WAIT_COST
            },
    {
        let nbrs = grid.neighbors4(&self.location);
        let mut r: Vec<(u64, Node)> = Vec::new();
        let mut k: usize = 0;
        while k < nbrs.len()
            invariant
                self.time < u32::MAX,
                k <= nbrs@.len(),
                r@.len() == k,
                forall|i: int| 0 <= i < k ==> #[trigger] r@[i] == (1u64, Node { location: nbrs@[i], time: (self.time + 1) as u32 }),
            decreases nbrs@.len() - k,
        {
            r.push((1, Node { location: nbrs[k], time: self.time + 1 }));
            k += 1;
        }
        r.push((WAIT_COST, Node { location: self.location, time: self.time + 1 }));
        proof {
            assert forall|i: int| 0 <= i < r@.len() implies {
                &&& (#[trigger] r@[i]).1.time == self.time + 1
                &&& step(*grid, self.location, r@[i].1.location)
                &&& r@[i].0 <= WAIT_COST
            } by {
                if i < nbrs@.len() {
                    assert(grid.has_loc(nbrs@[i]) && nbrs@[i].dist(self.location) == 1);
                }
            }
        }
        r
    }
}

/// The records of a search: record `i` was reached from record `parents[i]`
/// in one step, and record zero is `start`.
pub open spec fn records_ok(grid: Grid, locs: Seq<Location>, parents: Seq<usize>, start: Location) -> bool {
    &&& locs.len() >= 1
    &&& parents.len() == locs.len()
    &&& locs[0] == start
    &&& forall|i: int| 0 < i < locs.len() ==> {
        &&& #[trigger] parents[i] < i
        &&& step(grid, locs[parents[i] as int], locs[i])
    }
}

/// The locations met when following parent links from record `i` back to
/// record zero, in forward order.
pub open spec fn chain(locs: Seq<Location>, parents: Seq<usize>, i: int) -> Seq<Location>
    decreases i,
{
    if 0 < i && parents[i] < i {
        chain(locs, parents, parents[i] as int).push(locs[i])
    } else {
        seq![locs[i]]
    }
}

/// The chain of a record is a route from the start to it.
proof fn lemma_chain_route(grid: Grid, locs: Seq<Location>, parents: Seq<usize>, start: Location, i: int)
    requires
        records_ok(grid, locs, parents, start),
        0 <= i < locs.len(),
    ensures
        is_route(grid, chain(locs, parents, i), start, locs[i]),
    decreases i,
{
    if i > 0 {
        let p = parents[i] as int;
        lemma_chain_route(grid, locs, parents, start, p);
        let c = chain(locs, parents, p);
        let r = chain(locs, parents, i);
        assert(r == c.push(locs[i]));
        assert forall|k: int| 0 <= k < r.len() - 1 implies step(grid, #[trigger] r[k], r[k + 1]) by {
            if k < c.len() - 1 {
                assert(r[k] == c[k] && r[k + 1] == c[k + 1]);
            } else {
                assert(r[k] == c.last());
            }
        }
    }
}

/// The locations of the chain of records that ends at `end`, from the start.
fn build_path(
    grid: &Grid,
    locs: &Vec<Location>,
    parents: &Vec<usize>,
    start: Location,
    end: usize,
) -> (r: Path)
    requires
        records_ok(*grid, locs@, parents@, start),
        end < locs@.len(),
    ensures
        r@ == chain(locs@, parents@, end as int),
        is_route(*grid, r@, start, locs@[end as int]),
    decreases end,
{
    proof {
        lemma_chain_route(*grid, locs@, parents@, start, end as int);
    }
    if end == 0 {
        let mut v: Vec<Location> = Vec::new();
        v.push(locs[0]);
        assert(v@ == seq![locs@[0]]);
        return v;
    }
    let p = parents[end];
    assert(p < end);
    let mut v = build_path(grid, locs, parents, start, p);
    v.push(locs[end]);
    v
}

/// A route from `start` to `dest` found breadth first over the cells, or
/// `None` when no route leads there.
fn bfs_route(grid: &Grid, start: Location, dest: Location) -> (r: Option<Path>)
    requires
        grid.wf(),
    ensures
        match r {
            Some(p) => is_route(*grid, p@, start, dest),
            None => !reachable(*grid, start, dest),
        },
{
    let cells = grid.locations();
    let ghost cl = Seq::new(cells@.len(), |k: int| cells@[k].0).push(start);
    let mut seen: Vec<Location> = Vec::new();
    let mut parents: Vec<usize> = Vec::new();
    seen.push(start);
    parents.push(0);
    let mut head: usize = 0;
    while head < seen.len()
        invariant
            grid.wf(),
            cl.len() == cells@.len() + 1,
            forall|k: int| 0 <= k < cells@.len() ==> #[trigger] cl[k] == cells@[k].0,
            cl[cells@.len() as int] == start,
            forall|y: int, x: int| #[trigger] grid.has_cell(y, x) ==> exists|k: int|
                0 <= k < cells@.len() && cells@[k].0 == loc_of(y, x),
            seen@.no_duplicates(),
            1 <= seen@.len() <= cl.len(),
            head <= seen@.len(),
            records_ok(*grid, seen@, parents@, start),
            forall|k: int| 0 <= k < seen@.len() ==> #[trigger] seen@[k] == start || grid.has_loc(seen@[k]),
            forall|k: int, l: Location|
                0 <= k < head && grid.has_loc(l) && #[trigger] l.dist(seen@[k]) == 1 ==> seen@.contains(l),
        decreases 2 * cl.len() - seen@.len() - head,
    {
        let cur = seen[head];
        let nbrs = grid.neighbors4(&cur);
        let ghost len0 = seen@.len();
        let mut q: usize = 0;
        while q < nbrs.len()
            invariant
                grid.wf(),
                seen@.len() >= len0,
                cl.len() == cells@.len() + 1,
                forall|k: int| 0 <= k < cells@.len() ==> #[trigger] cl[k] == cells@[k].0,
                cl[cells@.len() as int] == start,
                forall|y: int, x: int| #[trigger] grid.has_cell(y, x) ==> exists|k: int|
                    0 <= k < cells@.len() && cells@[k].0 == loc_of(y, x),
                seen@.no_duplicates(),
                1 <= seen@.len() <= cl.len(),
                head < seen@.len(),
                cur == seen@[head as int],
                records_ok(*grid, seen@, parents@, start),
                forall|k: int| 0 <= k < seen@.len() ==> #[trigger] seen@[k] == start || grid.has_loc(seen@[k]),
                q <= nbrs@.len(),
                forall|k: int| 0 <= k < nbrs@.len() ==> grid.has_loc(#[trigger] nbrs@[k]) && nbrs@[k].dist(cur) == 1,
                forall|k: int| 0 <= k < q ==> seen@.contains(#[trigger] nbrs@[k]),
                forall|k: int, l: Location|
                    0 <= k < head && grid.has_loc(l) && #[trigger] l.dist(seen@[k]) == 1 ==> seen@.contains(l),
            decreases nbrs@.len() - q,
        {
            let n = nbrs[q];
            let mut found = false;
            let mut t: usize = 0;
            while t < seen.len()
                invariant
                    t <= seen@.len(),
                    found == exists|p: int| 0 <= p < t && seen@[p] == n,
                decreases seen@.len() - t,
            {
                if seen[t] == n {
                    found = true;
                }
                t += 1;
            }
            let ghost old_seen = seen@;
            let ghost old_parents = parents@;
            if !found {
                proof {
                    assert(grid.has_loc(nbrs@[q as int]));
                    let seen_plus = old_seen.push(n);
                    assert(seen_plus.no_duplicates());
                    assert forall|l: Location| seen_plus.to_set().contains(l) implies cl.to_set().contains(l) by {
                        let p = choose|p: int| 0 <= p < seen_plus.len() && seen_plus[p] == l;
                        if l == start {
                            assert(cl[cells@.len() as int] == l);
                        } else {
                            assert(grid.has_loc(l));
                            assert(grid.has_cell(l.y as int, l.x as int));
                            let k = choose|k: int| 0 <= k < cells@.len() && cells@[k].0 == loc_of(l.y as int, l.x as int);
                            assert(cl[k] == l);
                        }
                    }
                    seen_plus.unique_seq_to_set();
                    cl.lemma_cardinality_of_set();
                    vstd::set_lib::lemma_len_subset(seen_plus.to_set(), cl.to_set());
                }
                seen.push(n);
                parents.push(head);
                proof {
                    assert forall|a: int, b: int| 0 <= a < b < seen@.len() implies seen@[a] != seen@[b] by {
                        if b == seen@.len() - 1 {
                            assert(seen@[a] == old_seen[a]);
                        }
                    }
                    assert forall|i: int| 0 < i < seen@.len() implies {
                        &&& #[trigger] parents@[i] < i
                        &&& step(*grid, seen@[parents@[i] as int], seen@[i])
                    } by {
                        if i < old_seen.len() {
                            assert(parents@[i] == old_parents[i]);
                            assert(seen@[i] == old_seen[i]);
                        } else {
                            assert(n.dist(cur) == 1);
                        }
                    }
                    assert forall|k: int| 0 <= k < seen@.len() implies #[trigger] seen@[k] == start || grid.has_loc(seen@[k]) by {
                        if k < old_seen.len() {
                            assert(seen@[k] == old_seen[k]);
                        }
                    }
                }
            }
            proof {
                assert forall|k: int| 0 <= k < q + 1 implies seen@.contains(#[trigger] nbrs@[k]) by {
                    if k < q {
                        let p = choose|p: int| 0 <= p < old_seen.len() && old_seen[p] == nbrs@[k];
                        assert(seen@[p] == nbrs@[k]);
                    } else if found {
                        let p = choose|p: int| 0 <= p < old_seen.len() && old_seen[p] == n;
                        assert(seen@[p] == n);
                    } else {
                        assert(seen@[seen@.len() - 1] == n);
                    }
                }
                assert forall|k: int, l: Location|
                    0 <= k < head && grid.has_loc(l) && #[trigger] l.dist(seen@[k]) == 1 implies seen@.contains(l) by {
                    assert(seen@[k] == old_seen[k]);
                    let p = choose|p: int| 0 <= p < old_seen.len() && old_seen[p] == l;
                    assert(seen@[p] == l);
                }
            }
            q += 1;
        }
        proof {
            assert forall|k: int, l: Location|
                0 <= k < head + 1 && grid.has_loc(l) && #[trigger] l.dist(seen@[k]) == 1 implies seen@.contains(l) by {
                if k == head {
                    assert(nbrs@.contains(l));
                    let p = choose|p: int| 0 <= p < nbrs@.len() && nbrs@[p] == l;
                    assert(seen@.contains(nbrs@[p]));
                }
            }
        }
        head += 1;
    }
    let mut k: usize = 0;
    while k < seen.len()
        invariant
            k <= seen@.len(),
            forall|i: int| 0 <= i < k ==> seen@[i] != dest,
            records_ok(*grid, seen@, parents@, start),
            forall|k: int, l: Location|
                0 <= k < seen@.len() && grid.has_loc(l) && #[trigger] l.dist(seen@[k]) == 1 ==> seen@.contains(l),
        decreases seen@.len() - k,
    {
        if seen[k] == dest {
            let path = build_path(grid, &seen, &parents, start, k);
            return Some(path);
        }
        k += 1;
    }
    proof {
        if reachable(*grid, start, dest) {
            let path = choose|path: Seq<Location>| #[trigger] is_route(*grid, path, start, dest);
            assert(seen@.contains(start)) by {
                assert(seen@[0] == start);
            }
            lemma_closed_route(*grid, seen@, path, start, dest, path.len() - 1);
        }
    }
    None
}

/// Whether `done` holds `n`.
fn contains_node(done: &Vec<Node>, n: Node) -> (r: bool)
    ensures
        r == done@.contains(n),
{
    let mut k: usize = 0;
    while k < done.len()
        invariant
            k <= done@.len(),
            forall|i: int| 0 <= i < k ==> done@[i] != n,
        decreases done@.len() - k,
    {
        if done[k] == n {
            return true;
        }
        k += 1;
    }
    false
}

/// Whether some record reaches `n` at a cost of at most `c`.
fn known_at_most(nodes: &Vec<Node>, costs: &Vec<u64>, n: Node, c: u64) -> (r: bool)
    requires
        costs@.len() == nodes@.len(),
    ensures
        r == exists|i: int| 0 <= i < nodes@.len() && nodes@[i] == n && #[trigger] costs@[i] <= c,
{
    let mut k: usize = 0;
    while k < nodes.len()
        invariant
            costs@.len() == nodes@.len(),
            k <= nodes@.len(),
            forall|i: int| 0 <= i < k ==> !(nodes@[i] == n && #[trigger] costs@[i] <= c),
        decreases nodes@.len() - k,
    {
        if nodes[k] == n && costs[k] <= c {
            return true;
        }
        k += 1;
    }
    false
}

/// Number of cells of `grid`.
fn cell_count(grid: &Grid) -> (r: u64)
    requires
        grid.wf(),
{
    let mut total: u64 = 0;
    let mut i: usize = 0;
    while i < grid.vec.len()
        invariant
            i <= grid.vec@.len(),
        decreases grid.vec@.len() - i,
    {
        let mut j: usize = 0;
        while j < grid.vec[i].len()
            invariant
                i < grid.vec@.len(),
                j <= grid.vec@[i as int]@.len(),
            decreases grid.vec@[i as int]@.len() - j,
        {
            if grid.vec[i][j].is_some() && total < u64::MAX {
                total = total + 1;
            }
            j += 1;
        }
        i += 1;
    }
    total
}

/// Plans the path of `droplet` to its destination with A* over (location,
/// time) states: a move to a neighboring cell costs one, waiting costs
/// `WAIT_COST`, and the distance to the destination guides the search. Among
/// frontier entries of equal estimate the earliest inserted is taken first.
/// The answer is `None` when the droplet has no destination or no route
/// leads there; a droplet already at its destination gets the one-location
/// path. Should the search spend its step budget (which grows with the square
/// of the number of cells) without arriving, the breadth-first route over
/// the cells is returned instead.
pub fn route_one(droplet: &Droplet, grid: &Grid) -> (r: Option<Path>)
    requires
        grid.wf(),
    ensures
        match r {
            Some(p) => droplet.destination.is_some() && is_route(*grid, p@, droplet.location, droplet.destination.unwrap()),
            None => true,
        },
        r matches Some(p) ==> forall|i: int| 0 <= i < p@.len() ==> #[trigger] p@[i] == droplet.location || grid.has_loc(p@[i]),
        droplet.destination.is_some() ==> (r.is_some() <==> reachable(*grid, droplet.location, droplet.destination.unwrap())),
        droplet.destination.is_none() ==> r.is_none(),
        droplet.destination == Some(droplet.location) ==> (r matches Some(p) && p@ == seq![droplet.location]),
{
    let dest = match droplet.destination {
        Some(d) => d,
        None => {
            return None;
        },
    };
    let start = droplet.location;
    if start == dest {
        let mut v: Vec<Location> = Vec::new();
        v.push(start);
        assert(v@ == seq![start]);
        assert(is_route(*grid, v@, start, dest));
        return Some(v);
    }
    let fallback = match bfs_route(grid, start, dest) {
        Some(p) => p,
        None => {
            return None;
        },
    };
    proof {
        lemma_route_on_cells(*grid, fallback@, start, dest);
    }
    let cells = cell_count(grid);
    let time_limit: u32 = if cells < 0xffff_fff0 { cells as u32 } else { 0xffff_fff0 };
    let mut fuel: u64 = u64::MAX;
    if cells < 0x1000_0000 {
        assert((cells + 1) * (cells + 1) <= 0x1000_0001 * 0x1000_0001) by (nonlinear_arith)
            requires cells < 0x1000_0000;
        fuel = 8 * ((cells + 1) * (cells + 1));
    }

    let mut nodes: Vec<Node> = Vec::new();
    let mut locs: Vec<Location> = Vec::new();
    let mut costs: Vec<u64> = Vec::new();
    let mut parents: Vec<usize> = Vec::new();
    let mut todo: Vec<(u64, usize)> = Vec::new();
    let mut done: Vec<Node> = Vec::new();

    nodes.push(Node { location: start, time: 0 });
    locs.push(start);
    costs.push(0);
    parents.push(0);
    todo.push((0, 0));

    while fuel > 0
        invariant
            grid.wf(),
            start == droplet.location,
            droplet.destination == Some(dest),
            start != dest,
            is_route(*grid, fallback@, start, dest),
            forall|i: int| 0 <= i < fallback@.len() ==> #[trigger] fallback@[i] == start || grid.has_loc(fallback@[i]),
            locs@.len() == nodes@.len(),
            forall|i: int| 0 <= i < nodes@.len() ==> #[trigger] locs@[i] == nodes@[i].location,
            records_ok(*grid, locs@, parents@, start),
            costs@.len() == nodes@.len(),
            time_limit <= 0xffff_fff0,
            forall|i: int| 0 <= i < nodes@.len() ==> (#[trigger] nodes@[i]).time <= time_limit,
            forall|i: int| 0 <= i < nodes@.len() ==> #[trigger] costs@[i] <= WAIT_COST * nodes@[i].time,
            forall|k: int| 0 <= k < todo@.len() ==> (#[trigger] todo@[k]).1 < nodes@.len(),
        decreases fuel,
    {
        fuel = fuel - 1;
        if todo.len() == 0 {
            return Some(fallback);
        }
        // take the first entry of least estimate
        let mut best: usize = 0;
        let mut k: usize = 1;
        while k < todo.len()
            invariant
                1 <= k <= todo@.len(),
                best < todo@.len(),
            decreases todo@.len() - k,
        {
            if todo[k].0 < todo[best].0 {
                best = k;
            }
            k += 1;
        }
        let (_est, idx) = todo.remove(best);
        let node = nodes[idx];
        if node.location == dest {
            let path = build_path(grid, &locs, &parents, start, idx);
            assert(is_route(*grid, path@, start, dest));
            proof {
                lemma_route_on_cells(*grid, path@, start, dest);
            }
            return Some(path);
        }
        if contains_node(&done, node) {
            continue;
        }
        done.push(node);
        if node.time >= time_limit {
            continue;
        }
        let node_cost = costs[idx];
        let succ = node.expand(grid);
        let mut s: usize = 0;
        while s < succ.len()
            invariant
                grid.wf(),
                locs@.len() == nodes@.len(),
                forall|i: int| 0 <= i < nodes@.len() ==> #[trigger] locs@[i] == nodes@[i].location,
                records_ok(*grid, locs@, parents@, start),
                costs@.len() == nodes@.len(),
                idx < nodes@.len(),
                node == nodes@[idx as int],
                node.time < time_limit,
                time_limit <= 0xffff_fff0,
                node_cost == costs@[idx as int],
                forall|i: int| 0 <= i < nodes@.len() ==> (#[trigger] nodes@[i]).time <= time_limit,
                forall|i: int| 0 <= i < nodes@.len() ==> #[trigger] costs@[i] <= WAIT_COST * nodes@[i].time,
                forall|k: int| 0 <= k < todo@.len() ==> (#[trigger] todo@[k]).1 < nodes@.len(),
                forall|i: int| 0 <= i < succ@.len() ==> {
                    &&& (#[trigger] succ@[i]).1.time == node.time + 1
                    &&& step(*grid, node.location, succ@[i].1.location)
                    &&& succ@[i].0 <= WAIT_COST
                },
            decreases succ@.len() - s,
        {
            let (edge_cost, next) = succ[s];
            assert(succ@[s as int].1.time == node.time + 1);
            if !contains_node(&done, next) {
                let next_cost = node_cost + edge_cost;
                if !known_at_most(&nodes, &costs, next, next_cost) {
                    let ghost old_nodes = nodes@;
                    let ghost old_locs = locs@;
                    let ghost old_parents = parents@;
                    let ghost old_costs = costs@;
                    let h = dest.distance_to(&next.location);
                    let new_idx = nodes.len();
                    nodes.push(next);
                    locs.push(next.location);
                    costs.push(next_cost);
                    parents.push(idx);
                    todo.push((next_cost + h, new_idx));
                    proof {
                        assert forall|i: int| 0 < i < locs@.len() implies {
                            &&& #[trigger] parents@[i] < i
                            &&& step(*grid, locs@[parents@[i] as int], locs@[i])
                        } by {
                            if i < old_nodes.len() {
                                assert(parents@[i] == old_parents[i]);
                                assert(locs@[i] == old_locs[i]);
                            }
                        }
                        assert forall|i: int| 0 <= i < nodes@.len() implies #[trigger] locs@[i] == nodes@[i].location by {
                            if i < old_nodes.len() {
                                assert(locs@[i] == old_locs[i]);
                                assert(nodes@[i] == old_nodes[i]);
                            }
                        }
                        assert forall|i: int| 0 <= i < nodes@.len() implies #[trigger] costs@[i] <= WAIT_COST * nodes@[i].time by {
                            if i < old_nodes.len() {
                                assert(costs@[i] == old_costs[i]);
                                assert(nodes@[i] == old_nodes[i]);
                            }
                        }
                    }
                }
            }
            s += 1;
        }
    }
    Some(fallback)
}

} // verus!
