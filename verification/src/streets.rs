use vstd::prelude::*;
use crate::geometry::{
    GeoPoint, dist_ceil, dist_floor, dist_up_m, dist_direct_m, lemma_dist_symmetric,
    lemma_dist_zero, lemma_dist_floor_le_ceil, lemma_triangle, LAT_LIMIT_UDEG, LNG_LIMIT_UDEG,
};
use crate::error::OLPError;

verus! {

/// One directed street segment between two node indices; undirected streets
/// are stored as a pair of directed segments.
#[derive(Clone, Copy, PartialEq, Eq, Structural, Debug)]
pub struct Edge {
    pub a: usize,
    pub b: usize,
    pub len_m: u64,
}

/// Longest street segment the engine accepts, in meters.
pub const MAX_EDGE_LEN_M: u64 = 100_000_000;

/// Largest node count the engine accepts; keeps every path sum inside u64.
pub const MAX_NODES: usize = 1_000_000_000;

/// An immutable street graph: nodes at geographic positions, weighted edges.
#[derive(Debug)]
pub struct StreetNetwork {
    pub nodes: Vec<GeoPoint>,
    pub edges: Vec<Edge>,
}

impl StreetNetwork {
    /// Well-formedness: indices in range, valid coordinates, and every
    /// segment at least as long as the straight line between its endpoints.
    pub open spec fn wf(self) -> bool {
        &&& self.nodes@.len() <= MAX_NODES
        &&& (forall|i: int| 0 <= i < self.nodes@.len() ==> (#[trigger] self.nodes@[i]).valid())
        &&& (forall|j: int|
            0 <= j < self.edges@.len() ==> {
                let e = #[trigger] self.edges@[j];
                &&& e.a < self.nodes@.len()
                &&& e.b < self.nodes@.len()
                &&& dist_ceil(self.nodes@[e.a as int], self.nodes@[e.b as int]) <= e.len_m
                &&& e.len_m <= MAX_EDGE_LEN_M
            })
    }

    /// An empty network: no nodes, no segments.
    pub fn new() -> (r: StreetNetwork)
        ensures
            r.wf(),
            r.nodes@.len() == 0,
            r.edges@.len() == 0,
    {
        StreetNetwork { nodes: Vec::new(), edges: Vec::new() }
    }

    /// Adds a node and returns its index; rejects out-of-domain coordinates
    /// and a full node table.
    pub fn add_node(&mut self, p: GeoPoint) -> (r: Result<usize, OLPError>)
        requires
            old(self).wf(),
        ensures
            final(self).wf(),
            match r {
                Ok(i) => p.valid() && old(self).nodes@.len() < MAX_NODES && i
                    == old(self).nodes@.len() && final(self).nodes@ == old(self).nodes@.push(p)
                    && final(self).edges@ == old(self).edges@,
                Err(_) => !(p.valid() && old(self).nodes@.len() < MAX_NODES) && *final(self)
                    == *old(self),
            },
    {
        if !(-LAT_LIMIT_UDEG <= p.lat_udeg && p.lat_udeg <= LAT_LIMIT_UDEG && -LNG_LIMIT_UDEG
            <= p.lng_udeg && p.lng_udeg <= LNG_LIMIT_UDEG) {
            return Err(OLPError::geometry_error("node coordinate out of domain"));
        }
        if self.nodes.len() >= MAX_NODES {
            return Err(OLPError::data_error("street network node table is full"));
        }
        let i = self.nodes.len();
        self.nodes.push(p);
        Ok(i)
    }

    /// Adds an undirected street segment of the given length between two
    /// existing nodes; the length must cover the straight-line separation.
    pub fn add_edge(&mut self, a: usize, b: usize, len_m: u64) -> (r: Result<(), OLPError>)
        requires
            old(self).wf(),
        ensures
            final(self).wf(),
            final(self).nodes@ == old(self).nodes@,
            r is Ok <==> a < old(self).nodes@.len() && b < old(self).nodes@.len() && len_m
                <= MAX_EDGE_LEN_M && dist_ceil(
                old(self).nodes@[a as int],
                old(self).nodes@[b as int],
            ) <= len_m,
            match r {
                Ok(()) => final(self).edges@ == old(self).edges@.push(Edge { a, b, len_m }).push(
                    Edge { a: b, b: a, len_m },
                ),
                Err(_) => *final(self) == *old(self),
            },
    {
        if a >= self.nodes.len() || b >= self.nodes.len() {
            return Err(OLPError::data_error("street segment endpoint is not a node"));
        }
        if len_m > MAX_EDGE_LEN_M {
            return Err(OLPError::data_error("street segment is too long"));
        }
        let d = dist_up_m(&self.nodes[a], &self.nodes[b]);
        if len_m < d {
            return Err(
                OLPError::data_error("street segment shorter than the straight line"),
            );
        }
        proof {
            lemma_dist_symmetric(self.nodes@[a as int], self.nodes@[b as int]);
        }
        self.edges.push(Edge { a, b, len_m });
        self.edges.push(Edge { a: b, b: a, len_m });
        Ok(())
    }
}

pub open spec fn add_opt(x: Option<int>, w: int) -> Option<int> {
    match x {
        None => None,
        Some(v) => Some(v + w),
    }
}

pub open spec fn min_opt(x: Option<int>, y: Option<int>) -> Option<int> {
    match (x, y) {
        (None, _) => y,
        (Some(u), None) => x,
        (Some(u), Some(v)) => if u <= v {
            x
        } else {
            y
        },
    }
}

/// Length of the shortest walk from node `a` to node `b` that uses at most
/// `k` segments, or None when no such walk exists.
pub open spec fn min_path(net: StreetNetwork, a: int, b: int, k: nat) -> Option<int>
    decreases k, net.edges@.len() + 1,
{
    if k == 0 {
        if a == b {
            Some(0int)
        } else {
            None
        }
    } else {
        min_opt(
            min_path(net, a, b, (k - 1) as nat),
            via_edges(net, a, b, k, net.edges@.len() as nat),
        )
    }
}

/// Shortest walk of at most `k` segments whose last segment is one of the
/// first `i` edges ending at `b`.
pub open spec fn via_edges(net: StreetNetwork, a: int, b: int, k: nat, i: nat) -> Option<int>
    decreases k, i,
{
    if k == 0 || i == 0 {
        None
    } else {
        let rest = via_edges(net, a, b, k, (i - 1) as nat);
        let e = net.edges@[i - 1];
        if e.b == b {
            min_opt(rest, add_opt(min_path(net, a, e.a as int, (k - 1) as nat), e.len_m as int))
        } else {
            rest
        }
    }
}

/// Every finite bounded-hop walk length is between zero and `k` whole
/// maximum-length segments.
pub proof fn lemma_min_path_bounds(net: StreetNetwork, a: int, b: int, k: nat)
    requires
        net.wf(),
    ensures
        match min_path(net, a, b, k) {
            None => true,
            Some(d) => 0 <= d <= k * (MAX_EDGE_LEN_M as int),
        },
    decreases k, net.edges@.len() + 1,
{
    if k > 0 {
        lemma_min_path_bounds(net, a, b, (k - 1) as nat);
        lemma_via_bounds(net, a, b, k, net.edges@.len() as nat);
    }
}

proof fn lemma_via_bounds(net: StreetNetwork, a: int, b: int, k: nat, i: nat)
    requires
        net.wf(),
        i <= net.edges@.len(),
    ensures
        match via_edges(net, a, b, k, i) {
            None => true,
            Some(d) => 0 <= d <= k * (MAX_EDGE_LEN_M as int),
        },
    decreases k, i,
{
    if k > 0 && i > 0 {
        lemma_via_bounds(net, a, b, k, (i - 1) as nat);
        let e = net.edges@[i - 1];
        if e.b == b {
            lemma_min_path_bounds(net, a, e.a as int, (k - 1) as nat);
        }
    }
}

/// A routed walk between two nodes is never shorter than the rounded-down
/// straight line between them.
pub proof fn lemma_min_path_lower(net: StreetNetwork, a: int, b: int, k: nat)
    requires
        net.wf(),
        0 <= a < net.nodes@.len(),
        0 <= b < net.nodes@.len(),
    ensures
        match min_path(net, a, b, k) {
            None => true,
            Some(d) => d >= dist_floor(net.nodes@[a], net.nodes@[b]),
        },
    decreases k, net.edges@.len() + 1,
{
    if k == 0 {
        if a == b {
            lemma_dist_zero(net.nodes@[a]);
        }
    } else {
        lemma_min_path_lower(net, a, b, (k - 1) as nat);
        lemma_via_lower(net, a, b, k, net.edges@.len() as nat);
    }
}

proof fn lemma_via_lower(net: StreetNetwork, a: int, b: int, k: nat, i: nat)
    requires
        net.wf(),
        0 <= a < net.nodes@.len(),
        0 <= b < net.nodes@.len(),
        i <= net.edges@.len(),
    ensures
        match via_edges(net, a, b, k, i) {
            None => true,
            Some(d) => d >= dist_floor(net.nodes@[a], net.nodes@[b]),
        },
    decreases k, i,
{
    if k > 0 && i > 0 {
        lemma_via_lower(net, a, b, k, (i - 1) as nat);
        let e = net.edges@[i - 1];
        if e.b == b {
            lemma_min_path_lower(net, a, e.a as int, (k - 1) as nat);
            lemma_triangle(net.nodes@[a], net.nodes@[e.a as int], net.nodes@[b]);
        }
    }
}

/// Exec-side counterpart of an optional mathematical distance.
pub open spec fn opt_eq(x: Option<u64>, y: Option<int>) -> bool {
    match x {
        None => y is None,
        Some(d) => y == Some(d as int),
    }
}

/// Shortest bounded-hop walk between two nodes, by rounds of edge relaxation;
/// round `k` makes each tentative distance the `k`-segment optimum.
pub fn shortest_path(net: &StreetNetwork, src: usize, dst: usize) -> (r: Option<u64>)
    requires
        net.wf(),
        src < net.nodes@.len(),
        dst < net.nodes@.len(),
    ensures
        opt_eq(r, min_path(*net, src as int, dst as int, net.nodes@.len() as nat)),
{
    let v = net.nodes.len();
    let mut prev: Vec<Option<u64>> = Vec::new();
    let mut i: usize = 0;
    while i < v
        invariant
            i <= v,
            prev@.len() == i,
            forall|x: int|
                0 <= x < i ==> opt_eq(#[trigger] prev@[x], min_path(*net, src as int, x, 0)),
        decreases v - i,
    {
        if i == src {
            prev.push(Some(0u64));
        } else {
            prev.push(None);
        }
        i = i + 1;
    }
    let mut k: usize = 0;
    while k < v
        invariant
            net.wf(),
            src < v,
            dst < v,
            k <= v,
            v == net.nodes@.len(),
            v <= MAX_NODES,
            prev@.len() == v,
            forall|x: int|
                0 <= x < v ==> opt_eq(#[trigger] prev@[x], min_path(*net, src as int, x, k as nat)),
        decreases v - k,
    {
        let mut next: Vec<Option<u64>> = Vec::new();
        let mut i2: usize = 0;
        while i2 < v
            invariant
                i2 <= v,
                prev@.len() == v,
                next@.len() == i2,
                forall|x: int| 0 <= x < i2 ==> #[trigger] next@[x] == prev@[x],
            decreases v - i2,
        {
            let c = prev[i2];
            next.push(c);
            i2 = i2 + 1;
        }
        let kk: Ghost<nat> = Ghost((k + 1) as nat);
        proof {
            assert(forall|x: int|
                0 <= x < v ==> #[trigger] via_edges(*net, src as int, x, kk@, 0) is None);
        }
        let e_n = net.edges.len();
        let mut j: usize = 0;
        while j < e_n
            invariant
                net.wf(),
                src < v,
                k < v,
                v == net.nodes@.len(),
                v <= MAX_NODES,
                e_n == net.edges@.len(),
                j <= e_n,
                kk@ == k + 1,
                prev@.len() == v,
                next@.len() == v,
                forall|x: int|
                    0 <= x < v ==> opt_eq(
                        #[trigger] prev@[x],
                        min_path(*net, src as int, x, k as nat),
                    ),
                forall|x: int|
                    0 <= x < v ==> opt_eq(
                        #[trigger] next@[x],
                        min_opt(
                            min_path(*net, src as int, x, k as nat),
                            via_edges(*net, src as int, x, kk@, j as nat),
                        ),
                    ),
            decreases e_n - j,
        {
            let e = net.edges[j];
            proof {
                assert(net.wf());
            }
            if let Some(d) = prev[e.a] {
                proof {
                    lemma_min_path_bounds(*net, src as int, e.a as int, k as nat);
                    assert(d <= (k as int) * (MAX_EDGE_LEN_M as int));
                    assert((k as int) * (MAX_EDGE_LEN_M as int) <= (MAX_NODES as int) * (
                    MAX_EDGE_LEN_M as int)) by (nonlinear_arith)
                        requires
                            0 <= k as int <= MAX_NODES as int,
                    ;
                }
                let nd = d + e.len_m;
                let cur = next[e.b];
                let better = match cur {
                    None => true,
                    Some(c) => nd < c,
                };
                if better {
                    next.set(e.b, Some(nd));
                }
            }
            j = j + 1;
        }
        proof {
            assert(forall|x: int|
                0 <= x < v ==> min_path(*net, src as int, x, kk@) == min_opt(
                    min_path(*net, src as int, x, k as nat),
                    via_edges(*net, src as int, x, kk@, net.edges@.len() as nat),
                ));
        }
        prev = next;
        k = k + 1;
    }
    prev[dst]
}

/// Index of the node nearest to `p` among the first `i` nodes, rounded-up
/// metric, earliest index winning ties.
pub open spec fn nearest_upto(net: StreetNetwork, p: GeoPoint, i: nat) -> int
    decreases i,
{
    if i <= 1 {
        0
    } else {
        let b = nearest_upto(net, p, (i - 1) as nat);
        if dist_ceil(p, net.nodes@[i - 1]) < dist_ceil(p, net.nodes@[b]) {
            i - 1
        } else {
            b
        }
    }
}

pub proof fn lemma_nearest_range(net: StreetNetwork, p: GeoPoint, i: nat)
    requires
        i <= net.nodes@.len(),
    ensures
        0 <= nearest_upto(net, p, i) < if i == 0 {
            1int
        } else {
            i as int
        },
    decreases i,
{
    if i > 1 {
        lemma_nearest_range(net, p, (i - 1) as nat);
    }
}

/// Node index nearest to `p`, ties to the earliest index.
pub fn nearest_node(net: &StreetNetwork, p: &GeoPoint) -> (r: usize)
    requires
        net.wf(),
        p.valid(),
        net.nodes@.len() > 0,
    ensures
        r == nearest_upto(*net, *p, net.nodes@.len() as nat),
{
    let mut best: usize = 0;
    let mut best_d: u64 = dist_up_m(p, &net.nodes[0]);
    let mut i: usize = 1;
    while i < net.nodes.len()
        invariant
            net.wf(),
            p.valid(),
            net.nodes@.len() > 0,
            1 <= i <= net.nodes@.len(),
            best == nearest_upto(*net, *p, i as nat),
            0 <= best < i,
            best_d == dist_ceil(*p, net.nodes@[best as int]),
        decreases net.nodes@.len() - i,
    {
        let d = dist_up_m(p, &net.nodes[i]);
        if d < best_d {
            best = i;
            best_d = d;
        }
        i = i + 1;
    }
    best
}

/// Reachability distance between two off-network positions routed over the
/// street graph: rounded-up connectors to the nearest nodes plus the shortest
/// walk between those nodes.  Positions snapping to the same node, and any
/// position on an empty graph, fall back to the direct distance.
pub open spec fn network_dist_spec(net: StreetNetwork, s: GeoPoint, c: GeoPoint) -> Option<int> {
    let v = net.nodes@.len();
    if v == 0 {
        Some(dist_floor(s, c))
    } else {
        let ns = nearest_upto(net, s, v as nat);
        let nc = nearest_upto(net, c, v as nat);
        if ns == nc {
            Some(dist_floor(s, c))
        } else {
            match min_path(net, ns, nc, v as nat) {
                None => None,
                Some(d) => Some(dist_ceil(s, net.nodes@[ns]) + d + dist_ceil(net.nodes@[nc], c)),
            }
        }
    }
}

/// Street-routed distance between two positions, in whole meters.
pub fn network_distance(net: &StreetNetwork, s: &GeoPoint, c: &GeoPoint) -> (r: Option<u64>)
    requires
        net.wf(),
        s.valid(),
        c.valid(),
    ensures
        opt_eq(r, network_dist_spec(*net, *s, *c)),
{
    let v = net.nodes.len();
    if v == 0 {
        return Some(dist_direct_m(s, c));
    }
    let ns = nearest_node(net, s);
    let nc = nearest_node(net, c);
    proof {
        lemma_nearest_range(*net, *s, v as nat);
        lemma_nearest_range(*net, *c, v as nat);
    }
    if ns == nc {
        return Some(dist_direct_m(s, c));
    }
    match shortest_path(net, ns, nc) {
        None => None,
        Some(d) => {
            proof {
                lemma_min_path_bounds(*net, ns as int, nc as int, v as nat);
                assert((v as int) * (MAX_EDGE_LEN_M as int) <= (MAX_NODES as int) * (
                MAX_EDGE_LEN_M as int)) by (nonlinear_arith)
                    requires
                        0 <= v as int <= MAX_NODES as int,
                ;
            }
            let c1 = dist_up_m(s, &net.nodes[ns]);
            let c2 = dist_up_m(&net.nodes[nc], c);
            Some(c1 + d + c2)
        },
    }
}

/// Street routing never undercuts the direct line: the core of the distance
/// monotonicity guarantee.
pub proof fn lemma_network_ge_direct(net: StreetNetwork, s: GeoPoint, c: GeoPoint)
    requires
        net.wf(),
        s.valid(),
        c.valid(),
    ensures
        match network_dist_spec(net, s, c) {
            None => true,
            Some(d) => d >= dist_floor(s, c),
        },
{
    let v = net.nodes@.len();
    if v > 0 {
        let ns = nearest_upto(net, s, v as nat);
        let nc = nearest_upto(net, c, v as nat);
        lemma_nearest_range(net, s, v as nat);
        lemma_nearest_range(net, c, v as nat);
        if ns != nc {
            match min_path(net, ns, nc, v as nat) {
                None => {},
                Some(d) => {
                    lemma_min_path_lower(net, ns, nc, v as nat);
                    let pns = net.nodes@[ns];
                    let pnc = net.nodes@[nc];
                    // Chain the rounded triangle inequality along the walk.
                    lemma_triangle(s, pnc, c);
                    lemma_triangle(pnc, pns, s);
                    lemma_dist_symmetric(pnc, pns);
                    lemma_dist_symmetric(pnc, s);
                    lemma_dist_symmetric(s, pns);
                    lemma_dist_floor_le_ceil(pnc, c);
                    lemma_dist_floor_le_ceil(pnc, pns);
                    lemma_dist_floor_le_ceil(s, pns);
                },
            }
        }
    }
}

} // verus!
