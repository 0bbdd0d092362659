use vstd::prelude::*;
use vstd::arithmetic::div_mod::{
    lemma_div_is_ordered, lemma_div_pos_is_pos, lemma_div_by_self, lemma_div_multiples_vanish,
    lemma_fundamental_div_mod, lemma_remainder,
};
use vstd::arithmetic::mul::lemma_mul_inequality;
use crate::geometry::{GeoPoint, dist_floor, dist_direct_m};
use crate::streets::{StreetNetwork, network_dist_spec, network_distance, opt_eq, lemma_network_ge_direct};

verus! {

/// How a covered centroid's weight is split among the stations covering it.
#[derive(Clone, Copy, PartialEq, Eq, Structural, Debug)]
pub enum Method {
    /// Weight split among covering stations, inversely to distance.
    Relative,
    /// Full weight to the nearest covering station.
    Absolute,
}

/// How the reachability distance between a station and a centroid is found.
#[derive(Clone, Copy, PartialEq, Eq, Structural, Debug)]
pub enum Routing {
    /// Straight-line distance.
    Direct,
    /// Shortest walk over the street network.
    Osm,
}

/// A weighted population point.
#[derive(Clone, Copy, PartialEq, Eq, Structural, Debug)]
pub struct Centroid {
    pub point: GeoPoint,
    pub weight: u64,
}

/// Largest centroid weight the engine accepts.
pub const MAX_WEIGHT: u64 = 4_294_967_295;

/// Largest number of stations a request may carry.
pub const MAX_STATIONS: usize = 100_000;

/// Largest catchment threshold, in meters.
pub const MAX_THRESHOLD_M: u64 = 1_000_000;

/// Default catchment threshold, in meters.
pub const DEFAULT_CATCHMENT_M: u64 = 300;

/// Numerator of the inverse-distance weighting.
pub const INV_SCALE: u64 = 1_000_000_000;

impl Centroid {
    pub open spec fn wf(self) -> bool {
        self.point.valid() && self.weight <= MAX_WEIGHT
    }
}

/// A (possibly hypothetical) stop position handed in by a request.
#[derive(Clone, Debug)]
pub struct Station {
    pub id: String,
    pub point: GeoPoint,
    pub name: Option<String>,
}

impl Station {
    pub open spec fn wf(self) -> bool {
        self.point.valid()
    }
}

/// One centroid a station covers: the centroid, the achieved reachability
/// distance, and the weight attributed to this station.
#[derive(Clone, Copy, PartialEq, Eq, Structural, Debug)]
pub struct CoveredCentroid {
    pub centroid: Centroid,
    pub distance_m: u64,
    pub weight: u64,
}

/// All centroids one station covers, in composite-layer order.
#[derive(Debug)]
pub struct StationCoverage {
    pub station_id: String,
    pub covered: Vec<CoveredCentroid>,
}

/// Per-station coverage, in input station order.
#[derive(Debug)]
pub struct CoverageMap {
    pub entries: Vec<StationCoverage>,
}

/// Reachability distance between a station position and a centroid position
/// under the chosen routing mode.
pub open spec fn reach_dist_spec(
    routing: Routing,
    net: StreetNetwork,
    s: GeoPoint,
    c: GeoPoint,
) -> Option<int> {
    match routing {
        Routing::Direct => Some(dist_floor(s, c)),
        Routing::Osm => network_dist_spec(net, s, c),
    }
}

/// Reachability distance in whole meters; None when the pair is unreachable.
pub fn reach_distance(routing: Routing, net: &StreetNetwork, s: &GeoPoint, c: &GeoPoint) -> (r:
    Option<u64>)
    requires
        net.wf(),
        s.valid(),
        c.valid(),
    ensures
        opt_eq(r, reach_dist_spec(routing, *net, *s, *c)),
{
    match routing {
        Routing::Direct => Some(dist_direct_m(s, c)),
        Routing::Osm => network_distance(net, s, c),
    }
}

/// A station placed exactly on a centroid reaches it at distance zero under
/// either routing mode.
pub proof fn lemma_zero_distance_coverage(routing: Routing, net: StreetNetwork, p: GeoPoint)
    requires
        net.wf(),
        p.valid(),
    ensures
        reach_dist_spec(routing, net, p, p) == Some(0int),
{
    crate::geometry::lemma_dist_zero(p);
}

/// A pair covered under street routing is covered under direct routing at
/// the same threshold: routing never undercuts the straight line.
pub proof fn lemma_network_subset_direct(net: StreetNetwork, s: GeoPoint, c: GeoPoint, t: int)
    requires
        net.wf(),
        s.valid(),
        c.valid(),
    ensures
        is_cov(reach_dist_spec(Routing::Osm, net, s, c), t) ==> is_cov(
            reach_dist_spec(Routing::Direct, net, s, c),
            t,
        ),
{
    lemma_network_ge_direct(net, s, c);
}

/// The value carried by an optional distance; zero when absent.
pub open spec fn dval(d: Option<int>) -> int {
    match d {
        Some(v) => v,
        None => 0,
    }
}

/// Whether a reachability distance means coverage at threshold `t`.
pub open spec fn is_cov(d: Option<int>, t: int) -> bool {
    d matches Some(v) && v <= t
}

/// Every present distance is non-negative.
pub open spec fn dists_ok(ds: Seq<Option<int>>) -> bool {
    forall|i: int| 0 <= i < ds.len() ==> (#[trigger] ds[i] matches Some(v) ==> v >= 0)
}

/// Inverse-distance weighting of one covered pair.
pub open spec fn inv_w(d: int) -> int {
    INV_SCALE as int / (d + 1)
}

/// Sum of inverse weights over the covering stations among the first `n`.
pub open spec fn inv_sum_upto(ds: Seq<Option<int>>, t: int, n: nat) -> int
    decreases n,
{
    if n == 0 {
        0
    } else {
        inv_sum_upto(ds, t, (n - 1) as nat) + if is_cov(ds[n - 1], t) {
            inv_w(dval(ds[n - 1]))
        } else {
            0
        }
    }
}

/// Whether any of the first `n` stations covers the centroid.
pub open spec fn any_cov(ds: Seq<Option<int>>, t: int, n: nat) -> bool {
    exists|i: int| 0 <= i < n && is_cov(#[trigger] ds[i], t)
}

/// Earliest covering station among the first `n`, or -1.
pub open spec fn first_cov(ds: Seq<Option<int>>, t: int, n: nat) -> int
    decreases n,
{
    if n == 0 {
        -1
    } else {
        let p = first_cov(ds, t, (n - 1) as nat);
        if p >= 0 {
            p
        } else if is_cov(ds[n - 1], t) {
            n - 1
        } else {
            -1
        }
    }
}

/// Nearest covering station among the first `n` (earliest on ties), or -1.
pub open spec fn win_upto(ds: Seq<Option<int>>, t: int, n: nat) -> int
    decreases n,
{
    if n == 0 {
        -1
    } else {
        let p = win_upto(ds, t, (n - 1) as nat);
        if !is_cov(ds[n - 1], t) {
            p
        } else if p == -1 {
            n - 1
        } else if dval(ds[n - 1]) < dval(ds[p]) {
            n - 1
        } else {
            p
        }
    }
}

/// Rounded-down share of the weight owed to station `i` before the rounding
/// remainder is assigned.
pub open spec fn base_share(ds: Seq<Option<int>>, t: int, w: int, v: int, i: int) -> int {
    if is_cov(ds[i], t) {
        w * inv_w(dval(ds[i])) / v
    } else {
        0
    }
}

pub open spec fn base_sum_upto(ds: Seq<Option<int>>, t: int, w: int, v: int, n: nat) -> int
    decreases n,
{
    if n == 0 {
        0
    } else {
        base_sum_upto(ds, t, w, v, (n - 1) as nat) + base_share(ds, t, w, v, n - 1)
    }
}

/// Weight attributed to station `i` for a centroid of weight `w`, given the
/// per-station reachability distances `ds` and threshold `t`.
pub open spec fn share_spec(ds: Seq<Option<int>>, t: int, w: int, method: Method, i: int) -> int {
    match method {
        Method::Relative => {
            let v = inv_sum_upto(ds, t, ds.len());
            let fc = first_cov(ds, t, ds.len());
            base_share(ds, t, w, v, i) + if i == fc {
                w - base_sum_upto(ds, t, w, v, ds.len())
            } else {
                0
            }
        },
        Method::Absolute => {
            if i == win_upto(ds, t, ds.len()) {
                w
            } else {
                0
            }
        },
    }
}

proof fn lemma_first_cov_props(ds: Seq<Option<int>>, t: int, n: nat)
    requires
        n <= ds.len(),
    ensures
        first_cov(ds, t, n) >= -1,
        first_cov(ds, t, n) == -1 <==> !any_cov(ds, t, n),
        first_cov(ds, t, n) >= 0 ==> 0 <= first_cov(ds, t, n) < n && is_cov(
            ds[first_cov(ds, t, n)],
            t,
        ),
    decreases n,
{
    if n > 0 {
        lemma_first_cov_props(ds, t, (n - 1) as nat);
    }
}

proof fn lemma_win_props(ds: Seq<Option<int>>, t: int, n: nat)
    requires
        n <= ds.len(),
    ensures
        win_upto(ds, t, n) >= -1,
        win_upto(ds, t, n) == -1 <==> !any_cov(ds, t, n),
        win_upto(ds, t, n) >= 0 ==> 0 <= win_upto(ds, t, n) < n && is_cov(
            ds[win_upto(ds, t, n)],
            t,
        ),
    decreases n,
{
    if n > 0 {
        lemma_win_props(ds, t, (n - 1) as nat);
    }
}

proof fn lemma_inv_w_bounds(d: int, t: int)
    requires
        0 <= d <= t,
        t <= MAX_THRESHOLD_M,
    ensures
        1 <= inv_w(d) <= INV_SCALE,
{
    lemma_div_is_ordered(d + 1, INV_SCALE as int, d + 1);
    lemma_div_by_self(d + 1);
    lemma_div_is_ordered(INV_SCALE as int, INV_SCALE as int * (d + 1), d + 1);
    assert(INV_SCALE as int <= INV_SCALE as int * (d + 1)) by (nonlinear_arith)
        requires
            d + 1 >= 1,
    ;
    lemma_div_multiples_vanish(INV_SCALE as int, d + 1);
    assert(INV_SCALE as int * (d + 1) == (d + 1) * (INV_SCALE as int)) by (nonlinear_arith);
}

proof fn lemma_inv_sum_bounds(ds: Seq<Option<int>>, t: int, n: nat)
    requires
        n <= ds.len(),
        dists_ok(ds),
        0 <= t <= MAX_THRESHOLD_M,
    ensures
        0 <= inv_sum_upto(ds, t, n) <= n * (INV_SCALE as int),
        any_cov(ds, t, n) ==> inv_sum_upto(ds, t, n) >= 1,
    decreases n,
{
    if n > 0 {
        lemma_inv_sum_bounds(ds, t, (n - 1) as nat);
        if is_cov(ds[n - 1], t) {
            lemma_inv_w_bounds(dval(ds[n - 1]), t);
        }
        if any_cov(ds, t, n) && !any_cov(ds, t, (n - 1) as nat) {
            assert(is_cov(ds[n - 1], t));
        }
    }
}

/// The inverse weight of one covering station never exceeds the total.
proof fn lemma_inv_term_le_sum(ds: Seq<Option<int>>, t: int, j: int, n: nat)
    requires
        n <= ds.len(),
        dists_ok(ds),
        0 <= t <= MAX_THRESHOLD_M,
        0 <= j < n,
        is_cov(ds[j], t),
    ensures
        inv_w(dval(ds[j])) <= inv_sum_upto(ds, t, n),
    decreases n,
{
    lemma_inv_sum_bounds(ds, t, (n - 1) as nat);
    if j < n - 1 {
        lemma_inv_term_le_sum(ds, t, j, (n - 1) as nat);
        if is_cov(ds[n - 1], t) {
            lemma_inv_w_bounds(dval(ds[n - 1]), t);
        }
    }
}

/// Floors of a split sum never exceed the floor of the whole.
proof fn lemma_floor_add(a: int, b: int, v: int)
    requires
        a >= 0,
        b >= 0,
        v > 0,
    ensures
        a / v + b / v <= (a + b) / v,
{
    lemma_fundamental_div_mod(a, v);
    lemma_fundamental_div_mod(b, v);
    lemma_remainder(a, v);
    lemma_remainder(b, v);
    let q = a / v + b / v;
    assert(v * q <= a + b) by (nonlinear_arith)
        requires
            a == v * (a / v) + a % v,
            b == v * (b / v) + b % v,
            a % v >= 0,
            b % v >= 0,
            q == a / v + b / v,
    ;
    lemma_div_is_ordered(v * q, a + b, v);
    lemma_div_multiples_vanish(q, v);
}

/// The rounded-down shares never sum past their exact total.
proof fn lemma_base_sum_le(ds: Seq<Option<int>>, t: int, w: int, v: int, n: nat)
    requires
        n <= ds.len(),
        dists_ok(ds),
        0 <= t <= MAX_THRESHOLD_M,
        w >= 0,
        v > 0,
    ensures
        0 <= base_sum_upto(ds, t, w, v, n) <= (w * inv_sum_upto(ds, t, n)) / v,
    decreases n,
{
    if n == 0 {
        lemma_div_pos_is_pos(0, v);
        assert(w * inv_sum_upto(ds, t, 0nat) == 0) by (nonlinear_arith)
            requires
                inv_sum_upto(ds, t, 0nat) == 0,
        ;
    } else {
        lemma_base_sum_le(ds, t, w, v, (n - 1) as nat);
        lemma_inv_sum_bounds(ds, t, (n - 1) as nat);
        let s_prev = inv_sum_upto(ds, t, (n - 1) as nat);
        if is_cov(ds[n - 1], t) {
            let d = dval(ds[n - 1]);
            lemma_inv_w_bounds(d, t);
            assert(w * s_prev >= 0 && w * inv_w(d) >= 0 && w * (s_prev + inv_w(d)) == w * s_prev
                + w * inv_w(d)) by (nonlinear_arith)
                requires
                    w >= 0,
                    s_prev >= 0,
                    inv_w(d) >= 0,
            ;
            lemma_floor_add(w * s_prev, w * inv_w(d), v);
            lemma_div_pos_is_pos(w * inv_w(d), v);
        }
    }
}

/// Sum of all attributed shares over the first `n` stations.
pub open spec fn sum_shares_upto(
    ds: Seq<Option<int>>,
    t: int,
    w: int,
    method: Method,
    n: nat,
) -> int
    decreases n,
{
    if n == 0 {
        0
    } else {
        sum_shares_upto(ds, t, w, method, (n - 1) as nat) + share_spec(ds, t, w, method, n - 1)
    }
}

proof fn lemma_sum_shares_split(ds: Seq<Option<int>>, t: int, w: int, n: nat)
    requires
        n <= ds.len(),
    ensures
        sum_shares_upto(ds, t, w, Method::Relative, n) == base_sum_upto(
            ds,
            t,
            w,
            inv_sum_upto(ds, t, ds.len()),
            n,
        ) + if 0 <= first_cov(ds, t, ds.len()) < n {
            w - base_sum_upto(ds, t, w, inv_sum_upto(ds, t, ds.len()), ds.len())
        } else {
            0
        },
    decreases n,
{
    if n > 0 {
        lemma_sum_shares_split(ds, t, w, (n - 1) as nat);
    }
}

proof fn lemma_sum_shares_absolute(ds: Seq<Option<int>>, t: int, w: int, n: nat)
    requires
        n <= ds.len(),
    ensures
        sum_shares_upto(ds, t, w, Method::Absolute, n) == if 0 <= win_upto(ds, t, ds.len()) < n {
            w
        } else {
            0
        },
    decreases n,
{
    if n > 0 {
        lemma_sum_shares_absolute(ds, t, w, (n - 1) as nat);
        lemma_win_props(ds, t, ds.len() as nat);
    }
}

/// No weight inflation, and no loss either: across all stations the shares
/// of a covered centroid sum to exactly its weight, and to zero when nothing
/// covers it.
pub proof fn lemma_no_weight_inflation(ds: Seq<Option<int>>, t: int, w: int, method: Method)
    requires
        dists_ok(ds),
        0 <= t <= MAX_THRESHOLD_M,
        0 <= w <= MAX_WEIGHT,
    ensures
        sum_shares_upto(ds, t, w, method, ds.len() as nat) == if any_cov(ds, t, ds.len() as nat) {
            w
        } else {
            0
        },
        sum_shares_upto(ds, t, w, method, ds.len() as nat) <= w,
{
    let n = ds.len() as nat;
    match method {
        Method::Relative => {
            lemma_sum_shares_split(ds, t, w, n);
            lemma_first_cov_props(ds, t, n);
            let v = inv_sum_upto(ds, t, n);
            let fc = first_cov(ds, t, n);
            if any_cov(ds, t, n) {
                lemma_inv_sum_bounds(ds, t, n);
                lemma_base_sum_le(ds, t, w, v, n);
                assert(0 <= fc < n);
                assert(sum_shares_upto(ds, t, w, method, n) == base_sum_upto(ds, t, w, v, n) + (w
                    - base_sum_upto(ds, t, w, v, n)));
            } else {
                lemma_no_cov_base_sum_zero(ds, t, w, v, n);
                assert(fc == -1);
            }
        },
        Method::Absolute => {
            lemma_sum_shares_absolute(ds, t, w, n);
            lemma_win_props(ds, t, n);
        },
    }
}

proof fn lemma_no_cov_base_sum_zero(ds: Seq<Option<int>>, t: int, w: int, v: int, n: nat)
    requires
        n <= ds.len(),
        !any_cov(ds, t, n),
    ensures
        base_sum_upto(ds, t, w, v, n) == 0,
    decreases n,
{
    if n > 0 {
        assert(!is_cov(ds[n - 1], t));
        lemma_no_cov_base_sum_zero(ds, t, w, v, (n - 1) as nat);
    }
}

/// View of exec distances as mathematical optional distances.
pub open spec fn ov(ds: Seq<Option<u64>>) -> Seq<Option<int>> {
    ds.map(
        |i: int, d: Option<u64>|
            match d {
                Some(v) => Some(v as int),
                None => None,
            },
    )
}

/// Reachability distances from each station to one centroid position.
pub open spec fn dists_of(
    stations: Seq<Station>,
    routing: Routing,
    net: StreetNetwork,
    c: GeoPoint,
) -> Seq<Option<int>> {
    Seq::new(stations.len(), |i: int| reach_dist_spec(routing, net, stations[i].point, c))
}

/// Reachability distances from every station to the centroid position `c`.
pub(crate) fn distances_for_centroid(
    stations: &Vec<Station>,
    net: &StreetNetwork,
    routing: Routing,
    c: &GeoPoint,
) -> (r: Vec<Option<u64>>)
    requires
        net.wf(),
        c.valid(),
        forall|i: int| 0 <= i < stations@.len() ==> (#[trigger] stations@[i]).wf(),
    ensures
        r@.len() == stations@.len(),
        ov(r@) =~= dists_of(stations@, routing, *net, *c),
{
    let mut r: Vec<Option<u64>> = Vec::new();
    let mut i: usize = 0;
    while i < stations.len()
        invariant
            net.wf(),
            c.valid(),
            forall|k: int| 0 <= k < stations@.len() ==> (#[trigger] stations@[k]).wf(),
            i <= stations@.len(),
            r@.len() == i,
            forall|k: int|
                0 <= k < i ==> opt_eq(
                    #[trigger] r@[k],
                    reach_dist_spec(routing, *net, stations@[k].point, *c),
                ),
        decreases stations@.len() - i,
    {
        let d = reach_distance(routing, net, &stations[i].point, c);
        r.push(d);
        i = i + 1;
    }
    r
}

/// Nearest covering station index for one centroid, earliest on ties.
pub(crate) fn winner_for_centroid(dists: &Vec<Option<u64>>, threshold: u64) -> (r: Option<usize>)
    ensures
        match r {
            None => win_upto(ov(dists@), threshold as int, dists@.len() as nat) == -1,
            Some(w) => w as int == win_upto(ov(dists@), threshold as int, dists@.len() as nat)
                && w < dists@.len(),
        },
{
    let ghost ds = ov(dists@);
    let ghost t = threshold as int;
    let mut best: Option<usize> = None;
    let mut i: usize = 0;
    while i < dists.len()
        invariant
            ds == ov(dists@),
            t == threshold as int,
            i <= dists@.len(),
            match best {
                None => win_upto(ds, t, i as nat) == -1,
                Some(w) => w as int == win_upto(ds, t, i as nat) && w < i,
            },
        decreases dists@.len() - i,
    {
        if let Some(d) = dists[i] {
            if d <= threshold {
                match best {
                    None => {
                        best = Some(i);
                    },
                    Some(w) => {
                        let bd = match dists[w] {
                            Some(x) => x,
                            None => 0,
                        };
                        proof {
                            lemma_win_props(ds, t, i as nat);
                        }
                        if d < bd {
                            best = Some(i);
                        }
                    },
                }
            }
        }
        i = i + 1;
    }
    best
}

/// Weight shares for one centroid across all stations: exact apportionment,
/// summing to the centroid's weight whenever any station covers it.
pub(crate) fn shares_for_centroid(
    dists: &Vec<Option<u64>>,
    threshold: u64,
    weight: u64,
    method: Method,
) -> (r: Vec<u64>)
    requires
        threshold <= MAX_THRESHOLD_M,
        weight <= MAX_WEIGHT,
        dists@.len() <= MAX_STATIONS,
    ensures
        r@.len() == dists@.len(),
        forall|i: int|
            0 <= i < r@.len() ==> #[trigger] r@[i] as int == share_spec(
                ov(dists@),
                threshold as int,
                weight as int,
                method,
                i,
            ),
        forall|i: int| 0 <= i < r@.len() ==> #[trigger] r@[i] <= weight,
{
    let ghost ds = ov(dists@);
    let ghost t = threshold as int;
    let ghost w_int = weight as int;
    let n = dists.len();
    proof {
        assert(dists_ok(ds));
    }
    match method {
        Method::Absolute => {
            let winner = winner_for_centroid(dists, threshold);
            let mut r: Vec<u64> = Vec::new();
            let mut i: usize = 0;
            while i < n
                invariant
                    n == dists@.len(),
                    ds == ov(dists@),
                    t == threshold as int,
                    w_int == weight as int,
                    i <= n,
                    r@.len() == i,
                    match winner {
                        None => win_upto(ds, t, n as nat) == -1,
                        Some(w) => w as int == win_upto(ds, t, n as nat),
                    },
                    forall|k: int|
                        0 <= k < i ==> #[trigger] r@[k] as int == share_spec(
                            ds,
                            t,
                            w_int,
                            Method::Absolute,
                            k,
                        ) && r@[k] <= weight,
                decreases n - i,
            {
                let is_winner = match winner {
                    Some(w) => w == i,
                    None => false,
                };
                if is_winner {
                    r.push(weight);
                } else {
                    r.push(0);
                }
                i = i + 1;
            }
            r
        },
        Method::Relative => {
            // First pass: total inverse weight and the first covering index.
            let mut vsum: u64 = 0;
            let mut fc: Option<usize> = None;
            let mut i: usize = 0;
            while i < n
                invariant
                    n == dists@.len() <= MAX_STATIONS,
                    ds == ov(dists@),
                    t == threshold as int,
                    threshold <= MAX_THRESHOLD_M,
                    dists_ok(ds),
                    i <= n,
                    vsum as int == inv_sum_upto(ds, t, i as nat),
                    vsum as int <= (i as int) * (INV_SCALE as int),
                    match fc {
                        None => first_cov(ds, t, i as nat) == -1,
                        Some(f) => f as int == first_cov(ds, t, i as nat),
                    },
                decreases n - i,
            {
                if let Some(d) = dists[i] {
                    if d <= threshold {
                        proof {
                            lemma_inv_w_bounds(d as int, t);
                        }
                        let iw = INV_SCALE / (d + 1);
                        vsum = vsum + iw;
                        if fc.is_none() {
                            fc = Some(i);
                        }
                    }
                }
                i = i + 1;
            }
            let fcv = match fc {
                Some(f) => f,
                None => {
                    // Nothing covers the centroid: every share is zero.
                    let mut r: Vec<u64> = Vec::new();
                    let mut k: usize = 0;
                    proof {
                        lemma_first_cov_props(ds, t, n as nat);
                        lemma_no_cov_base_sum_zero(ds, t, w_int, inv_sum_upto(ds, t, n as nat), n as nat);
                    }
                    while k < n
                        invariant
                            n == dists@.len(),
                            ds == ov(dists@),
                            t == threshold as int,
                            w_int == weight as int,
                            k <= n,
                            r@.len() == k,
                            !any_cov(ds, t, n as nat),
                            first_cov(ds, t, n as nat) == -1,
                            forall|x: int|
                                0 <= x < k ==> #[trigger] r@[x] as int == share_spec(
                                    ds,
                                    t,
                                    w_int,
                                    Method::Relative,
                                    x,
                                ) && r@[x] <= weight,
                        decreases n - k,
                    {
                        proof {
                            if is_cov(ds[k as int], t) {
                                assert(any_cov(ds, t, n as nat));
                            }
                            assert(!is_cov(ds[k as int], t));
                            assert(share_spec(ds, t, w_int, Method::Relative, k as int) == 0);
                        }
                        r.push(0);
                        k = k + 1;
                    }
                    return r;
                },
            };
            proof {
                lemma_first_cov_props(ds, t, n as nat);
                lemma_inv_sum_bounds(ds, t, n as nat);
                assert(any_cov(ds, t, n as nat));
            }
            // Second pass: rounded-down shares, then the remainder to the
            // earliest covering station.
            let ghost v = inv_sum_upto(ds, t, n as nat);
            let mut r: Vec<u64> = Vec::new();
            let mut bsum: u64 = 0;
            let mut k: usize = 0;
            while k < n
                invariant
                    n == dists@.len() <= MAX_STATIONS,
                    ds == ov(dists@),
                    t == threshold as int,
                    threshold <= MAX_THRESHOLD_M,
                    w_int == weight as int,
                    weight <= MAX_WEIGHT,
                    dists_ok(ds),
                    vsum as int == v,
                    v == inv_sum_upto(ds, t, n as nat),
                    v >= 1,
                    k <= n,
                    r@.len() == k,
                    bsum as int == base_sum_upto(ds, t, w_int, v, k as nat),
                    bsum as int <= (k as int) * (MAX_WEIGHT as int),
                    forall|x: int|
                        0 <= x < k ==> #[trigger] r@[x] as int == base_share(ds, t, w_int, v, x)
                            && r@[x] <= weight,
                decreases n - k,
            {
                let mut share: u64 = 0;
                if let Some(d) = dists[k] {
                    if d <= threshold {
                        proof {
                            lemma_inv_w_bounds(d as int, t);
                            lemma_inv_term_le_sum(ds, t, k as int, n as nat);
                            assert((weight as int) * (INV_SCALE as int / (d as int + 1)) <= (
                            MAX_WEIGHT as int) * (INV_SCALE as int)) by (nonlinear_arith)
                                requires
                                    weight <= MAX_WEIGHT,
                                    0 <= INV_SCALE as int / (d as int + 1) <= INV_SCALE as int,
                            ;
                            lemma_div_pos_is_pos(w_int * inv_w(d as int), v);
                            lemma_mul_inequality(inv_w(d as int), v, w_int);
                            assert(w_int * inv_w(d as int) == inv_w(d as int) * w_int)
                                by (nonlinear_arith);
                            assert(w_int * v == v * w_int) by (nonlinear_arith);
                            lemma_div_is_ordered(w_int * inv_w(d as int), w_int * v, v);
                            lemma_div_multiples_vanish(w_int, v);
                        }
                        let iw = INV_SCALE / (d + 1);
                        share = (weight * iw) / vsum;
                        proof {
                            assert(share as int == base_share(ds, t, w_int, v, k as int));
                            assert(share <= weight);
                        }
                    }
                }
                r.push(share);
                proof {
                    assert(share <= MAX_WEIGHT);
                    assert(bsum as int + share as int <= (k as int) * (MAX_WEIGHT as int) + (
                    MAX_WEIGHT as int));
                }
                bsum = bsum + share;
                k = k + 1;
            }
            proof {
                lemma_base_sum_le(ds, t, w_int, v, n as nat);
                assert(w_int * v == v * w_int) by (nonlinear_arith);
                lemma_div_multiples_vanish(w_int, v);
                lemma_mul_inequality(inv_sum_upto(ds, t, n as nat), v, w_int);
                assert(bsum <= weight);
            }
            let rem = weight - bsum;
            // The earliest covering station's floor share is part of the sum.
            proof {
                lemma_base_term_le_sum(ds, t, w_int, v, fcv as int, n as nat);
            }
            let boosted = r[fcv] + rem;
            r.set(fcv, boosted);
            proof {
                assert(forall|x: int|
                    0 <= x < n && x != fcv as int ==> #[trigger] r@[x] as int == share_spec(
                        ds,
                        t,
                        w_int,
                        Method::Relative,
                        x,
                    ));
                assert(r@[fcv as int] as int == share_spec(ds, t, w_int, Method::Relative, fcv as int));
                assert(forall|x: int| 0 <= x < n ==> #[trigger] r@[x] <= weight);
            }
            r
        },
    }
}

/// Whether station `i` carries an entry for a centroid with distances `ds`:
/// relative apportionment lists every covering station, the nearest-only
/// method lists the winner alone.
pub open spec fn present(ds: Seq<Option<int>>, t: int, method: Method, i: int) -> bool {
    match method {
        Method::Relative => is_cov(ds[i], t),
        Method::Absolute => i == win_upto(ds, t, ds.len()),
    }
}

/// The covered list of station `i` over the first `n` centroids, in centroid
/// order: the centroid, the achieved distance, and the attributed weight.
pub open spec fn covered_list_upto(
    stations: Seq<Station>,
    centroids: Seq<Centroid>,
    method: Method,
    routing: Routing,
    net: StreetNetwork,
    t: int,
    i: int,
    n: nat,
) -> Seq<CoveredCentroid>
    decreases n,
{
    if n == 0 {
        Seq::empty()
    } else {
        let prev = covered_list_upto(stations, centroids, method, routing, net, t, i, (n - 1) as nat);
        let c = centroids[n - 1];
        let ds = dists_of(stations, routing, net, c.point);
        if present(ds, t, method, i) {
            prev.push(
                CoveredCentroid {
                    centroid: c,
                    distance_m: dval(ds[i]) as u64,
                    weight: share_spec(ds, t, c.weight as int, method, i) as u64,
                },
            )
        } else {
            prev
        }
    }
}

/// The full statement of a coverage computation: entries in station order,
/// each carrying that station's covered list in centroid order.
pub open spec fn coverage_matches(
    cm: CoverageMap,
    stations: Seq<Station>,
    centroids: Seq<Centroid>,
    method: Method,
    routing: Routing,
    net: StreetNetwork,
    t: int,
) -> bool {
    &&& cm.entries@.len() == stations.len()
    &&& (forall|i: int|
        0 <= i < stations.len() ==> (#[trigger] cm.entries@[i]).station_id@ == stations[i].id@)
    &&& (forall|i: int|
        0 <= i < stations.len() ==> (#[trigger] cm.entries@[i]).covered@ == covered_list_upto(
            stations,
            centroids,
            method,
            routing,
            net,
            t,
            i,
            centroids.len() as nat,
        ))
}

/// Per-station coverage of the centroids of one composite layer, with an
/// explicit catchment threshold in meters.
pub fn houses_for_stations_with(
    stations: &Vec<Station>,
    centroids: &Vec<Centroid>,
    method: Method,
    routing: Routing,
    streets: &StreetNetwork,
    threshold: u64,
) -> (r: CoverageMap)
    requires
        streets.wf(),
        threshold <= MAX_THRESHOLD_M,
        stations@.len() <= MAX_STATIONS,
        forall|i: int| 0 <= i < stations@.len() ==> (#[trigger] stations@[i]).wf(),
        forall|j: int| 0 <= j < centroids@.len() ==> (#[trigger] centroids@[j]).wf(),
    ensures
        coverage_matches(r, stations@, centroids@, method, routing, *streets, threshold as int),
{
    let ghost t = threshold as int;
    let mut entries: Vec<StationCoverage> = Vec::new();
    let mut i: usize = 0;
    while i < stations.len()
        invariant
            streets.wf(),
            threshold <= MAX_THRESHOLD_M,
            stations@.len() <= MAX_STATIONS,
            t == threshold as int,
            forall|k: int| 0 <= k < stations@.len() ==> (#[trigger] stations@[k]).wf(),
            forall|j: int| 0 <= j < centroids@.len() ==> (#[trigger] centroids@[j]).wf(),
            i <= stations@.len(),
            entries@.len() == i,
            forall|k: int|
                0 <= k < i ==> (#[trigger] entries@[k]).station_id@ == stations@[k].id@,
            forall|k: int|
                0 <= k < i ==> (#[trigger] entries@[k]).covered@ == covered_list_upto(
                    stations@,
                    centroids@,
                    method,
                    routing,
                    *streets,
                    t,
                    k,
                    centroids@.len() as nat,
                ),
        decreases stations@.len() - i,
    {
        let mut covered: Vec<CoveredCentroid> = Vec::new();
        let mut j: usize = 0;
        while j < centroids.len()
            invariant
                streets.wf(),
                threshold <= MAX_THRESHOLD_M,
                stations@.len() <= MAX_STATIONS,
                t == threshold as int,
                forall|k: int| 0 <= k < stations@.len() ==> (#[trigger] stations@[k]).wf(),
                forall|k: int| 0 <= k < centroids@.len() ==> (#[trigger] centroids@[k]).wf(),
                i < stations@.len(),
                j <= centroids@.len(),
                covered@ == covered_list_upto(
                    stations@,
                    centroids@,
                    method,
                    routing,
                    *streets,
                    t,
                    i as int,
                    j as nat,
                ),
            decreases centroids@.len() - j,
        {
            let c = centroids[j];
            let dists = distances_for_centroid(stations, streets, routing, &c.point);
            let ghost ds = dists_of(stations@, routing, *streets, c.point);
            proof {
                assert(ov(dists@) =~= ds);
            }
            let here = match method {
                Method::Relative => {
                    match dists[i] {
                        Some(d) => d <= threshold,
                        None => false,
                    }
                },
                Method::Absolute => {
                    let w = winner_for_centroid(&dists, threshold);
                    match w {
                        Some(wi) => wi == i,
                        None => false,
                    }
                },
            };
            if here {
                let shares = shares_for_centroid(&dists, threshold, c.weight, method);
                let d_i = match dists[i] {
                    Some(d) => d,
                    None => 0,
                };
                covered.push(
                    CoveredCentroid { centroid: c, distance_m: d_i, weight: shares[i] },
                );
                proof {
                    assert(present(ds, t, method, i as int));
                    assert(is_cov(ds[i as int], t)) by {
                        if method is Absolute {
                            lemma_win_props(ds, t, ds.len() as nat);
                        }
                    }
                    assert(d_i as int == dval(ds[i as int]));
                }
            } else {
                proof {
                    assert(!present(ds, t, method, i as int));
                }
            }
            j = j + 1;
        }
        let sc = StationCoverage { station_id: stations[i].id.clone(), covered };
        entries.push(sc);
        i = i + 1;
    }
    CoverageMap { entries }
}

/// Per-station coverage at the default catchment threshold.
pub fn houses_for_stations(
    stations: &Vec<Station>,
    centroids: &Vec<Centroid>,
    method: Method,
    routing: Routing,
    streets: &StreetNetwork,
) -> (r: CoverageMap)
    requires
        streets.wf(),
        stations@.len() <= MAX_STATIONS,
        forall|i: int| 0 <= i < stations@.len() ==> (#[trigger] stations@[i]).wf(),
        forall|j: int| 0 <= j < centroids@.len() ==> (#[trigger] centroids@[j]).wf(),
    ensures
        coverage_matches(
            r,
            stations@,
            centroids@,
            method,
            routing,
            *streets,
            DEFAULT_CATCHMENT_M as int,
        ),
{
    houses_for_stations_with(stations, centroids, method, routing, streets, DEFAULT_CATCHMENT_M)
}

/// A station's covered list depends on the stations only through their
/// positions: sequences that agree pointwise on position give the same list.
pub proof fn lemma_covered_list_same_points(
    st1: Seq<Station>,
    st2: Seq<Station>,
    centroids: Seq<Centroid>,
    method: Method,
    routing: Routing,
    net: StreetNetwork,
    t: int,
    i: int,
    n: nat,
)
    requires
        st1.len() == st2.len(),
        forall|k: int| 0 <= k < st1.len() ==> (#[trigger] st1[k]).point == st2[k].point,
        n <= centroids.len(),
    ensures
        covered_list_upto(st1, centroids, method, routing, net, t, i, n) == covered_list_upto(
            st2,
            centroids,
            method,
            routing,
            net,
            t,
            i,
            n,
        ),
    decreases n,
{
    if n > 0 {
        lemma_covered_list_same_points(st1, st2, centroids, method, routing, net, t, i, (n - 1) as nat);
        let c = centroids[n - 1];
        assert(dists_of(st1, routing, net, c.point) =~= dists_of(st2, routing, net, c.point));
    }
}

/// Coverage is a function of its inputs alone: two results both matching the
/// same inputs agree entry by entry.
pub proof fn lemma_coverage_deterministic(
    cm1: CoverageMap,
    cm2: CoverageMap,
    stations: Seq<Station>,
    centroids: Seq<Centroid>,
    method: Method,
    routing: Routing,
    net: StreetNetwork,
    t: int,
)
    requires
        coverage_matches(cm1, stations, centroids, method, routing, net, t),
        coverage_matches(cm2, stations, centroids, method, routing, net, t),
    ensures
        cm1.entries@.len() == cm2.entries@.len(),
        forall|i: int|
            0 <= i < cm1.entries@.len() ==> (#[trigger] cm1.entries@[i]).station_id@
                == cm2.entries@[i].station_id@ && cm1.entries@[i].covered@
                == cm2.entries@[i].covered@,
{
}

/// One rounded-down share never exceeds the sum of them all.
proof fn lemma_base_term_le_sum(ds: Seq<Option<int>>, t: int, w: int, v: int, j: int, n: nat)
    requires
        n <= ds.len(),
        dists_ok(ds),
        0 <= t <= MAX_THRESHOLD_M,
        w >= 0,
        v > 0,
        0 <= j < n,
    ensures
        base_share(ds, t, w, v, j) <= base_sum_upto(ds, t, w, v, n),
        base_share(ds, t, w, v, j) >= 0,
    decreases n,
{
    if is_cov(ds[j], t) {
        lemma_div_pos_is_pos(w * inv_w(dval(ds[j])), v);
        lemma_inv_w_bounds(dval(ds[j]), t);
        assert(w * inv_w(dval(ds[j])) >= 0) by (nonlinear_arith)
            requires
                w >= 0,
                inv_w(dval(ds[j])) >= 0,
        ;
    } else {
        lemma_div_pos_is_pos(0, v);
    }
    if j < n - 1 {
        lemma_base_term_le_sum(ds, t, w, v, j, (n - 1) as nat);
        if is_cov(ds[n - 1], t) {
            lemma_div_pos_is_pos(w * inv_w(dval(ds[n - 1])), v);
            lemma_inv_w_bounds(dval(ds[n - 1]), t);
            assert(w * inv_w(dval(ds[n - 1])) >= 0) by (nonlinear_arith)
                requires
                    w >= 0,
                    inv_w(dval(ds[n - 1])) >= 0,
            ;
        }
    } else {
        lemma_base_sum_le(ds, t, w, v, (n - 1) as nat);
    }
}

} // verus!
