use vstd::prelude::*;
use vstd::string::StringExecFns;
use crate::geometry::{GeoPoint, dist_floor, dist_direct_m, LAT_LIMIT_UDEG, LNG_LIMIT_UDEG};
use crate::streets::{StreetNetwork, opt_eq};
use crate::coverage::{
    Method, Routing, Centroid, Station, CoverageMap, reach_dist_spec, reach_distance,
    share_spec, dists_of, ov, coverage_matches, houses_for_stations_with, distances_for_centroid,
    shares_for_centroid, MAX_STATIONS, MAX_WEIGHT, DEFAULT_CATCHMENT_M,
};
use crate::layers::MAX_CENTROIDS;
use crate::error::OLPError;

verus! {

/// Spacing of the sampled candidate positions along the route, in meters.
pub const SAMPLE_STEP_M: u64 = 25;

/// Largest number of route vertices a request may carry.
pub const MAX_ROUTE_POINTS: usize = 10_000;

/// Outcome of the placement search: the best sampled position with its score
/// and the coverage it would achieve, or an explicit infeasibility marker.
#[derive(Debug)]
pub enum OptimalStationResult {
    Found { location: GeoPoint, score: u64, coverage: CoverageMap },
    Infeasible { reason: String },
}

/// A coordinate pulled back into its WGS-84 domain.
pub open spec fn clamp_to(x: int, lim: int) -> int {
    if x < -lim {
        -lim
    } else if x > lim {
        lim
    } else {
        x
    }
}

pub open spec fn lerp_coord(a: int, b: int, num: int, den: int, lim: int) -> int {
    let d = b - a;
    let moved = if d >= 0 {
        a + d * num / den
    } else {
        a - (-d) * num / den
    };
    clamp_to(moved, lim)
}

/// The point a fraction `num / den` of the way from `a` to `b`, coordinate
/// by coordinate, clamped into the coordinate domain.
pub open spec fn lerp(a: GeoPoint, b: GeoPoint, num: int, den: int) -> GeoPoint {
    GeoPoint {
        lat_udeg: lerp_coord(a.lat_udeg as int, b.lat_udeg as int, num, den, LAT_LIMIT_UDEG as int) as i64,
        lng_udeg: lerp_coord(a.lng_udeg as int, b.lng_udeg as int, num, den, LNG_LIMIT_UDEG as int) as i64,
    }
}

fn lerp_coord_exec(a: i64, b: i64, num: u64, den: u64, lim: i64) -> (r: i64)
    requires
        -400_000_000 <= a <= 400_000_000,
        -400_000_000 <= b <= 400_000_000,
        num <= den,
        0 < den <= 100_000_000,
        0 < lim <= 400_000_000,
    ensures
        r as int == lerp_coord(a as int, b as int, num as int, den as int, lim as int),
        -lim <= r <= lim,
{
    let moved: i64 = if b >= a {
        let d = (b - a) as u64;
        proof {
            assert(d * num <= 800_000_000u64 * 100_000_000u64) by (nonlinear_arith)
                requires
                    d <= 800_000_000u64,
                    num <= 100_000_000u64,
            ;
            vstd::arithmetic::div_mod::lemma_div_pos_is_pos((d * num) as int, den as int);
            vstd::arithmetic::div_mod::lemma_div_is_ordered(
                (d * num) as int,
                (800_000_000u64 * 100_000_000u64) as int,
                den as int,
            );
        }
        a + ((d * num / den) as i64)
    } else {
        let d = (a - b) as u64;
        proof {
            assert(d * num <= 800_000_000u64 * 100_000_000u64) by (nonlinear_arith)
                requires
                    d <= 800_000_000u64,
                    num <= 100_000_000u64,
            ;
            vstd::arithmetic::div_mod::lemma_div_pos_is_pos((d * num) as int, den as int);
            vstd::arithmetic::div_mod::lemma_div_is_ordered(
                (d * num) as int,
                (800_000_000u64 * 100_000_000u64) as int,
                den as int,
            );
        }
        a - ((d * num / den) as i64)
    };
    if moved < -lim {
        -lim
    } else if moved > lim {
        lim
    } else {
        moved
    }
}

/// Sampled point a fraction `num / den` along the segment from `a` to `b`.
fn lerp_point(a: &GeoPoint, b: &GeoPoint, num: u64, den: u64) -> (r: GeoPoint)
    requires
        a.valid(),
        b.valid(),
        num <= den,
        0 < den <= 100_000_000,
    ensures
        r == lerp(*a, *b, num as int, den as int),
        r.valid(),
{
    GeoPoint {
        lat_udeg: lerp_coord_exec(a.lat_udeg, b.lat_udeg, num, den, LAT_LIMIT_UDEG),
        lng_udeg: lerp_coord_exec(a.lng_udeg, b.lng_udeg, num, den, LNG_LIMIT_UDEG),
    }
}

/// Number of interior samples on a segment of rounded length `l`.
pub open spec fn interior_count(l: int) -> nat {
    let m = l / (SAMPLE_STEP_M as int);
    if m >= 1 {
        (m - 1) as nat
    } else {
        0
    }
}

/// Interior sample points of the segment from `a` to `b`, in route order.
pub open spec fn seg_interior(a: GeoPoint, b: GeoPoint) -> Seq<GeoPoint> {
    Seq::new(
        interior_count(dist_floor(a, b)),
        |k: int| lerp(a, b, (k + 1) * (SAMPLE_STEP_M as int), dist_floor(a, b)),
    )
}

/// Candidate positions over the first `n` route vertices: every vertex, and
/// fixed-step samples inside every segment, in order along the route.
pub open spec fn cands_upto(route: Seq<GeoPoint>, n: nat) -> Seq<GeoPoint>
    decreases n,
{
    if n == 0 {
        Seq::empty()
    } else if n == 1 {
        seq![route[0]]
    } else {
        cands_upto(route, (n - 1) as nat) + seg_interior(route[n - 2], route[n - 1]) + seq![
            route[n - 1],
        ]
    }
}

/// Total rounded length of the first `n` route vertices' polyline.
pub open spec fn route_len_upto(route: Seq<GeoPoint>, n: nat) -> int
    decreases n,
{
    if n <= 1 {
        0
    } else {
        route_len_upto(route, (n - 1) as nat) + dist_floor(route[n - 2], route[n - 1])
    }
}

/// A route the engine accepts: at least two vertices, all inside the domain.
pub open spec fn route_ok(route: Seq<GeoPoint>) -> bool {
    route.len() >= 2 && (forall|i: int| 0 <= i < route.len() ==> (#[trigger] route[i]).valid())
}

/// A candidate position keeps the required separation from every existing
/// station; an unreachable pair keeps any separation.
pub open spec fn feasible_spec(
    stations: Seq<Station>,
    routing: Routing,
    net: StreetNetwork,
    sep: int,
    p: GeoPoint,
) -> bool {
    forall|i: int|
        0 <= i < stations.len() ==> match reach_dist_spec(
            routing,
            net,
            p,
            (#[trigger] stations[i]).point,
        ) {
            None => true,
            Some(d) => d >= sep,
        }
}

/// Distances of every station, and then of a hypothetical station at `p`, to
/// the centroid position `c`.
pub open spec fn ds_with(
    stations: Seq<Station>,
    routing: Routing,
    net: StreetNetwork,
    p: GeoPoint,
    c: GeoPoint,
) -> Seq<Option<int>> {
    dists_of(stations, routing, net, c).push(reach_dist_spec(routing, net, p, c))
}

/// Weight the hypothetical station at `p` would newly attract from the first
/// `n` centroids, beside the existing stations.
pub open spec fn score_upto(
    stations: Seq<Station>,
    centroids: Seq<Centroid>,
    method: Method,
    routing: Routing,
    net: StreetNetwork,
    t: int,
    p: GeoPoint,
    n: nat,
) -> int
    decreases n,
{
    if n == 0 {
        0
    } else {
        score_upto(stations, centroids, method, routing, net, t, p, (n - 1) as nat) + share_spec(
            ds_with(stations, routing, net, p, centroids[n - 1].point),
            t,
            centroids[n - 1].weight as int,
            method,
            stations.len() as int,
        )
    }
}

/// The full candidate list and score of a route.
pub open spec fn cands_of(route: Seq<GeoPoint>) -> Seq<GeoPoint> {
    cands_upto(route, route.len() as nat)
}

pub open spec fn score_of(
    stations: Seq<Station>,
    centroids: Seq<Centroid>,
    method: Method,
    routing: Routing,
    net: StreetNetwork,
    p: GeoPoint,
) -> int {
    score_upto(
        stations,
        centroids,
        method,
        routing,
        net,
        DEFAULT_CATCHMENT_M as int,
        p,
        centroids.len() as nat,
    )
}

/// The existing stations with a hypothetical candidate at `p` appended.
fn extended_stations(stations: &Vec<Station>, p: GeoPoint) -> (r: Vec<Station>)
    requires
        p.valid(),
        forall|i: int| 0 <= i < stations@.len() ==> (#[trigger] stations@[i]).wf(),
    ensures
        r@.len() == stations@.len() + 1,
        forall|i: int|
            0 <= i < stations@.len() ==> (#[trigger] r@[i]).id@ == stations@[i].id@ && r@[i].point
                == stations@[i].point,
        r@[stations@.len() as int].point == p,
        r@[stations@.len() as int].id@ == "candidate"@,
        forall|i: int| 0 <= i < r@.len() ==> (#[trigger] r@[i]).wf(),
{
    let mut r: Vec<Station> = Vec::new();
    let mut i: usize = 0;
    while i < stations.len()
        invariant
            p.valid(),
            forall|k: int| 0 <= k < stations@.len() ==> (#[trigger] stations@[k]).wf(),
            i <= stations@.len(),
            r@.len() == i,
            forall|k: int|
                0 <= k < i ==> (#[trigger] r@[k]).id@ == stations@[k].id@ && r@[k].point
                    == stations@[k].point && r@[k].wf(),
        decreases stations@.len() - i,
    {
        let s = Station {
            id: stations[i].id.clone(),
            point: stations[i].point,
            name: None,
        };
        r.push(s);
        i = i + 1;
    }
    r.push(Station { id: String::from_str("candidate"), point: p, name: None });
    r
}

/// Whether a candidate keeps the separation distance to every station.
fn is_feasible(
    stations: &Vec<Station>,
    routing: Routing,
    streets: &StreetNetwork,
    separation_m: u64,
    p: &GeoPoint,
) -> (r: bool)
    requires
        streets.wf(),
        p.valid(),
        forall|i: int| 0 <= i < stations@.len() ==> (#[trigger] stations@[i]).wf(),
    ensures
        r == feasible_spec(stations@, routing, *streets, separation_m as int, *p),
{
    let mut i: usize = 0;
    while i < stations.len()
        invariant
            streets.wf(),
            p.valid(),
            forall|k: int| 0 <= k < stations@.len() ==> (#[trigger] stations@[k]).wf(),
            i <= stations@.len(),
            forall|k: int|
                0 <= k < i ==> match reach_dist_spec(
                    routing,
                    *streets,
                    *p,
                    (#[trigger] stations@[k]).point,
                ) {
                    None => true,
                    Some(d) => d >= separation_m,
                },
        decreases stations@.len() - i,
    {
        match reach_distance(routing, streets, p, &stations[i].point) {
            Some(d) => {
                if d < separation_m {
                    return false;
                }
            },
            None => {},
        }
        i = i + 1;
    }
    true
}

/// Weight a hypothetical station at `p` would newly attract, beside the
/// existing stations, at the default catchment threshold.
fn candidate_score(
    stations: &Vec<Station>,
    centroids: &Vec<Centroid>,
    method: Method,
    routing: Routing,
    streets: &StreetNetwork,
    p: &GeoPoint,
) -> (r: u64)
    requires
        streets.wf(),
        p.valid(),
        stations@.len() < MAX_STATIONS,
        centroids@.len() <= MAX_CENTROIDS,
        forall|i: int| 0 <= i < stations@.len() ==> (#[trigger] stations@[i]).wf(),
        forall|j: int| 0 <= j < centroids@.len() ==> (#[trigger] centroids@[j]).wf(),
    ensures
        r == score_of(stations@, centroids@, method, routing, *streets, *p),
{
    let ext = extended_stations(stations, *p);
    let n = stations.len();
    let mut score: u64 = 0;
    let mut j: usize = 0;
    while j < centroids.len()
        invariant
            streets.wf(),
            p.valid(),
            n == stations@.len() < MAX_STATIONS,
            centroids@.len() <= MAX_CENTROIDS,
            forall|k: int| 0 <= k < stations@.len() ==> (#[trigger] stations@[k]).wf(),
            forall|k: int| 0 <= k < centroids@.len() ==> (#[trigger] centroids@[k]).wf(),
            ext@.len() == n + 1,
            forall|k: int|
                0 <= k < n ==> (#[trigger] ext@[k]).id@ == stations@[k].id@ && ext@[k].point
                    == stations@[k].point,
            ext@[n as int].point == *p,
            forall|k: int| 0 <= k < ext@.len() ==> (#[trigger] ext@[k]).wf(),
            j <= centroids@.len(),
            score as int == score_upto(
                stations@,
                centroids@,
                method,
                routing,
                *streets,
                DEFAULT_CATCHMENT_M as int,
                *p,
                j as nat,
            ),
            score as int <= (j as int) * (MAX_WEIGHT as int),
        decreases centroids@.len() - j,
    {
        let c = centroids[j];
        let dists = distances_for_centroid(&ext, streets, routing, &c.point);
        proof {
            assert(ov(dists@) =~= ds_with(stations@, routing, *streets, *p, c.point));
        }
        let shares = shares_for_centroid(&dists, DEFAULT_CATCHMENT_M, c.weight, method);
        let sh = shares[n];
        proof {
            assert(sh as int == share_spec(
                ds_with(stations@, routing, *streets, *p, c.point),
                DEFAULT_CATCHMENT_M as int,
                c.weight as int,
                method,
                n as int,
            ));
        }
        score = score + sh;
        j = j + 1;
    }
    score
}

/// All candidate positions along the route: every vertex and the fixed-step
/// samples inside each segment, in order along the route.
fn build_candidates(route: &Vec<GeoPoint>) -> (r: Vec<GeoPoint>)
    requires
        route@.len() >= 1,
        forall|i: int| 0 <= i < route@.len() ==> (#[trigger] route@[i]).valid(),
    ensures
        r@ == cands_of(route@),
        forall|i: int| 0 <= i < r@.len() ==> (#[trigger] r@[i]).valid(),
{
    let mut r: Vec<GeoPoint> = Vec::new();
    r.push(route[0]);
    proof {
        assert(r@ =~= cands_upto(route@, 1));
    }
    let mut i: usize = 1;
    while i < route.len()
        invariant
            route@.len() >= 1,
            forall|k: int| 0 <= k < route@.len() ==> (#[trigger] route@[k]).valid(),
            1 <= i <= route@.len(),
            r@ == cands_upto(route@, i as nat),
            forall|k: int| 0 <= k < r@.len() ==> (#[trigger] r@[k]).valid(),
        decreases route@.len() - i,
    {
        let a = route[i - 1];
        let b = route[i];
        let l = dist_direct_m(&a, &b);
        let m = l / SAMPLE_STEP_M;
        let mut k: u64 = 1;
        while k < m
            invariant
                a.valid(),
                b.valid(),
                l == dist_floor(a, b),
                l <= 50_000_000,
                m == l / SAMPLE_STEP_M,
                1 <= k,
                m >= 1 ==> k <= m,
                m == 0 ==> k == 1,
                r@ == cands_upto(route@, i as nat) + Seq::new(
                    (k - 1) as nat,
                    |x: int| lerp(a, b, (x + 1) * (SAMPLE_STEP_M as int), l as int),
                ),
                forall|q: int| 0 <= q < r@.len() ==> (#[trigger] r@[q]).valid(),
            decreases m - k,
        {
            proof {
                assert(k * SAMPLE_STEP_M <= l) by (nonlinear_arith)
                    requires
                        k < m,
                        m == l / SAMPLE_STEP_M,
                        SAMPLE_STEP_M == 25u64,
                        l <= 50_000_000u64,
                ;
            }
            let p = lerp_point(&a, &b, k * SAMPLE_STEP_M, l);
            r.push(p);
            proof {
                assert(r@ =~= cands_upto(route@, i as nat) + Seq::new(
                    k as nat,
                    |x: int| lerp(a, b, (x + 1) * (SAMPLE_STEP_M as int), l as int),
                ));
            }
            k = k + 1;
        }
        proof {
            assert(Seq::new(
                (k - 1) as nat,
                |x: int| lerp(a, b, (x + 1) * (SAMPLE_STEP_M as int), l as int),
            ) =~= seg_interior(a, b));
            assert(r@ == cands_upto(route@, i as nat) + seg_interior(a, b));
        }
        r.push(b);
        proof {
            assert(a == route@[i - 1] && b == route@[i as int]);
            assert(cands_upto(route@, (i + 1) as nat) == cands_upto(route@, i as nat)
                + seg_interior(route@[i - 1], route@[i as int]) + seq![route@[i as int]]);
            assert(r@ =~= cands_upto(route@, (i + 1) as nat));
        }
        i = i + 1;
    }
    r
}


/// No candidate of the route keeps the separation, or the route is
/// degenerate: the search must answer with the infeasibility marker.
pub open spec fn infeasible_ok(
    route: Seq<GeoPoint>,
    separation: int,
    stations: Seq<Station>,
    routing: Routing,
    net: StreetNetwork,
) -> bool {
    route_len_upto(route, route.len() as nat) == 0 || (forall|j: int|
        0 <= j < cands_of(route).len() ==> !feasible_spec(
            stations,
            routing,
            net,
            separation,
            #[trigger] cands_of(route)[j],
        ))
}

/// What a returned best candidate promises: a sampled position of the route,
/// separation kept to every station, score exact, no feasible candidate
/// scoring higher, and no earlier candidate scoring as high; the coverage map
/// is the one a station at that position would achieve beside the existing
/// stations.
pub open spec fn found_ok(
    location: GeoPoint,
    score: int,
    coverage: CoverageMap,
    route: Seq<GeoPoint>,
    separation: int,
    stations: Seq<Station>,
    centroids: Seq<Centroid>,
    method: Method,
    routing: Routing,
    net: StreetNetwork,
) -> bool {
    &&& route_len_upto(route, route.len() as nat) > 0
    &&& feasible_spec(stations, routing, net, separation, location)
    &&& score == score_of(stations, centroids, method, routing, net, location)
    &&& exists|ix: int|
        {
            &&& 0 <= ix < cands_of(route).len()
            &&& cands_of(route)[ix] == location
            &&& (forall|j: int|
                0 <= j < cands_of(route).len() && feasible_spec(
                    stations,
                    routing,
                    net,
                    separation,
                    #[trigger] cands_of(route)[j],
                ) ==> score_of(stations, centroids, method, routing, net, cands_of(route)[j])
                    <= score)
            &&& (forall|j: int|
                0 <= j < ix && feasible_spec(
                    stations,
                    routing,
                    net,
                    separation,
                    #[trigger] cands_of(route)[j],
                ) ==> score_of(stations, centroids, method, routing, net, cands_of(route)[j])
                    < score)
        }
    &&& exists|sts: Seq<Station>|
        {
            &&& sts.len() == stations.len() + 1
            &&& (forall|i: int|
                0 <= i < stations.len() ==> (#[trigger] sts[i]).id@ == stations[i].id@
                    && sts[i].point == stations[i].point)
            &&& sts[stations.len() as int].point == location
            &&& sts[stations.len() as int].id@ == "candidate"@
            &&& coverage_matches(
                coverage,
                sts,
                centroids,
                method,
                routing,
                net,
                DEFAULT_CATCHMENT_M as int,
            )
        }
}

/// The placement search is a function of its inputs alone: any two found
/// results that meet the search contract for the same inputs agree on the
/// position and the score, and their coverage maps agree entry by entry.
pub proof fn lemma_search_deterministic(
    l1: GeoPoint,
    s1: int,
    c1: CoverageMap,
    l2: GeoPoint,
    s2: int,
    c2: CoverageMap,
    route: Seq<GeoPoint>,
    separation: int,
    stations: Seq<Station>,
    centroids: Seq<Centroid>,
    method: Method,
    routing: Routing,
    net: StreetNetwork,
)
    requires
        found_ok(l1, s1, c1, route, separation, stations, centroids, method, routing, net),
        found_ok(l2, s2, c2, route, separation, stations, centroids, method, routing, net),
    ensures
        l1 == l2,
        s1 == s2,
        c1.entries@.len() == c2.entries@.len(),
        forall|i: int|
            0 <= i < c1.entries@.len() ==> (#[trigger] c1.entries@[i]).station_id@
                == c2.entries@[i].station_id@ && c1.entries@[i].covered@
                == c2.entries@[i].covered@,
{
    let cs = cands_of(route);
    let ix1 = choose|ix: int|
        {
            &&& 0 <= ix < cs.len()
            &&& cs[ix] == l1
            &&& (forall|j: int|
                0 <= j < cs.len() && feasible_spec(stations, routing, net, separation, #[trigger] cs[j])
                    ==> score_of(stations, centroids, method, routing, net, cs[j]) <= s1)
            &&& (forall|j: int|
                0 <= j < ix && feasible_spec(stations, routing, net, separation, #[trigger] cs[j])
                    ==> score_of(stations, centroids, method, routing, net, cs[j]) < s1)
        };
    let ix2 = choose|ix: int|
        {
            &&& 0 <= ix < cs.len()
            &&& cs[ix] == l2
            &&& (forall|j: int|
                0 <= j < cs.len() && feasible_spec(stations, routing, net, separation, #[trigger] cs[j])
                    ==> score_of(stations, centroids, method, routing, net, cs[j]) <= s2)
            &&& (forall|j: int|
                0 <= j < ix && feasible_spec(stations, routing, net, separation, #[trigger] cs[j])
                    ==> score_of(stations, centroids, method, routing, net, cs[j]) < s2)
        };
    // Both achieve the common maximum, so the scores agree.
    assert(s1 <= s2) by {
        assert(feasible_spec(stations, routing, net, separation, cs[ix1]));
    }
    assert(s2 <= s1) by {
        assert(feasible_spec(stations, routing, net, separation, cs[ix2]));
    }
    // Earliest-wins makes the winning index unique.
    if ix1 < ix2 {
        assert(score_of(stations, centroids, method, routing, net, cs[ix1]) < s2);
    }
    if ix2 < ix1 {
        assert(score_of(stations, centroids, method, routing, net, cs[ix2]) < s1);
    }
    assert(ix1 == ix2);
    // The coverage maps are computed over station sequences that agree on
    // every position and identifier, so they agree entry by entry.
    let sts1 = choose|sts: Seq<Station>|
        {
            &&& sts.len() == stations.len() + 1
            &&& (forall|i: int|
                0 <= i < stations.len() ==> (#[trigger] sts[i]).id@ == stations[i].id@
                    && sts[i].point == stations[i].point)
            &&& sts[stations.len() as int].point == l1
            &&& sts[stations.len() as int].id@ == "candidate"@
            &&& coverage_matches(c1, sts, centroids, method, routing, net, DEFAULT_CATCHMENT_M as int)
        };
    let sts2 = choose|sts: Seq<Station>|
        {
            &&& sts.len() == stations.len() + 1
            &&& (forall|i: int|
                0 <= i < stations.len() ==> (#[trigger] sts[i]).id@ == stations[i].id@
                    && sts[i].point == stations[i].point)
            &&& sts[stations.len() as int].point == l2
            &&& sts[stations.len() as int].id@ == "candidate"@
            &&& coverage_matches(c2, sts, centroids, method, routing, net, DEFAULT_CATCHMENT_M as int)
        };
    assert(forall|k: int| 0 <= k < sts1.len() ==> (#[trigger] sts1[k]).point == sts2[k].point);
    assert forall|i: int|
        0 <= i < c1.entries@.len() implies (#[trigger] c1.entries@[i]).station_id@
        == c2.entries@[i].station_id@ && c1.entries@[i].covered@ == c2.entries@[i].covered@ by {
        crate::coverage::lemma_covered_list_same_points(
            sts1,
            sts2,
            centroids,
            method,
            routing,
            net,
            DEFAULT_CATCHMENT_M as int,
            i,
            centroids.len() as nat,
        );
        if i < stations.len() {
            assert(sts1[i].id@ == sts2[i].id@);
        } else {
            assert(sts1[i].id@ == "candidate"@ && sts2[i].id@ == "candidate"@);
        }
    }
}

/// Scans the candidates in route order and keeps the first one with the
/// highest score among those keeping the separation.
fn search_candidates(
    cands: &Vec<GeoPoint>,
    separation_m: u64,
    centroids: &Vec<Centroid>,
    stations: &Vec<Station>,
    method: Method,
    routing: Routing,
    streets: &StreetNetwork,
) -> (r: Option<(usize, GeoPoint, u64)>)
    requires
        streets.wf(),
        stations@.len() < MAX_STATIONS,
        centroids@.len() <= MAX_CENTROIDS,
        forall|i: int| 0 <= i < stations@.len() ==> (#[trigger] stations@[i]).wf(),
        forall|j: int| 0 <= j < centroids@.len() ==> (#[trigger] centroids@[j]).wf(),
        forall|k: int| 0 <= k < cands@.len() ==> (#[trigger] cands@[k]).valid(),
    ensures
        match r {
            None => forall|j: int|
                0 <= j < cands@.len() ==> !feasible_spec(
                    stations@,
                    routing,
                    *streets,
                    separation_m as int,
                    #[trigger] cands@[j],
                ),
            Some((bix, bp, bs)) => {
                &&& 0 <= bix < cands@.len()
                &&& cands@[bix as int] == bp
                &&& bp.valid()
                &&& feasible_spec(stations@, routing, *streets, separation_m as int, bp)
                &&& bs as int == score_of(stations@, centroids@, method, routing, *streets, bp)
                &&& (forall|j: int|
                    0 <= j < cands@.len() && feasible_spec(
                        stations@,
                        routing,
                        *streets,
                        separation_m as int,
                        #[trigger] cands@[j],
                    ) ==> score_of(stations@, centroids@, method, routing, *streets, cands@[j])
                        <= bs as int)
                &&& (forall|j: int|
                    0 <= j < bix && feasible_spec(
                        stations@,
                        routing,
                        *streets,
                        separation_m as int,
                        #[trigger] cands@[j],
                    ) ==> score_of(stations@, centroids@, method, routing, *streets, cands@[j])
                        < bs as int)
            },
        },
{
    let mut best: Option<(usize, GeoPoint, u64)> = None;
    let mut ix: usize = 0;
    while ix < cands.len()
        invariant
            streets.wf(),
            stations@.len() < MAX_STATIONS,
            centroids@.len() <= MAX_CENTROIDS,
            forall|k: int| 0 <= k < stations@.len() ==> (#[trigger] stations@[k]).wf(),
            forall|k: int| 0 <= k < centroids@.len() ==> (#[trigger] centroids@[k]).wf(),
            forall|k: int| 0 <= k < cands@.len() ==> (#[trigger] cands@[k]).valid(),
            ix <= cands@.len(),
            match best {
                None => forall|j: int|
                    0 <= j < ix ==> !feasible_spec(
                        stations@,
                        routing,
                        *streets,
                        separation_m as int,
                        #[trigger] cands@[j],
                    ),
                Some((bix, bp, bs)) => {
                    &&& 0 <= bix < ix
                    &&& cands@[bix as int] == bp
                    &&& bp.valid()
                    &&& feasible_spec(stations@, routing, *streets, separation_m as int, bp)
                    &&& bs as int == score_of(
                        stations@,
                        centroids@,
                        method,
                        routing,
                        *streets,
                        bp,
                    )
                    &&& (forall|j: int|
                        0 <= j < ix && feasible_spec(
                            stations@,
                            routing,
                            *streets,
                            separation_m as int,
                            #[trigger] cands@[j],
                        ) ==> score_of(
                            stations@,
                            centroids@,
                            method,
                            routing,
                            *streets,
                            cands@[j],
                        ) <= bs as int)
                    &&& (forall|j: int|
                        0 <= j < bix && feasible_spec(
                            stations@,
                            routing,
                            *streets,
                            separation_m as int,
                            #[trigger] cands@[j],
                        ) ==> score_of(
                            stations@,
                            centroids@,
                            method,
                            routing,
                            *streets,
                            cands@[j],
                        ) < bs as int)
                },
            },
        decreases cands@.len() - ix,
    {
        let p = cands[ix];
        if is_feasible(stations, routing, streets, separation_m, &p) {
            let sc = candidate_score(stations, centroids, method, routing, streets, &p);
            let better = match best {
                None => true,
                Some((_, _, bs)) => sc > bs,
            };
            if better {
                best = Some((ix, p, sc));
            }
        }
        ix = ix + 1;
    }
    best
}

/// Searches the sampled route positions for the one that would newly attract
/// the most weight while keeping `separation_m` to every existing station.
/// The earliest position along the route wins ties.  A degenerate route of
/// zero length, like one whose points all coincide, is reported infeasible,
/// never answered with an arbitrary point.
#[verifier::rlimit(100)]
#[verifier::spinoff_prover]
pub fn find_optimal_station(
    route: &Vec<GeoPoint>,
    separation_m: u64,
    centroids: &Vec<Centroid>,
    stations: &Vec<Station>,
    method: Method,
    routing: Routing,
    streets: &StreetNetwork,
) -> (r: Result<OptimalStationResult, OLPError>)
    requires
        streets.wf(),
        stations@.len() < MAX_STATIONS,
        centroids@.len() <= MAX_CENTROIDS,
        route@.len() <= MAX_ROUTE_POINTS,
        forall|i: int| 0 <= i < stations@.len() ==> (#[trigger] stations@[i]).wf(),
        forall|j: int| 0 <= j < centroids@.len() ==> (#[trigger] centroids@[j]).wf(),
    ensures
        r is Err <==> !route_ok(route@),
        match r {
            Err(_) => true,
            Ok(res) => match res {
                OptimalStationResult::Infeasible { reason } => {
                    &&& infeasible_ok(route@, separation_m as int, stations@, routing, *streets)
                    &&& (route_len_upto(route@, route@.len() as nat) == 0 ==> reason@
                        == "route has zero length"@)
                    &&& (route_len_upto(route@, route@.len() as nat) != 0 ==> reason@
                        == "no feasible location"@ && (forall|j: int|
                        0 <= j < cands_of(route@).len() ==> !feasible_spec(
                            stations@,
                            routing,
                            *streets,
                            separation_m as int,
                            #[trigger] cands_of(route@)[j],
                        )))
                },
                OptimalStationResult::Found { location, score, coverage } => found_ok(
                    location,
                    score as int,
                    coverage,
                    route@,
                    separation_m as int,
                    stations@,
                    centroids@,
                    method,
                    routing,
                    *streets,
                ),
            },
        },
{
    if route.len() < 2 {
        return Err(OLPError::geometry_error("route must have at least two points"));
    }
    let mut v: usize = 0;
    while v < route.len()
        invariant
            v <= route@.len(),
            forall|k: int| 0 <= k < v ==> (#[trigger] route@[k]).valid(),
        decreases route@.len() - v,
    {
        let p = route[v];
        if !(-LAT_LIMIT_UDEG <= p.lat_udeg && p.lat_udeg <= LAT_LIMIT_UDEG && -LNG_LIMIT_UDEG
            <= p.lng_udeg && p.lng_udeg <= LNG_LIMIT_UDEG) {
            return Err(OLPError::geometry_error("route coordinate out of domain"));
        }
        v = v + 1;
    }
    // Total polyline length; a zero-length route cannot host a new station.
    let mut total: u64 = 0;
    let mut s: usize = 1;
    while s < route.len()
        invariant
            route_ok(route@),
            route@.len() <= MAX_ROUTE_POINTS,
            1 <= s <= route@.len(),
            total as int == route_len_upto(route@, s as nat),
            total <= (s as u64) * 50_000_000,
        decreases route@.len() - s,
    {
        let d = dist_direct_m(&route[s - 1], &route[s]);
        total = total + d;
        s = s + 1;
    }
    if total == 0 {
        return Ok(
            OptimalStationResult::Infeasible {
                reason: String::from_str("route has zero length"),
            },
        );
    }
    let cands = build_candidates(route);
    let ghost cs = cands_of(route@);
    let found = search_candidates(
        &cands,
        separation_m,
        centroids,
        stations,
        method,
        routing,
        streets,
    );
    let (best_p, best_s): (GeoPoint, u64);
    let ghost mut best_ix: int = 0;
    match found {
        None => {
            return Ok(
                OptimalStationResult::Infeasible {
                    reason: String::from_str("no feasible location"),
                },
            );
        },
        Some((bix, bp, bs)) => {
            best_p = bp;
            best_s = bs;
            proof {
                best_ix = bix as int;
            }
        },
    }
    let ext = extended_stations(stations, best_p);
    let coverage = houses_for_stations_with(
        &ext,
        centroids,
        method,
        routing,
        streets,
        DEFAULT_CATCHMENT_M,
    );
    proof {
        assert(coverage_matches(
            coverage,
            ext@,
            centroids@,
            method,
            routing,
            *streets,
            DEFAULT_CATCHMENT_M as int,
        ));
        assert(0 <= best_ix < cs.len() && cs[best_ix] == best_p);
        assert(cands_of(route@)[best_ix] == best_p);
        assert(exists|ix: int|
            {
                &&& 0 <= ix < cands_of(route@).len()
                &&& cands_of(route@)[ix] == best_p
                &&& (forall|j: int|
                    0 <= j < cands_of(route@).len() && feasible_spec(
                        stations@,
                        routing,
                        *streets,
                        separation_m as int,
                        #[trigger] cands_of(route@)[j],
                    ) ==> score_of(
                        stations@,
                        centroids@,
                        method,
                        routing,
                        *streets,
                        cands_of(route@)[j],
                    ) <= best_s as int)
                &&& (forall|j: int|
                    0 <= j < ix && feasible_spec(
                        stations@,
                        routing,
                        *streets,
                        separation_m as int,
                        #[trigger] cands_of(route@)[j],
                    ) ==> score_of(
                        stations@,
                        centroids@,
                        method,
                        routing,
                        *streets,
                        cands_of(route@)[j],
                    ) < best_s as int)
            }) by {
            assert(0 <= best_ix < cands_of(route@).len());
            assert(cands_of(route@)[best_ix] == best_p);
        }
        assert(exists|sts: Seq<Station>|
            {
                &&& sts.len() == stations@.len() + 1
                &&& (forall|i: int|
                    0 <= i < stations@.len() ==> (#[trigger] sts[i]).id@ == stations@[i].id@
                        && sts[i].point == stations@[i].point)
                &&& sts[stations@.len() as int].point == best_p
                &&& sts[stations@.len() as int].id@ == "candidate"@
                &&& coverage_matches(
                    coverage,
                    sts,
                    centroids@,
                    method,
                    routing,
                    *streets,
                    DEFAULT_CATCHMENT_M as int,
                )
            }) by {
            assert(ext@.len() == stations@.len() + 1);
            assert(ext@[stations@.len() as int].point == best_p);
            assert(ext@[stations@.len() as int].id@ == "candidate"@);
        }
        assert(route_len_upto(route@, route@.len() as nat) == total);
        assert(route_ok(route@));
        assert(found_ok(
            best_p,
            best_s as int,
            coverage,
            route@,
            separation_m as int,
            stations@,
            centroids@,
            method,
            routing,
            *streets,
        ));
    }
    Ok(OptimalStationResult::Found { location: best_p, score: best_s, coverage })
}

} // verus!
