use openlineplanner_core::coverage::{
    houses_for_stations, houses_for_stations_with, Centroid, CoverageMap, Method, Routing, Station,
};
use openlineplanner_core::error::OLPError;
use openlineplanner_core::geometry::{dist_direct_m, isqrt, GeoPoint};
use openlineplanner_core::layers::{Layer, Layers};
use openlineplanner_core::population::aggregate;
use openlineplanner_core::station::{find_optimal_station, OptimalStationResult};
use openlineplanner_core::streets::{network_distance, StreetNetwork};

fn pt(lat_udeg: i64, lng_udeg: i64) -> GeoPoint {
    GeoPoint { lat_udeg, lng_udeg }
}

fn station(id: &str, p: GeoPoint) -> Station {
    Station {
        id: id.to_string(),
        point: p,
        name: None,
    }
}

fn centroid(p: GeoPoint, weight: u64) -> Centroid {
    Centroid { point: p, weight }
}

fn total_weight(cm: &CoverageMap) -> u64 {
    let mut sum = 0u64;
    for e in &cm.entries {
        for c in &e.covered {
            sum += c.weight;
        }
    }
    sum
}

#[test]
fn test_error_creation() {
    let e = OLPError::geometry_error("Invalid coordinates");
    assert_eq!(e.describe(), "Geometry error: Invalid coordinates");
    let e = OLPError::validation_error("Invalid input");
    assert_eq!(e.describe(), "Validation error: Invalid input");
    let e = OLPError::not_found("station");
    assert_eq!(e.describe(), "Not found: station");
}

#[test]
fn test_error_variants_describe() {
    assert_eq!(
        OLPError::config_error("bad config").describe(),
        "Configuration error: bad config"
    );
    assert_eq!(OLPError::data_error("bad data").describe(), "Data error: bad data");
    assert_eq!(
        OLPError::network_error("no route").describe(),
        "Network error: no route"
    );
    assert_eq!(
        OLPError::internal_error("oops").describe(),
        "Internal error: oops"
    );
    assert_eq!(
        OLPError::bad_request("bad body").describe(),
        "Bad request: bad body"
    );
    assert_eq!(OLPError::from_error("wrapped").describe(), "Internal error: wrapped");
}

#[test]
fn test_isqrt_exact_values() {
    assert_eq!(isqrt(0), 0);
    assert_eq!(isqrt(1), 1);
    assert_eq!(isqrt(24), 4);
    assert_eq!(isqrt(25), 5);
    assert_eq!(isqrt(26), 5);
    assert_eq!(isqrt(u64::MAX), 4294967295);
}

#[test]
fn test_direct_distance_values() {
    // Vienna city centre: one microdegree of latitude is about 0.11 meters.
    let a = pt(48_208_200, 16_373_800);
    let b = pt(48_208_300, 16_373_900);
    let d = dist_direct_m(&a, &b);
    assert_eq!(d, 15);
    assert_eq!(dist_direct_m(&a, &a), 0);
}

// One station, three centroids, threshold 300 m, relative method, direct
// routing: the two nearby centroids are covered and the distant one is not,
// for fifteen inhabitants in total.
#[test]
fn test_scenario_one_station_three_centroids() {
    let stations = vec![station("s1", pt(48_208_200, 16_373_800))];
    let centroids = vec![
        centroid(pt(48_208_300, 16_373_900), 10),
        centroid(pt(48_209_000, 16_375_000), 5),
        centroid(pt(48_300_000, 16_500_000), 20),
    ];
    let net = StreetNetwork::new();
    let cm = houses_for_stations_with(
        &stations,
        &centroids,
        Method::Relative,
        Routing::Direct,
        &net,
        300,
    );
    assert_eq!(cm.entries.len(), 1);
    let covered = &cm.entries[0].covered;
    assert_eq!(covered.len(), 2);
    assert_eq!(covered[0].weight, 10);
    assert_eq!(covered[1].weight, 5);
    assert!(covered[0].distance_m <= 300);
    assert!(covered[1].distance_m <= 300);

    let pairs = vec![("residential".to_string(), cm)];
    let inhabitants = aggregate(&pairs);
    assert_eq!(inhabitants.entries.len(), 1);
    assert_eq!(inhabitants.entries[0].category, "residential");
    assert_eq!(inhabitants.entries[0].inhabitants, 15);
}

// A straight kilometre of route with the existing station at its start and a
// centroid cluster at its middle: the best sample lies near the middle and
// keeps the separation distance.
#[test]
fn test_scenario_straight_route_cluster_at_midpoint() {
    let start = pt(48_200_000, 16_373_800);
    let end = pt(48_209_000, 16_373_800);
    let route = vec![start, end];
    let stations = vec![station("existing", start)];
    // Roughly 400 m, 550 m and 700 m along the route.
    let centroids = vec![
        centroid(pt(48_203_597, 16_373_800), 10),
        centroid(pt(48_204_946, 16_373_800), 10),
        centroid(pt(48_206_295, 16_373_800), 10),
    ];
    let net = StreetNetwork::new();
    let r = find_optimal_station(
        &route,
        300,
        &centroids,
        &stations,
        Method::Relative,
        Routing::Direct,
        &net,
    )
    .unwrap();
    match r {
        OptimalStationResult::Found { location, score, .. } => {
            assert!(dist_direct_m(&location, &start) >= 300);
            assert!(location.lat_udeg >= 48_203_000);
            assert!(location.lat_udeg <= 48_206_000);
            assert_eq!(location.lat_udeg, 48_203_600);
            assert_eq!(score, 30);
        }
        OptimalStationResult::Infeasible { .. } => panic!("expected a found station"),
    }
}

// A degenerate route whose points coincide is reported infeasible, never
// answered with an arbitrary point.
#[test]
fn test_scenario_degenerate_route() {
    let p = pt(48_208_200, 16_373_800);
    let route = vec![p, p, p];
    let stations = vec![station("s1", p)];
    let centroids = vec![centroid(p, 10)];
    let net = StreetNetwork::new();
    let r = find_optimal_station(
        &route,
        300,
        &centroids,
        &stations,
        Method::Relative,
        Routing::Direct,
        &net,
    )
    .unwrap();
    match r {
        OptimalStationResult::Infeasible { reason } => {
            assert_eq!(reason, "route has zero length");
        }
        OptimalStationResult::Found { .. } => panic!("expected the infeasible marker"),
    }
}

// When every sampled position sits too close to an existing station, the
// search reports that no feasible location exists.
#[test]
fn test_all_candidates_rejected_by_separation() {
    let start = pt(48_200_000, 16_373_800);
    let end = pt(48_209_000, 16_373_800);
    let route = vec![start, end];
    // A station at the route midpoint is within 600 m of every sample of the
    // one-kilometre route.
    let stations = vec![station("mid", pt(48_204_500, 16_373_800))];
    let centroids = vec![centroid(pt(48_204_500, 16_373_800), 10)];
    let net = StreetNetwork::new();
    let r = find_optimal_station(
        &route,
        600,
        &centroids,
        &stations,
        Method::Relative,
        Routing::Direct,
        &net,
    )
    .unwrap();
    match r {
        OptimalStationResult::Infeasible { reason } => {
            assert_eq!(reason, "no feasible location");
        }
        OptimalStationResult::Found { .. } => panic!("expected the infeasible marker"),
    }
}

// Two layers of one category with the same coordinate keep both raw entries
// after the merge; coverage then attributes the combined weight.
#[test]
fn test_scenario_same_category_merge_keeps_raw_entries() {
    let x = pt(48_208_200, 16_373_800);
    let mut store = Layers::new();
    store.add_layer(Layer {
        layer_type: "residential".to_string(),
        centroids: vec![centroid(x, 5)],
        streets: StreetNetwork::new(),
    });
    store.add_layer(Layer {
        layer_type: "residential".to_string(),
        centroids: vec![centroid(x, 3)],
        streets: StreetNetwork::new(),
    });
    let merged = store.all_merged_by_type().unwrap();
    assert_eq!(merged.len(), 1);
    assert_eq!(merged[0].layer_type, "residential");
    assert_eq!(merged[0].centroids.len(), 2);
    assert_eq!(merged[0].centroids[0].weight, 5);
    assert_eq!(merged[0].centroids[1].weight, 3);

    let stations = vec![station("s1", x)];
    let cm = houses_for_stations(
        &stations,
        merged[0].get_centroids(),
        Method::Relative,
        Routing::Direct,
        merged[0].get_streets(),
    );
    assert_eq!(total_weight(&cm), 8);

    let pairs = vec![("residential".to_string(), cm)];
    let inhabitants = aggregate(&pairs);
    assert_eq!(inhabitants.entries[0].inhabitants, 8);
}

// Street routing never reports a shorter distance than the straight line.
#[test]
fn test_network_distance_at_least_direct() {
    let mut net = StreetNetwork::new();
    let a = pt(48_208_200, 16_373_800);
    let b = pt(48_209_000, 16_375_000);
    let ia = net.add_node(a).unwrap();
    let ib = net.add_node(b).unwrap();
    net.add_edge(ia, ib, 300).unwrap();
    let s = pt(48_208_100, 16_373_700);
    let c = pt(48_209_100, 16_375_100);
    let routed = network_distance(&net, &s, &c).unwrap();
    let direct = dist_direct_m(&s, &c);
    assert!(routed >= direct);
}

// A station placed exactly on a centroid covers it at distance zero under
// both routing modes, even over a street network.
#[test]
fn test_zero_distance_coverage_both_routings() {
    let p = pt(48_208_200, 16_373_800);
    let mut net = StreetNetwork::new();
    let far = pt(48_300_000, 16_500_000);
    net.add_node(far).unwrap();
    let stations = vec![station("s1", p)];
    let centroids = vec![centroid(p, 7)];
    for routing in [Routing::Direct, Routing::Osm] {
        let cm = houses_for_stations(&stations, &centroids, Method::Relative, routing, &net);
        assert_eq!(cm.entries[0].covered.len(), 1);
        assert_eq!(cm.entries[0].covered[0].distance_m, 0);
        assert_eq!(cm.entries[0].covered[0].weight, 7);
    }
}

// With several covering stations the relative shares sum to exactly the
// centroid's weight: no inflation, no loss.
#[test]
fn test_relative_shares_sum_exactly() {
    let c = pt(48_208_200, 16_373_800);
    let stations = vec![
        station("near", pt(48_208_300, 16_373_800)),
        station("far", pt(48_209_000, 16_373_800)),
        station("other", pt(48_208_600, 16_373_800)),
    ];
    let centroids = vec![centroid(c, 1000)];
    let net = StreetNetwork::new();
    let cm = houses_for_stations_with(
        &stations,
        &centroids,
        Method::Relative,
        Routing::Direct,
        &net,
        300,
    );
    assert_eq!(total_weight(&cm), 1000);
    // The nearest station receives the largest share.
    let near_share = cm.entries[0].covered[0].weight;
    let far_share = cm.entries[1].covered[0].weight;
    assert!(near_share > far_share);
}

// The nearest-only method gives the single nearest covering station the full
// weight; the others list nothing for that centroid.
#[test]
fn test_absolute_method_nearest_takes_all() {
    let c = pt(48_208_200, 16_373_800);
    let stations = vec![
        station("far", pt(48_209_000, 16_373_800)),
        station("near", pt(48_208_300, 16_373_800)),
    ];
    let centroids = vec![centroid(c, 42)];
    let net = StreetNetwork::new();
    let cm = houses_for_stations_with(
        &stations,
        &centroids,
        Method::Absolute,
        Routing::Direct,
        &net,
        300,
    );
    assert_eq!(cm.entries[0].covered.len(), 0);
    assert_eq!(cm.entries[1].covered.len(), 1);
    assert_eq!(cm.entries[1].covered[0].weight, 42);
}

// Repeated calls with identical inputs give identical outputs.
#[test]
fn test_coverage_deterministic() {
    let stations = vec![station("s1", pt(48_208_200, 16_373_800))];
    let centroids = vec![
        centroid(pt(48_208_300, 16_373_900), 10),
        centroid(pt(48_209_000, 16_375_000), 5),
    ];
    let net = StreetNetwork::new();
    let cm1 = houses_for_stations(&stations, &centroids, Method::Relative, Routing::Direct, &net);
    let cm2 = houses_for_stations(&stations, &centroids, Method::Relative, Routing::Direct, &net);
    assert_eq!(cm1.entries.len(), cm2.entries.len());
    for (e1, e2) in cm1.entries.iter().zip(cm2.entries.iter()) {
        assert_eq!(e1.station_id, e2.station_id);
        assert_eq!(e1.covered, e2.covered);
    }
}

// Malformed routes are escalated as geometry errors.
#[test]
fn test_find_station_rejects_bad_routes() {
    let stations = vec![station("s1", pt(48_208_200, 16_373_800))];
    let centroids = vec![centroid(pt(48_208_300, 16_373_900), 10)];
    let net = StreetNetwork::new();
    let short = vec![pt(48_208_200, 16_373_800)];
    assert!(find_optimal_station(
        &short,
        300,
        &centroids,
        &stations,
        Method::Relative,
        Routing::Direct,
        &net
    )
    .is_err());
    let out_of_domain = vec![pt(48_208_200, 16_373_800), pt(95_000_000, 16_373_800)];
    assert!(find_optimal_station(
        &out_of_domain,
        300,
        &centroids,
        &stations,
        Method::Relative,
        Routing::Direct,
        &net
    )
    .is_err());
}

// Builder errors: out-of-domain nodes and too-short segments are refused.
#[test]
fn test_street_network_builder_errors() {
    let mut net = StreetNetwork::new();
    assert!(net.add_node(pt(95_000_000, 0)).is_err());
    let ia = net.add_node(pt(48_208_200, 16_373_800)).unwrap();
    let ib = net.add_node(pt(48_209_000, 16_375_000)).unwrap();
    // The straight line between the two nodes is about 160 m; a shorter
    // segment is refused.
    assert!(net.add_edge(ia, ib, 10).is_err());
    assert!(net.add_edge(ia, 99, 300).is_err());
    assert!(net.add_edge(ia, ib, 300).is_ok());
}

// An unreachable pair over a disconnected network degrades to no coverage
// rather than failing.
#[test]
fn test_disconnected_network_unreachable() {
    let mut net = StreetNetwork::new();
    let a = pt(48_208_200, 16_373_800);
    let b = pt(48_209_000, 16_375_000);
    net.add_node(a).unwrap();
    net.add_node(b).unwrap();
    // No edges: the two nodes are disconnected.
    let d = network_distance(&net, &pt(48_208_100, 16_373_700), &pt(48_209_100, 16_375_100));
    assert!(d.is_none());
    let stations = vec![station("s1", pt(48_208_100, 16_373_700))];
    let centroids = vec![centroid(pt(48_209_100, 16_375_100), 9)];
    let cm = houses_for_stations(&stations, &centroids, Method::Relative, Routing::Osm, &net);
    assert_eq!(cm.entries[0].covered.len(), 0);
}

// An empty store merges to an empty composite layer and zero coverage.
#[test]
fn test_empty_store_merges_empty() {
    let store = Layers::new();
    let all = store.all_merged().unwrap();
    assert_eq!(all.centroids.len(), 0);
    let by_type = store.all_merged_by_type().unwrap();
    assert_eq!(by_type.len(), 0);
    let stations = vec![station("s1", pt(48_208_200, 16_373_800))];
    let cm = houses_for_stations(
        &stations,
        all.get_centroids(),
        Method::Relative,
        Routing::Direct,
        all.get_streets(),
    );
    assert_eq!(total_weight(&cm), 0);
}

// Merging by category is associative on the centroid sequences: three layers
// compose the same composite whichever pair is merged first.
#[test]
fn test_merge_order_independent() {
    let mk = |lat: i64, w: u64| Layer {
        layer_type: "residential".to_string(),
        centroids: vec![centroid(pt(lat, 16_373_800), w)],
        streets: StreetNetwork::new(),
    };
    let a = mk(48_208_100, 1);
    let b = mk(48_208_200, 2);
    let c = mk(48_208_300, 3);
    let ab = openlineplanner_core::layers::merge_layers(&a, &b).unwrap();
    let ab_c = openlineplanner_core::layers::merge_layers(&ab, &c).unwrap();
    let bc = openlineplanner_core::layers::merge_layers(&b, &c).unwrap();
    let a_bc = openlineplanner_core::layers::merge_layers(&a, &bc).unwrap();
    assert_eq!(ab_c.centroids, a_bc.centroids);
}

// Out-of-domain coordinates are rejected with a geometry error; valid ones
// build the point unchanged.
#[test]
fn test_geopoint_domain() {
    let p = GeoPoint::new(48_208_200, 16_373_800).unwrap();
    assert_eq!(p.lat_udeg, 48_208_200);
    assert_eq!(p.lng_udeg, 16_373_800);
    let e = GeoPoint::new(95_000_000, 0).unwrap_err();
    assert_eq!(e.describe(), "Geometry error: coordinate out of the WGS-84 domain");
    assert!(GeoPoint::new(0, 181_000_000).is_err());
}
