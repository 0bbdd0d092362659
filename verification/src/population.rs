use vstd::prelude::*;
use crate::coverage::{CoverageMap, StationCoverage};

verus! {

/// Aggregate inhabitants one layer category reaches.
#[derive(Debug)]
pub struct CategoryTotal {
    pub category: String,
    pub inhabitants: u64,
    pub per_station: Vec<u64>,
}

/// Inhabitant totals per layer category, in input order; categories are
/// reported separately, never summed into one grand total.
#[derive(Debug)]
pub struct InhabitantsMap {
    pub entries: Vec<CategoryTotal>,
}

/// Weight a station's covered list attributes to it, over its first `n`
/// entries.
pub open spec fn station_total_upto(sc: StationCoverage, n: nat) -> int
    decreases n,
{
    if n == 0 {
        0
    } else {
        station_total_upto(sc, (n - 1) as nat) + sc.covered@[n - 1].weight
    }
}

/// Weight a coverage map attributes in total, over its first `n` stations.
pub open spec fn coverage_total_upto(cm: CoverageMap, n: nat) -> int
    decreases n,
{
    if n == 0 {
        0
    } else {
        coverage_total_upto(cm, (n - 1) as nat) + station_total_upto(
            cm.entries@[n - 1],
            cm.entries@[n - 1].covered@.len() as nat,
        )
    }
}

/// Total attributed weight of one coverage map.
pub open spec fn coverage_total(cm: CoverageMap) -> int {
    coverage_total_upto(cm, cm.entries@.len() as nat)
}

/// Sums the attributed weights of one station's covered list.
fn station_total(sc: &StationCoverage) -> (r: u64)
    requires
        station_total_upto(*sc, sc.covered@.len() as nat) <= u64::MAX,
    ensures
        r == station_total_upto(*sc, sc.covered@.len() as nat),
{
    let mut acc: u64 = 0;
    let mut i: usize = 0;
    while i < sc.covered.len()
        invariant
            i <= sc.covered@.len(),
            acc == station_total_upto(*sc, i as nat),
            station_total_upto(*sc, sc.covered@.len() as nat) <= u64::MAX,
        decreases sc.covered@.len() - i,
    {
        proof {
            lemma_station_total_mono(*sc, (i + 1) as nat, sc.covered@.len() as nat);
        }
        acc = acc + sc.covered[i].weight;
        i = i + 1;
    }
    acc
}

proof fn lemma_station_total_mono(sc: StationCoverage, n: nat, m: nat)
    requires
        n <= m <= sc.covered@.len(),
    ensures
        station_total_upto(sc, n) <= station_total_upto(sc, m),
    decreases m,
{
    if n < m {
        lemma_station_total_mono(sc, n, (m - 1) as nat);
    }
}

proof fn lemma_coverage_total_mono(cm: CoverageMap, n: nat, m: nat)
    requires
        n <= m <= cm.entries@.len(),
    ensures
        coverage_total_upto(cm, n) <= coverage_total_upto(cm, m),
    decreases m,
{
    if n < m {
        lemma_coverage_total_mono(cm, n, (m - 1) as nat);
        lemma_station_total_mono(
            cm.entries@[m - 1],
            0,
            cm.entries@[m - 1].covered@.len() as nat,
        );
    }
}

/// Reduces per-category coverage into inhabitant totals: one entry per input
/// pair, in input order, carrying the category, the summed attributed
/// weight, and the per-station breakdown in station order.
pub fn aggregate(pairs: &Vec<(String, CoverageMap)>) -> (r: InhabitantsMap)
    requires
        forall|i: int|
            0 <= i < pairs@.len() ==> coverage_total(#[trigger] pairs@[i].1) <= u64::MAX,
    ensures
        r.entries@.len() == pairs@.len(),
        forall|i: int|
            0 <= i < pairs@.len() ==> {
                let e = #[trigger] r.entries@[i];
                &&& e.category@ == pairs@[i].0@
                &&& e.inhabitants == coverage_total(pairs@[i].1)
                &&& e.per_station@.len() == pairs@[i].1.entries@.len()
                &&& (forall|s: int|
                    0 <= s < e.per_station@.len() ==> #[trigger] e.per_station@[s]
                        == station_total_upto(
                        pairs@[i].1.entries@[s],
                        pairs@[i].1.entries@[s].covered@.len() as nat,
                    ))
            },
{
    let mut entries: Vec<CategoryTotal> = Vec::new();
    let mut i: usize = 0;
    while i < pairs.len()
        invariant
            i <= pairs@.len(),
            entries@.len() == i,
            forall|k: int|
                0 <= k < pairs@.len() ==> coverage_total(#[trigger] pairs@[k].1) <= u64::MAX,
            forall|k: int|
                0 <= k < i ==> {
                    let e = #[trigger] entries@[k];
                    &&& e.category@ == pairs@[k].0@
                    &&& e.inhabitants == coverage_total(pairs@[k].1)
                    &&& e.per_station@.len() == pairs@[k].1.entries@.len()
                    &&& (forall|s: int|
                        0 <= s < e.per_station@.len() ==> #[trigger] e.per_station@[s]
                            == station_total_upto(
                            pairs@[k].1.entries@[s],
                            pairs@[k].1.entries@[s].covered@.len() as nat,
                        ))
                },
        decreases pairs@.len() - i,
    {
        let cm = &pairs[i].1;
        let mut per_station: Vec<u64> = Vec::new();
        let mut total: u64 = 0;
        let mut s: usize = 0;
        while s < cm.entries.len()
            invariant
                s <= cm.entries@.len(),
                coverage_total(*cm) <= u64::MAX,
                cm == &pairs@[i as int].1,
                0 <= i < pairs@.len(),
                per_station@.len() == s,
                total == coverage_total_upto(*cm, s as nat),
                forall|x: int|
                    0 <= x < s ==> #[trigger] per_station@[x] == station_total_upto(
                        cm.entries@[x],
                        cm.entries@[x].covered@.len() as nat,
                    ),
            decreases cm.entries@.len() - s,
        {
            proof {
                lemma_coverage_total_mono(*cm, (s + 1) as nat, cm.entries@.len() as nat);
                lemma_coverage_total_mono(*cm, 0, s as nat);
                lemma_station_total_mono(
                    cm.entries@[s as int],
                    0,
                    cm.entries@[s as int].covered@.len() as nat,
                );
            }
            let st = station_total(&cm.entries[s]);
            per_station.push(st);
            total = total + st;
            s = s + 1;
        }
        let category = pairs[i].0.clone();
        entries.push(CategoryTotal { category, inhabitants: total, per_station });
        i = i + 1;
    }
    InhabitantsMap { entries }
}

} // verus!
