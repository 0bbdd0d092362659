use vstd::prelude::*;
use vstd::string::StringExecFns;
use crate::geometry::GeoPoint;
use crate::streets::{StreetNetwork, Edge, MAX_NODES};
use crate::coverage::Centroid;
use crate::error::OLPError;

verus! {

/// Largest number of centroids one composite layer may carry.
pub const MAX_CENTROIDS: usize = 1_000_000;

/// A named geographic layer: a category tag, its population centroids in
/// load order, and the street network that serves them.
#[derive(Debug)]
pub struct Layer {
    pub layer_type: String,
    pub centroids: Vec<Centroid>,
    pub streets: StreetNetwork,
}

impl Layer {
    pub open spec fn wf(self) -> bool {
        &&& self.streets.wf()
        &&& self.centroids@.len() <= MAX_CENTROIDS
        &&& (forall|i: int| 0 <= i < self.centroids@.len() ==> (#[trigger] self.centroids@[i]).wf())
    }

    /// The category tag of this layer.
    pub fn get_type(&self) -> (r: &String)
        ensures
            r == &self.layer_type,
    {
        &self.layer_type
    }

    /// The centroids of this layer, in load order.
    pub fn get_centroids(&self) -> (r: &Vec<Centroid>)
        ensures
            r == &self.centroids,
    {
        &self.centroids
    }

    /// The street network of this layer.
    pub fn get_streets(&self) -> (r: &StreetNetwork)
        ensures
            r == &self.streets,
    {
        &self.streets
    }
}

/// Whether some node of the network sits at position `p`.
pub open spec fn node_in(net: StreetNetwork, p: GeoPoint) -> bool {
    exists|i: int| 0 <= i < net.nodes@.len() && net.nodes@[i] == p
}

/// Whether the network has a segment of length `len` from a node at `pa` to
/// a node at `pb`.
pub open spec fn edge_in(net: StreetNetwork, pa: GeoPoint, pb: GeoPoint, len: u64) -> bool {
    exists|j: int|
        0 <= j < net.edges@.len() && (#[trigger] net.edges@[j]).len_m == len
            && net.nodes@[net.edges@[j].a as int] == pa && net.nodes@[net.edges@[j].b as int] == pb
}

proof fn lemma_node_in_eq(a: StreetNetwork, b: StreetNetwork, p: GeoPoint)
    requires
        a.nodes@ == b.nodes@,
    ensures
        node_in(a, p) <==> node_in(b, p),
{
    if node_in(a, p) {
        let w = choose|i: int| 0 <= i < a.nodes@.len() && a.nodes@[i] == p;
        assert(b.nodes@[w] == p);
    }
    if node_in(b, p) {
        let w = choose|i: int| 0 <= i < b.nodes@.len() && b.nodes@[i] == p;
        assert(a.nodes@[w] == p);
    }
}

/// Index of the node at position `p`, if any.
fn find_node(net: &StreetNetwork, p: &GeoPoint) -> (r: Option<usize>)
    ensures
        match r {
            Some(i) => i < net.nodes@.len() && net.nodes@[i as int] == *p,
            None => !node_in(*net, *p),
        },
{
    let mut i: usize = 0;
    while i < net.nodes.len()
        invariant
            i <= net.nodes@.len(),
            forall|k: int| 0 <= k < i ==> net.nodes@[k] != *p,
        decreases net.nodes@.len() - i,
    {
        if net.nodes[i] == *p {
            return Some(i);
        }
        i = i + 1;
    }
    None
}

/// Copies the nodes of `src` into `dst`, skipping positions already present;
/// fails only when the united node table would not fit.
fn union_nodes(dst: &mut StreetNetwork, src: &StreetNetwork) -> (r: Result<(), OLPError>)
    requires
        old(dst).wf(),
        src.wf(),
    ensures
        final(dst).wf(),
        final(dst).edges@ == old(dst).edges@,
        final(dst).nodes@.len() <= old(dst).nodes@.len() + src.nodes@.len(),
        match r {
            Ok(()) => forall|p: GeoPoint|
                #[trigger] node_in(*final(dst), p) <==> (node_in(*old(dst), p) || node_in(
                    *src,
                    p,
                )),
            Err(_) => old(dst).nodes@.len() + src.nodes@.len() > MAX_NODES,
        },
{
    let mut i: usize = 0;
    while i < src.nodes.len()
        invariant
            dst.wf(),
            src.wf(),
            i <= src.nodes@.len(),
            dst.edges@ == old(dst).edges@,
            dst.nodes@.len() <= old(dst).nodes@.len() + i,
            forall|p: GeoPoint|
                #[trigger] node_in(*dst, p) <==> (node_in(*old(dst), p) || exists|k: int|
                    0 <= k < i && src.nodes@[k] == p),
        decreases src.nodes@.len() - i,
    {
        let p = src.nodes[i];
        let ghost before = *dst;
        if find_node(dst, &p).is_none() {
            match dst.add_node(p) {
                Ok(_) => {
                    proof {
                        assert(dst.nodes@ == before.nodes@.push(p));
                        assert forall|q: GeoPoint| #[trigger] node_in(*dst, q) implies (node_in(
                            before,
                            q,
                        ) || q == p) by {
                            let w = choose|x: int|
                                0 <= x < dst.nodes@.len() && dst.nodes@[x] == q;
                            if w < before.nodes@.len() {
                                assert(node_in(before, q));
                            }
                        }
                        assert(node_in(*dst, p)) by {
                            assert(dst.nodes@[dst.nodes@.len() - 1] == p);
                        }
                        assert forall|q: GeoPoint| node_in(before, q) implies #[trigger] node_in(
                            *dst,
                            q,
                        ) by {
                            let w = choose|x: int|
                                0 <= x < before.nodes@.len() && before.nodes@[x] == q;
                            assert(dst.nodes@[w] == q);
                        }
                    }
                },
                Err(e) => {
                    proof {
                        assert(src.nodes@[i as int].valid());
                        assert(before.nodes@.len() >= MAX_NODES);
                    }
                    return Err(e);
                },
            }
        }
        i = i + 1;
    }
    Ok(())
}

/// Re-attaches every segment of `src` to the nodes of `dst` that carry the
/// same coordinates.
fn union_edges(dst: &mut StreetNetwork, src: &StreetNetwork) -> (r: Result<(), OLPError>)
    requires
        old(dst).wf(),
        src.wf(),
        forall|p: GeoPoint| node_in(*src, p) ==> #[trigger] node_in(*old(dst), p),
    ensures
        final(dst).wf(),
        final(dst).nodes@ == old(dst).nodes@,
        r is Ok,
        forall|pa: GeoPoint, pb: GeoPoint, len: u64|
            #[trigger] edge_in(*final(dst), pa, pb, len) <==> (edge_in(*old(dst), pa, pb, len)
                || edge_in(*src, pa, pb, len)),
{
    let mut j: usize = 0;
    while j < src.edges.len()
        invariant
            dst.wf(),
            src.wf(),
            j <= src.edges@.len(),
            dst.nodes@ == old(dst).nodes@,
            forall|p: GeoPoint| node_in(*src, p) ==> #[trigger] node_in(*old(dst), p),
            forall|pa: GeoPoint, pb: GeoPoint, len: u64|
                #[trigger] edge_in(*dst, pa, pb, len) <==> (edge_in(*old(dst), pa, pb, len)
                    || exists|x: int|
                    0 <= x < j && (#[trigger] src.edges@[x]).len_m == len
                        && src.nodes@[src.edges@[x].a as int] == pa
                        && src.nodes@[src.edges@[x].b as int] == pb),
        decreases src.edges@.len() - j,
    {
        let e = src.edges[j];
        let pa = src.nodes[e.a];
        let pb = src.nodes[e.b];
        proof {
            assert(node_in(*src, pa)) by {
                assert(src.nodes@[e.a as int] == pa);
            }
            assert(node_in(*src, pb)) by {
                assert(src.nodes@[e.b as int] == pb);
            }
            lemma_node_in_eq(*dst, *old(dst), pa);
            lemma_node_in_eq(*dst, *old(dst), pb);
        }
        let ia = match find_node(dst, &pa) {
            Some(x) => x,
            None => {
                proof {
                    assert(false);
                }
                0
            },
        };
        let ib = match find_node(dst, &pb) {
            Some(x) => x,
            None => {
                proof {
                    assert(false);
                }
                0
            },
        };
        let ghost before = *dst;
        let ne = Edge { a: ia, b: ib, len_m: e.len_m };
        self_push_edge(dst, ne);
        proof {
            assert(dst.edges@ == before.edges@.push(ne));
            assert(edge_in(*dst, pa, pb, e.len_m)) by {
                assert(dst.edges@[dst.edges@.len() - 1] == ne);
            }
            assert forall|qa: GeoPoint, qb: GeoPoint, len: u64|
                #[trigger] edge_in(*dst, qa, qb, len) implies (edge_in(before, qa, qb, len) || (qa
                == pa && qb == pb && len == e.len_m)) by {
                let w = choose|x: int|
                    0 <= x < dst.edges@.len() && (#[trigger] dst.edges@[x]).len_m == len
                        && dst.nodes@[dst.edges@[x].a as int] == qa
                        && dst.nodes@[dst.edges@[x].b as int] == qb;
                if w < before.edges@.len() {
                    assert(edge_in(before, qa, qb, len));
                }
            }
            assert forall|qa: GeoPoint, qb: GeoPoint, len: u64|
                edge_in(before, qa, qb, len) implies #[trigger] edge_in(*dst, qa, qb, len) by {
                let w = choose|x: int|
                    0 <= x < before.edges@.len() && (#[trigger] before.edges@[x]).len_m == len
                        && before.nodes@[before.edges@[x].a as int] == qa
                        && before.nodes@[before.edges@[x].b as int] == qb;
                assert(dst.edges@[w] == before.edges@[w]);
            }
        }
        j = j + 1;
    }
    Ok(())
}

/// Appends one already-validated segment.
fn self_push_edge(net: &mut StreetNetwork, e: Edge)
    requires
        old(net).wf(),
        e.a < old(net).nodes@.len(),
        e.b < old(net).nodes@.len(),
        crate::geometry::dist_ceil(old(net).nodes@[e.a as int], old(net).nodes@[e.b as int])
            <= e.len_m,
        e.len_m <= crate::streets::MAX_EDGE_LEN_M,
    ensures
        final(net).wf(),
        final(net).nodes@ == old(net).nodes@,
        final(net).edges@ == old(net).edges@.push(e),
{
    net.edges.push(e);
}

/// Union of two street networks: node positions deduplicated by coordinate
/// identity, every segment of either side kept, none invented; fails only
/// when the two node tables together would not fit.
pub fn merge_networks(x: &StreetNetwork, y: &StreetNetwork) -> (r: Result<
    StreetNetwork,
    OLPError,
>)
    requires
        x.wf(),
        y.wf(),
    ensures
        match r {
            Ok(net) => {
                &&& net.wf()
                &&& net.nodes@.len() <= x.nodes@.len() + y.nodes@.len()
                &&& (forall|p: GeoPoint|
                    #[trigger] node_in(net, p) <==> (node_in(*x, p) || node_in(*y, p)))
                &&& (forall|pa: GeoPoint, pb: GeoPoint, len: u64|
                    #[trigger] edge_in(net, pa, pb, len) <==> (edge_in(*x, pa, pb, len) || edge_in(
                        *y,
                        pa,
                        pb,
                        len,
                    )))
            },
            Err(_) => x.nodes@.len() + y.nodes@.len() > MAX_NODES,
        },
{
    let mut net = StreetNetwork::new();
    proof {
        assert(forall|p: GeoPoint| !node_in(net, p));
        assert(forall|pa: GeoPoint, pb: GeoPoint, len: u64| !edge_in(net, pa, pb, len));
    }
    match union_nodes(&mut net, x) {
        Ok(()) => {},
        Err(e) => {
            return Err(e);
        },
    }
    match union_nodes(&mut net, y) {
        Ok(()) => {},
        Err(e) => {
            return Err(e);
        },
    }
    let ghost nodes_done = net;
    proof {
        assert(forall|p: GeoPoint|
            #[trigger] node_in(nodes_done, p) <==> (node_in(*x, p) || node_in(*y, p)));
    }
    match union_edges(&mut net, x) {
        Ok(()) => {},
        Err(e) => {
            return Err(e);
        },
    }
    proof {
        assert forall|p: GeoPoint| #[trigger] node_in(net, p) <==> (node_in(*x, p) || node_in(
            *y,
            p,
        )) by {
            lemma_node_in_eq(net, nodes_done, p);
        }
    }
    let ghost x_done = net;
    match union_edges(&mut net, y) {
        Ok(()) => {},
        Err(e) => {
            return Err(e);
        },
    }
    proof {
        assert forall|p: GeoPoint| #[trigger] node_in(net, p) <==> (node_in(*x, p) || node_in(
            *y,
            p,
        )) by {
            lemma_node_in_eq(net, x_done, p);
            lemma_node_in_eq(x_done, nodes_done, p);
        }
        assert(forall|pa: GeoPoint, pb: GeoPoint, len: u64|
            !edge_in(nodes_done, pa, pb, len));
    }
    Ok(net)
}

/// Appends the centroids of `src` to `dst`.
fn append_centroids(dst: &mut Vec<Centroid>, src: &Vec<Centroid>)
    ensures
        final(dst)@ == old(dst)@ + src@,
{
    let mut i: usize = 0;
    while i < src.len()
        invariant
            i <= src@.len(),
            dst@ == old(dst)@ + src@.subrange(0, i as int),
        decreases src@.len() - i,
    {
        dst.push(src[i]);
        proof {
            assert(dst@ == old(dst)@ + src@.subrange(0, i + 1));
        }
        i = i + 1;
    }
    proof {
        assert(src@.subrange(0, src@.len() as int) == src@);
    }
}

/// Merges two layers of the same category: centroid lists concatenated in
/// order, street networks united.  Success is owed whenever the combined
/// centroid and node counts stay inside the engine's capacity.
pub fn merge_layers(a: &Layer, b: &Layer) -> (r: Result<Layer, OLPError>)
    requires
        a.wf(),
        b.wf(),
    ensures
        match r {
            Ok(l) => {
                &&& l.wf()
                &&& l.layer_type@ == a.layer_type@
                &&& l.centroids@ == a.centroids@ + b.centroids@
                &&& l.streets.nodes@.len() <= a.streets.nodes@.len() + b.streets.nodes@.len()
                &&& (forall|p: GeoPoint|
                    #[trigger] node_in(l.streets, p) <==> (node_in(a.streets, p) || node_in(
                        b.streets,
                        p,
                    )))
                &&& (forall|pa: GeoPoint, pb: GeoPoint, len: u64|
                    #[trigger] edge_in(l.streets, pa, pb, len) <==> (edge_in(a.streets, pa, pb, len)
                        || edge_in(b.streets, pa, pb, len)))
            },
            Err(_) => a.centroids@.len() + b.centroids@.len() > MAX_CENTROIDS
                || a.streets.nodes@.len() + b.streets.nodes@.len() > MAX_NODES,
        },
{
    if a.centroids.len() > MAX_CENTROIDS - b.centroids.len() {
        return Err(OLPError::data_error("merged layer would carry too many centroids"));
    }
    let streets = match merge_networks(&a.streets, &b.streets) {
        Ok(n) => n,
        Err(e) => {
            return Err(e);
        },
    };
    let mut centroids: Vec<Centroid> = Vec::new();
    append_centroids(&mut centroids, &a.centroids);
    append_centroids(&mut centroids, &b.centroids);
    proof {
        assert(centroids@ == (Seq::<Centroid>::empty() + a.centroids@) + b.centroids@);
        assert(centroids@ =~= a.centroids@ + b.centroids@);
    }
    let layer_type = String::from_str(a.layer_type.as_str());
    Ok(Layer { layer_type, centroids, streets })
}

/// Concatenating centroid lists is associative: merging a layer with a
/// second and then a third composes the same sequence, whichever pair is
/// merged first.
pub proof fn lemma_merge_associative(a: Seq<Centroid>, b: Seq<Centroid>, c: Seq<Centroid>)
    ensures
        (a + b) + c == a + (b + c),
{
    assert((a + b) + c =~= a + (b + c));
}

/// The layer store: every loaded layer, in load order.
#[derive(Debug)]
pub struct Layers {
    pub layers: Vec<Layer>,
}

/// Whether any of the first `n` layers has a node at `p`.
pub open spec fn store_node_in(layers: Seq<Layer>, p: GeoPoint, n: nat) -> bool {
    exists|i: int| 0 <= i < n && node_in((#[trigger] layers[i]).streets, p)
}

/// Whether any of the first `n` layers has such a segment.
pub open spec fn store_edge_in(
    layers: Seq<Layer>,
    pa: GeoPoint,
    pb: GeoPoint,
    len: u64,
    n: nat,
) -> bool {
    exists|i: int| 0 <= i < n && edge_in((#[trigger] layers[i]).streets, pa, pb, len)
}

/// Whether any of the first `n` layers of category `cat` has a node at `p`.
pub open spec fn cat_node_in(layers: Seq<Layer>, cat: Seq<char>, p: GeoPoint, n: nat) -> bool {
    exists|i: int|
        0 <= i < n && (#[trigger] layers[i]).layer_type@ == cat && node_in(layers[i].streets, p)
}

/// Whether any of the first `n` layers of category `cat` has such a segment.
pub open spec fn cat_edge_in(
    layers: Seq<Layer>,
    cat: Seq<char>,
    pa: GeoPoint,
    pb: GeoPoint,
    len: u64,
    n: nat,
) -> bool {
    exists|i: int|
        0 <= i < n && (#[trigger] layers[i]).layer_type@ == cat && edge_in(
            layers[i].streets,
            pa,
            pb,
            len,
        )
}

/// Total centroid count of the first `n` layers.
pub open spec fn total_centroids(layers: Seq<Layer>, n: nat) -> int
    decreases n,
{
    if n == 0 {
        0
    } else {
        total_centroids(layers, (n - 1) as nat) + layers[n - 1].centroids@.len()
    }
}

/// Total node count of the first `n` layers.
pub open spec fn total_nodes(layers: Seq<Layer>, n: nat) -> int
    decreases n,
{
    if n == 0 {
        0
    } else {
        total_nodes(layers, (n - 1) as nat) + layers[n - 1].streets.nodes@.len()
    }
}

/// Total centroid count of the first `n` layers of category `cat`.
pub open spec fn total_matching_centroids(layers: Seq<Layer>, cat: Seq<char>, n: nat) -> int
    decreases n,
{
    if n == 0 {
        0
    } else {
        total_matching_centroids(layers, cat, (n - 1) as nat) + if layers[n - 1].layer_type@
            == cat {
            layers[n - 1].centroids@.len() as int
        } else {
            0
        }
    }
}

/// Total node count of the first `n` layers of category `cat`.
pub open spec fn total_matching_nodes(layers: Seq<Layer>, cat: Seq<char>, n: nat) -> int
    decreases n,
{
    if n == 0 {
        0
    } else {
        total_matching_nodes(layers, cat, (n - 1) as nat) + if layers[n - 1].layer_type@ == cat {
            layers[n - 1].streets.nodes@.len() as int
        } else {
            0
        }
    }
}

/// The distinct categories of the first `n` layers, in order of first
/// appearance.
pub open spec fn distinct_cats(layers: Seq<Layer>, n: nat) -> Seq<Seq<char>>
    decreases n,
{
    if n == 0 {
        Seq::empty()
    } else {
        let p = distinct_cats(layers, (n - 1) as nat);
        if p.contains(layers[n - 1].layer_type@) {
            p
        } else {
            p.push(layers[n - 1].layer_type@)
        }
    }
}

proof fn lemma_concat_len(layers: Seq<Layer>, n: nat)
    requires
        n <= layers.len(),
    ensures
        concat_centroids(layers, n).len() == total_centroids(layers, n),
        total_centroids(layers, n) >= 0,
    decreases n,
{
    if n > 0 {
        lemma_concat_len(layers, (n - 1) as nat);
    }
}

proof fn lemma_concat_matching_len(layers: Seq<Layer>, cat: Seq<char>, n: nat)
    requires
        n <= layers.len(),
    ensures
        concat_matching(layers, cat, n).len() == total_matching_centroids(layers, cat, n),
        total_matching_centroids(layers, cat, n) >= 0,
    decreases n,
{
    if n > 0 {
        lemma_concat_matching_len(layers, cat, (n - 1) as nat);
    }
}

proof fn lemma_totals_mono(layers: Seq<Layer>, n: nat, m: nat)
    requires
        n <= m <= layers.len(),
    ensures
        total_centroids(layers, n) <= total_centroids(layers, m),
        total_nodes(layers, n) <= total_nodes(layers, m),
        total_nodes(layers, n) >= 0,
    decreases m,
{
    if n < m {
        lemma_totals_mono(layers, n, (m - 1) as nat);
    } else if n == m && n > 0 {
        lemma_totals_mono(layers, (n - 1) as nat, (n - 1) as nat);
    }
}

proof fn lemma_matching_totals_mono(layers: Seq<Layer>, cat: Seq<char>, n: nat, m: nat)
    requires
        n <= m <= layers.len(),
    ensures
        total_matching_centroids(layers, cat, n) <= total_matching_centroids(layers, cat, m),
        total_matching_nodes(layers, cat, n) <= total_matching_nodes(layers, cat, m),
        total_matching_nodes(layers, cat, n) >= 0,
    decreases m,
{
    if n < m {
        lemma_matching_totals_mono(layers, cat, n, (m - 1) as nat);
    } else if n == m && n > 0 {
        lemma_matching_totals_mono(layers, cat, (n - 1) as nat, (n - 1) as nat);
    }
}

/// What one composite layer of the store promises: its centroid list is the
/// concatenation, in store order, of the centroid lists of every layer of
/// its category, and its street network is exactly the union of those
/// layers' networks.
pub open spec fn composite_ok(layers: Seq<Layer>, l: Layer) -> bool {
    &&& l.wf()
    &&& l.centroids@ == concat_matching(layers, l.layer_type@, layers.len() as nat)
    &&& (forall|p: GeoPoint|
        #[trigger] node_in(l.streets, p) <==> cat_node_in(
            layers,
            l.layer_type@,
            p,
            layers.len() as nat,
        ))
    &&& (forall|pa: GeoPoint, pb: GeoPoint, len: u64|
        #[trigger] edge_in(l.streets, pa, pb, len) <==> cat_edge_in(
            layers,
            l.layer_type@,
            pa,
            pb,
            len,
            layers.len() as nat,
        ))
}

impl Layers {
    pub open spec fn wf(self) -> bool {
        forall|i: int| 0 <= i < self.layers@.len() ==> (#[trigger] self.layers@[i]).wf()
    }

    /// An empty store.
    pub fn new() -> (r: Layers)
        ensures
            r.wf(),
            r.layers@.len() == 0,
    {
        Layers { layers: Vec::new() }
    }

    /// Appends one loaded layer to the store.
    pub fn add_layer(&mut self, layer: Layer)
        requires
            old(self).wf(),
            layer.wf(),
        ensures
            final(self).wf(),
            final(self).layers@ == old(self).layers@.push(layer),
    {
        self.layers.push(layer);
    }

    /// One composite layer spanning every category, for category-agnostic
    /// route queries: all centroid lists concatenated in store order, all
    /// street networks united.  An empty store yields the empty composite;
    /// failure only when the store's combined centroid or node counts exceed
    /// the engine's capacity.
    pub fn all_merged(&self) -> (r: Result<Layer, OLPError>)
        requires
            self.wf(),
        ensures
            match r {
                Ok(l) => {
                    &&& l.wf()
                    &&& l.centroids@ == concat_centroids(
                        self.layers@,
                        self.layers@.len() as nat,
                    )
                    &&& (forall|p: GeoPoint|
                        #[trigger] node_in(l.streets, p) <==> store_node_in(
                            self.layers@,
                            p,
                            self.layers@.len() as nat,
                        ))
                    &&& (forall|pa: GeoPoint, pb: GeoPoint, len: u64|
                        #[trigger] edge_in(l.streets, pa, pb, len) <==> store_edge_in(
                            self.layers@,
                            pa,
                            pb,
                            len,
                            self.layers@.len() as nat,
                        ))
                },
                Err(_) => total_centroids(self.layers@, self.layers@.len() as nat)
                    > MAX_CENTROIDS || total_nodes(self.layers@, self.layers@.len() as nat)
                    > MAX_NODES,
            },
    {
        let ghost all: Seq<Layer> = self.layers@;
        let ghost n_all: nat = self.layers@.len() as nat;
        let mut acc = Layer {
            layer_type: String::from_str("all"),
            centroids: Vec::new(),
            streets: StreetNetwork::new(),
        };
        let mut i: usize = 0;
        proof {
            assert(forall|p: GeoPoint| !node_in(acc.streets, p));
            assert(forall|pa: GeoPoint, pb: GeoPoint, len: u64| !edge_in(acc.streets, pa, pb, len));
        }
        while i < self.layers.len()
            invariant
                self.wf(),
                all == self.layers@,
                n_all == self.layers@.len(),
                i <= n_all,
                acc.wf(),
                acc.centroids@ == concat_centroids(all, i as nat),
                acc.streets.nodes@.len() <= total_nodes(all, i as nat),
                forall|p: GeoPoint|
                    #[trigger] node_in(acc.streets, p) <==> store_node_in(all, p, i as nat),
                forall|pa: GeoPoint, pb: GeoPoint, len: u64|
                    #[trigger] edge_in(acc.streets, pa, pb, len) <==> store_edge_in(
                        all,
                        pa,
                        pb,
                        len,
                        i as nat,
                    ),
            decreases n_all - i,
        {
            let ghost acc_before = acc;
            let merged = match merge_layers(&acc, &self.layers[i]) {
                Ok(l) => l,
                Err(e) => {
                    proof {
                        lemma_concat_len(all, i as nat);
                        lemma_totals_mono(all, (i + 1) as nat, n_all);
                        lemma_concat_len(all, n_all);
                    }
                    return Err(e);
                },
            };
            acc = Layer {
                layer_type: String::from_str("all"),
                centroids: merged.centroids,
                streets: merged.streets,
            };
            proof {
                let li = all[i as int];
                assert forall|p: GeoPoint| #[trigger] node_in(acc.streets, p) implies store_node_in(
                    all,
                    p,
                    (i + 1) as nat,
                ) by {
                    if node_in(acc_before.streets, p) {
                        let w = choose|x: int|
                            0 <= x < i && node_in((#[trigger] all[x]).streets, p);
                        assert(0 <= w < i + 1 && node_in(all[w].streets, p));
                    } else {
                        assert(node_in(li.streets, p));
                        assert(0 <= i < i + 1 && node_in(all[i as int].streets, p));
                    }
                }
                assert forall|p: GeoPoint| store_node_in(all, p, (i + 1) as nat) implies #[trigger]
                node_in(acc.streets, p) by {
                    let w = choose|x: int|
                        0 <= x < i + 1 && node_in((#[trigger] all[x]).streets, p);
                    if w < i {
                        assert(store_node_in(all, p, i as nat));
                    } else {
                        assert(node_in(li.streets, p));
                    }
                }
                assert forall|pa: GeoPoint, pb: GeoPoint, len: u64|
                    #[trigger] edge_in(acc.streets, pa, pb, len) implies store_edge_in(
                    all,
                    pa,
                    pb,
                    len,
                    (i + 1) as nat,
                ) by {
                    if edge_in(acc_before.streets, pa, pb, len) {
                        let w = choose|x: int|
                            0 <= x < i && edge_in((#[trigger] all[x]).streets, pa, pb, len);
                        assert(0 <= w < i + 1 && edge_in(all[w].streets, pa, pb, len));
                    } else {
                        assert(edge_in(li.streets, pa, pb, len));
                        assert(0 <= i < i + 1 && edge_in(all[i as int].streets, pa, pb, len));
                    }
                }
                assert forall|pa: GeoPoint, pb: GeoPoint, len: u64|
                    store_edge_in(all, pa, pb, len, (i + 1) as nat) implies #[trigger] edge_in(
                    acc.streets,
                    pa,
                    pb,
                    len,
                ) by {
                    let w = choose|x: int|
                        0 <= x < i + 1 && edge_in((#[trigger] all[x]).streets, pa, pb, len);
                    if w < i {
                        assert(store_edge_in(all, pa, pb, len, i as nat));
                    } else {
                        assert(edge_in(li.streets, pa, pb, len));
                    }
                }
            }
            i = i + 1;
        }
        Ok(acc)
    }

    /// One composite layer per category, in order of each category's first
    /// appearance: the centroid lists of that category concatenated in store
    /// order, raw entries kept (duplicate coordinates are not collapsed),
    /// street networks of the category united.  Failure only when one
    /// category's combined centroid or node counts exceed the capacity.
    pub fn all_merged_by_type(&self) -> (r: Result<Vec<Layer>, OLPError>)
        requires
            self.wf(),
        ensures
            match r {
                Ok(ls) => {
                    &&& ls@.len() == distinct_cats(
                        self.layers@,
                        self.layers@.len() as nat,
                    ).len()
                    &&& (forall|k: int|
                        0 <= k < ls@.len() ==> (#[trigger] ls@[k]).layer_type@ == distinct_cats(
                            self.layers@,
                            self.layers@.len() as nat,
                        )[k])
                    &&& (forall|k: int|
                        0 <= k < ls@.len() ==> composite_ok(self.layers@, #[trigger] ls@[k]))
                },
                Err(_) => exists|c: Seq<char>|
                    total_matching_centroids(self.layers@, c, self.layers@.len() as nat)
                        > MAX_CENTROIDS || #[trigger] total_matching_nodes(
                        self.layers@,
                        c,
                        self.layers@.len() as nat,
                    ) > MAX_NODES,
            },
    {
        let ghost all: Seq<Layer> = self.layers@;
        let ghost n_all: nat = self.layers@.len() as nat;
        let mut out: Vec<Layer> = Vec::new();
        let mut seen: Vec<String> = Vec::new();
        let mut i: usize = 0;
        while i < self.layers.len()
            invariant
                self.wf(),
                all == self.layers@,
                n_all == self.layers@.len(),
                i <= n_all,
                seen@.len() == out@.len(),
                out@.len() == distinct_cats(all, i as nat).len(),
                forall|k: int|
                    0 <= k < out@.len() ==> (#[trigger] seen@[k])@ == distinct_cats(
                        all,
                        i as nat,
                    )[k],
                forall|k: int|
                    0 <= k < out@.len() ==> (#[trigger] out@[k]).layer_type@ == distinct_cats(
                        all,
                        i as nat,
                    )[k],
                forall|k: int| 0 <= k < out@.len() ==> composite_ok(all, #[trigger] out@[k]),
            decreases n_all - i,
        {
            let cat = &self.layers[i].layer_type;
            let ghost cat_seq: Seq<char> = self.layers@[i as int].layer_type@;
            let mut already: bool = false;
            let mut s: usize = 0;
            while s < seen.len()
                invariant
                    s <= seen@.len(),
                    cat == &self.layers@[i as int].layer_type,
                    cat_seq == self.layers@[i as int].layer_type@,
                    already <==> exists|s2: int| 0 <= s2 < s && (#[trigger] seen@[s2])@ == cat_seq,
                decreases seen@.len() - s,
            {
                if seen[s] == *cat {
                    already = true;
                    proof {
                        assert(seen@[s as int]@ == cat_seq);
                    }
                }
                s = s + 1;
            }
            proof {
                // The scanned list mirrors the distinct categories seen so far.
                if already {
                    let w = choose|s2: int| 0 <= s2 < seen@.len() && (#[trigger] seen@[s2])@ == cat_seq;
                    assert(distinct_cats(all, i as nat)[w] == cat_seq);
                    assert(distinct_cats(all, i as nat).contains(cat_seq));
                    assert(distinct_cats(all, (i + 1) as nat) == distinct_cats(all, i as nat));
                } else {
                    if distinct_cats(all, i as nat).contains(cat_seq) {
                        let w = choose|k: int|
                            0 <= k < distinct_cats(all, i as nat).len() && distinct_cats(
                                all,
                                i as nat,
                            )[k] == cat_seq;
                        assert(seen@[w]@ == cat_seq);
                    }
                    assert(!distinct_cats(all, i as nat).contains(cat_seq));
                    assert(distinct_cats(all, (i + 1) as nat) == distinct_cats(
                        all,
                        i as nat,
                    ).push(cat_seq));
                }
            }
            if !already {
                // Merge every layer of this category, in store order.
                let mut acc = Layer {
                    layer_type: String::from_str(cat.as_str()),
                    centroids: Vec::new(),
                    streets: StreetNetwork::new(),
                };
                let mut j: usize = 0;
                proof {
                    assert(forall|p: GeoPoint| !node_in(acc.streets, p));
                    assert(forall|pa: GeoPoint, pb: GeoPoint, len: u64|
                        !edge_in(acc.streets, pa, pb, len));
                }
                while j < self.layers.len()
                    invariant
                        self.wf(),
                        all == self.layers@,
                        n_all == self.layers@.len(),
                        j <= n_all,
                        acc.wf(),
                        acc.layer_type@ == cat_seq,
                        acc.centroids@ == concat_matching(all, cat_seq, j as nat),
                        acc.streets.nodes@.len() <= total_matching_nodes(all, cat_seq, j as nat),
                        forall|p: GeoPoint|
                            #[trigger] node_in(acc.streets, p) <==> cat_node_in(
                                all,
                                cat_seq,
                                p,
                                j as nat,
                            ),
                        forall|pa: GeoPoint, pb: GeoPoint, len: u64|
                            #[trigger] edge_in(acc.streets, pa, pb, len) <==> cat_edge_in(
                                all,
                                cat_seq,
                                pa,
                                pb,
                                len,
                                j as nat,
                            ),
                    decreases n_all - j,
                {
                    let ghost acc_before = acc;
                    let ghost lj = all[j as int];
                    if self.layers[j].layer_type == acc.layer_type {
                        let merged = match merge_layers(&acc, &self.layers[j]) {
                            Ok(l) => l,
                            Err(e) => {
                                proof {
                                    lemma_concat_matching_len(all, cat_seq, j as nat);
                                    lemma_matching_totals_mono(all, cat_seq, (j + 1) as nat, n_all);
                                    lemma_concat_matching_len(all, cat_seq, n_all);
                                }
                                return Err(e);
                            },
                        };
                        acc = Layer {
                            layer_type: acc.layer_type,
                            centroids: merged.centroids,
                            streets: merged.streets,
                        };
                        proof {
                            assert forall|p: GeoPoint| #[trigger]
                            node_in(acc.streets, p) implies cat_node_in(
                                all,
                                cat_seq,
                                p,
                                (j + 1) as nat,
                            ) by {
                                if node_in(acc_before.streets, p) {
                                    let w = choose|x: int|
                                        0 <= x < j && (#[trigger] all[x]).layer_type@ == cat_seq
                                            && node_in(all[x].streets, p);
                                    assert(0 <= w < j + 1 && all[w].layer_type@ == cat_seq
                                        && node_in(all[w].streets, p));
                                } else {
                                    assert(node_in(lj.streets, p));
                                    assert(0 <= j < j + 1 && all[j as int].layer_type@ == cat_seq
                                        && node_in(all[j as int].streets, p));
                                }
                            }
                            assert forall|p: GeoPoint|
                                cat_node_in(all, cat_seq, p, (j + 1) as nat) implies #[trigger]
                            node_in(acc.streets, p) by {
                                let w = choose|x: int|
                                    0 <= x < j + 1 && (#[trigger] all[x]).layer_type@ == cat_seq
                                        && node_in(all[x].streets, p);
                                if w < j {
                                    assert(cat_node_in(all, cat_seq, p, j as nat));
                                } else {
                                    assert(node_in(lj.streets, p));
                                }
                            }
                            assert forall|pa: GeoPoint, pb: GeoPoint, len: u64|
                                #[trigger] edge_in(acc.streets, pa, pb, len) implies cat_edge_in(
                                all,
                                cat_seq,
                                pa,
                                pb,
                                len,
                                (j + 1) as nat,
                            ) by {
                                if edge_in(acc_before.streets, pa, pb, len) {
                                    let w = choose|x: int|
                                        0 <= x < j && (#[trigger] all[x]).layer_type@ == cat_seq
                                            && edge_in(all[x].streets, pa, pb, len);
                                    assert(0 <= w < j + 1 && all[w].layer_type@ == cat_seq
                                        && edge_in(all[w].streets, pa, pb, len));
                                } else {
                                    assert(edge_in(lj.streets, pa, pb, len));
                                    assert(0 <= j < j + 1 && all[j as int].layer_type@ == cat_seq
                                        && edge_in(all[j as int].streets, pa, pb, len));
                                }
                            }
                            assert forall|pa: GeoPoint, pb: GeoPoint, len: u64|
                                cat_edge_in(all, cat_seq, pa, pb, len, (j + 1) as nat) implies
                                #[trigger] edge_in(acc.streets, pa, pb, len) by {
                                let w = choose|x: int|
                                    0 <= x < j + 1 && (#[trigger] all[x]).layer_type@ == cat_seq
                                        && edge_in(all[x].streets, pa, pb, len);
                                if w < j {
                                    assert(cat_edge_in(all, cat_seq, pa, pb, len, j as nat));
                                } else {
                                    assert(edge_in(lj.streets, pa, pb, len));
                                }
                            }
                        }
                    } else {
                        proof {
                            assert(lj.layer_type@ != cat_seq);
                            assert(acc.centroids@ =~= concat_matching(
                                all,
                                cat_seq,
                                (j + 1) as nat,
                            ));
                            assert forall|p: GeoPoint|
                                cat_node_in(all, cat_seq, p, (j + 1) as nat) implies #[trigger]
                            node_in(acc.streets, p) by {
                                let w = choose|x: int|
                                    0 <= x < j + 1 && (#[trigger] all[x]).layer_type@ == cat_seq
                                        && node_in(all[x].streets, p);
                                assert(w < j);
                                assert(cat_node_in(all, cat_seq, p, j as nat));
                            }
                            assert forall|pa: GeoPoint, pb: GeoPoint, len: u64|
                                cat_edge_in(all, cat_seq, pa, pb, len, (j + 1) as nat) implies
                                #[trigger] edge_in(acc.streets, pa, pb, len) by {
                                let w = choose|x: int|
                                    0 <= x < j + 1 && (#[trigger] all[x]).layer_type@ == cat_seq
                                        && edge_in(all[x].streets, pa, pb, len);
                                assert(w < j);
                                assert(cat_edge_in(all, cat_seq, pa, pb, len, j as nat));
                            }
                        }
                    }
                    j = j + 1;
                }
                seen.push(String::from_str(cat.as_str()));
                out.push(acc);
            }
            i = i + 1;
        }
        Ok(out)
    }
}

impl Default for Layers {
    /// The empty store: what the service falls back to when no cached layer
    /// data can be loaded.
    fn default() -> (r: Layers)
        ensures
            r.wf(),
            r.layers@.len() == 0,
    {
        Layers { layers: Vec::new() }
    }
}

/// Concatenation of the centroid lists of the first `n` layers whose
/// category matches `cat`.
pub open spec fn concat_matching(layers: Seq<Layer>, cat: Seq<char>, n: nat) -> Seq<Centroid>
    decreases n,
{
    if n == 0 {
        Seq::empty()
    } else {
        concat_matching(layers, cat, (n - 1) as nat) + if layers[n - 1].layer_type@ == cat {
            layers[n - 1].centroids@
        } else {
            Seq::empty()
        }
    }
}

/// Concatenation of the centroid lists of the first `n` layers.
pub open spec fn concat_centroids(layers: Seq<Layer>, n: nat) -> Seq<Centroid>
    decreases n,
{
    if n == 0 {
        Seq::empty()
    } else {
        concat_centroids(layers, (n - 1) as nat) + layers[n - 1].centroids@
    }
}

} // verus!
